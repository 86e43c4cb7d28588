use composite_dispatch::descriptor::{Component, Descriptor, Leaf, Trigger, Value, obj_get};
use composite_dispatch::partition::{MalformedDescriptor, partition};

fn s(x: &str) -> String {
    x.to_string()
}

fn composite_trigger(id: &str, trigger_type: &str, component: &str) -> Trigger {
    Trigger {
        id: s(id),
        trigger_type: s(""),
        trigger_config: Value::Obj(vec![
            (s("type"), Leaf::Str(s(trigger_type))),
            (s("component"), Leaf::Str(s(component))),
        ]),
    }
}

fn sample() -> Descriptor {
    Descriptor {
        components: vec![
            Component { id: s("c1"), payload: s("{\"source\":\"a.wasm\"}") },
            Component { id: s("c2"), payload: s("{\"source\":\"b.wasm\"}") },
        ],
        triggers: vec![
            composite_trigger("t1", "http", "c1"),
            composite_trigger("t2", "redis", "c2"),
        ],
        metadata: vec![
            (s("name"), Value::Leaf(Leaf::Str(s("demo")))),
            (
                s("trigger"),
                Value::Obj(vec![
                    (s("http-base"), Leaf::Str(s("/"))),
                    (s("redis-address"), Leaf::Str(s("redis://x"))),
                ]),
            ),
        ],
    }
}

fn get_str<'a>(es: &'a Vec<(String, Leaf)>, key: &str) -> Option<&'a str> {
    match obj_get(es, key) {
        Some(Leaf::Str(v)) => Some(v.as_str()),
        _ => None,
    }
}

#[test]
fn partition_keeps_only_matching_triggers() {
    let d = sample();
    let scoped = partition(&d, "http").unwrap();
    assert_eq!(scoped.triggers.len(), 1);
    assert_eq!(scoped.triggers[0].id, "t1");
    assert_eq!(scoped.triggers[0].trigger_type, "http");
}

#[test]
fn partition_promotes_type_out_of_config() {
    let d = sample();
    let scoped = partition(&d, "http").unwrap();
    match &scoped.triggers[0].trigger_config {
        Value::Obj(es) => {
            assert!(obj_get(es, "type").is_none());
            assert_eq!(get_str(es, "component"), Some("c1"));
        },
        Value::Leaf(_) => panic!("trigger config must stay an object"),
    }
}

#[test]
fn orphan_removal_concrete() {
    // c2 is referenced only by the redis trigger, so it is absent from
    // the http partition.
    let d = sample();
    let scoped = partition(&d, "http").unwrap();
    assert_eq!(scoped.components.len(), 1);
    assert_eq!(scoped.components[0].id, "c1");
    assert_eq!(scoped.components[0].payload, "{\"source\":\"a.wasm\"}");
}

#[test]
fn partition_type_disjointness_concrete() {
    let d = sample();
    let http = partition(&d, "http").unwrap();
    let redis = partition(&d, "redis").unwrap();
    for a in &http.triggers {
        for b in &redis.triggers {
            assert_ne!(a.trigger_type, b.trigger_type);
        }
    }
}

#[test]
fn metadata_demultiplexing_concrete() {
    let d = sample();
    let scoped = partition(&d, "http").unwrap();
    let mut trigger_obj = None;
    for (k, v) in &scoped.metadata {
        if k == "trigger" {
            trigger_obj = Some(v);
        }
    }
    match trigger_obj {
        Some(Value::Obj(es)) => {
            assert_eq!(es.len(), 2);
            assert_eq!(get_str(es, "base"), Some("/"));
            assert_eq!(get_str(es, "type"), Some("http"));
            assert!(obj_get(es, "http-base").is_none());
            assert!(obj_get(es, "redis-address").is_none());
        },
        _ => panic!("trigger metadata must be an object"),
    }
}

#[test]
fn metadata_other_entries_pass_through() {
    let d = sample();
    let scoped = partition(&d, "redis").unwrap();
    let mut found = false;
    for (k, v) in &scoped.metadata {
        if k == "name" {
            found = true;
            assert!(matches!(v, Value::Leaf(Leaf::Str(x)) if x == "demo"));
        }
    }
    assert!(found);
}

#[test]
fn partition_missing_component_is_malformed() {
    let mut d = sample();
    d.triggers.push(Trigger {
        id: s("t3"),
        trigger_type: s(""),
        trigger_config: Value::Obj(vec![(s("type"), Leaf::Str(s("http")))]),
    });
    match partition(&d, "http") {
        Err(MalformedDescriptor::MissingComponentRef { trigger_id }) => {
            assert_eq!(trigger_id, "t3");
        },
        _ => panic!("a matching trigger without a component must be fatal"),
    }
}

#[test]
fn partition_missing_trigger_metadata_is_malformed() {
    let mut d = sample();
    d.metadata = vec![(s("name"), Value::Leaf(Leaf::Str(s("demo"))))];
    assert!(matches!(
        partition(&d, "http"),
        Err(MalformedDescriptor::MissingTriggerMetadata)
    ));
}

#[test]
fn partition_of_unknown_type_is_empty_but_ok() {
    let d = sample();
    let scoped = partition(&d, "sqs").unwrap();
    assert!(scoped.triggers.is_empty());
    assert!(scoped.components.is_empty());
}

#[test]
fn partition_keeps_other_config_entries() {
    let mut d = sample();
    if let Value::Obj(es) = &mut d.triggers[0].trigger_config {
        es.push((s("route"), Leaf::Str(s("/..."))));
        es.push((s("executor"), Leaf::Raw(s("{\"type\":\"spin\"}"))));
    }
    let scoped = partition(&d, "http").unwrap();
    match &scoped.triggers[0].trigger_config {
        Value::Obj(es) => {
            assert_eq!(es.len(), 3);
            assert_eq!(get_str(es, "route"), Some("/..."));
            assert!(matches!(
                obj_get(es, "executor"),
                Some(Leaf::Raw(x)) if x == "{\"type\":\"spin\"}"
            ));
        },
        Value::Leaf(_) => panic!(),
    }
}

#[test]
fn partition_non_object_config_is_malformed() {
    let mut d = sample();
    d.triggers.push(Trigger {
        id: s("odd"),
        trigger_type: s(""),
        trigger_config: Value::Leaf(Leaf::Raw(s("42"))),
    });
    match partition(&d, "http") {
        Err(MalformedDescriptor::MissingTriggerType { trigger_id }) => {
            assert_eq!(trigger_id, "odd");
        },
        _ => panic!("a trigger without a type key must be fatal"),
    }
}

#[test]
fn partition_missing_type_key_is_malformed() {
    let mut d = sample();
    d.triggers.push(Trigger {
        id: s("untyped"),
        trigger_type: s(""),
        trigger_config: Value::Obj(vec![(s("component"), Leaf::Str(s("c1")))]),
    });
    match partition(&d, "redis") {
        Err(MalformedDescriptor::MissingTriggerType { trigger_id }) => {
            assert_eq!(trigger_id, "untyped");
        },
        _ => panic!("a trigger without a type key must be fatal"),
    }
}

fn leaves_equal(a: &Leaf, b: &Leaf) -> bool {
    match (a, b) {
        (Leaf::Str(x), Leaf::Str(y)) => x == y,
        (Leaf::Raw(x), Leaf::Raw(y)) => x == y,
        _ => false,
    }
}

fn values_equal(a: &Value, b: &Value) -> bool {
    match (a, b) {
        (Value::Obj(x), Value::Obj(y)) => {
            x.len() == y.len()
                && x.iter().zip(y.iter()).all(|(p, q)| p.0 == q.0 && leaves_equal(&p.1, &q.1))
        },
        (Value::Leaf(x), Value::Leaf(y)) => leaves_equal(x, y),
        _ => false,
    }
}

#[test]
fn partition_is_deterministic() {
    // Two calls on the same input agree structurally, entry for entry —
    // the serialized manifest bytes do not depend on the call.
    let d = sample();
    let a = partition(&d, "http").unwrap();
    let b = partition(&d, "http").unwrap();
    assert_eq!(a.components.len(), b.components.len());
    for (x, y) in a.components.iter().zip(b.components.iter()) {
        assert_eq!(x.id, y.id);
        assert_eq!(x.payload, y.payload);
    }
    assert_eq!(a.triggers.len(), b.triggers.len());
    for (x, y) in a.triggers.iter().zip(b.triggers.iter()) {
        assert_eq!(x.id, y.id);
        assert_eq!(x.trigger_type, y.trigger_type);
        assert!(values_equal(&x.trigger_config, &y.trigger_config));
    }
    assert_eq!(a.metadata.len(), b.metadata.len());
    for (x, y) in a.metadata.iter().zip(b.metadata.iter()) {
        assert_eq!(x.0, y.0);
        assert!(values_equal(&x.1, &y.1));
    }
}

#[test]
fn partition_leaves_source_untouched() {
    let d = sample();
    let _ = partition(&d, "http").unwrap();
    assert_eq!(d.components.len(), 2);
    assert_eq!(d.triggers.len(), 2);
    match &d.triggers[0].trigger_config {
        Value::Obj(es) => assert_eq!(get_str(es, "type"), Some("http")),
        Value::Leaf(_) => panic!(),
    }
}
