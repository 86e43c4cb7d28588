use composite_dispatch::descriptor::{Component, Descriptor, Leaf, Trigger, Value};
use composite_dispatch::partition::MalformedDescriptor;
use composite_dispatch::supervisor::{discover_trigger_types, plan_launches, subcommand_for};
use composite_dispatch::writer::{lock_file_name, manifest_path, manifest_url};

fn s(x: &str) -> String {
    x.to_string()
}

fn toks(xs: &[&str]) -> Vec<String> {
    xs.iter().map(|x| x.to_string()).collect()
}

fn composite_trigger(id: &str, trigger_type: &str, component: &str) -> Trigger {
    Trigger {
        id: s(id),
        trigger_type: s(""),
        trigger_config: Value::Obj(vec![
            (s("type"), Leaf::Str(s(trigger_type))),
            (s("component"), Leaf::Str(s(component))),
        ]),
    }
}

fn sample() -> Descriptor {
    Descriptor {
        components: vec![
            Component { id: s("c1"), payload: s("{}") },
            Component { id: s("c2"), payload: s("{}") },
        ],
        triggers: vec![
            composite_trigger("t1", "http", "c1"),
            composite_trigger("t2", "redis", "c2"),
            composite_trigger("t3", "http", "c1"),
        ],
        metadata: vec![(
            s("trigger"),
            Value::Obj(vec![
                (s("http-base"), Leaf::Str(s("/"))),
                (s("redis-address"), Leaf::Str(s("redis://x"))),
            ]),
        )],
    }
}

#[test]
fn discover_types_distinct_first_appearance() {
    let d = sample();
    assert_eq!(discover_trigger_types(&d).unwrap(), toks(&["http", "redis"]));
}

#[test]
fn discover_types_typeless_trigger_is_malformed() {
    let mut d = sample();
    d.triggers.push(Trigger {
        id: s("untyped"),
        trigger_type: s(""),
        trigger_config: Value::Obj(vec![(s("component"), Leaf::Str(s("c1")))]),
    });
    match discover_trigger_types(&d) {
        Err(MalformedDescriptor::MissingTriggerType { trigger_id }) => {
            assert_eq!(trigger_id, "untyped");
        },
        _ => panic!("a trigger without a type key must be fatal"),
    }
}

#[test]
fn subcommand_builtin_types() {
    assert_eq!(subcommand_for("http"), toks(&["trigger", "http"]));
    assert_eq!(subcommand_for("redis"), toks(&["trigger", "redis"]));
}

#[test]
fn subcommand_custom_type() {
    assert_eq!(subcommand_for("sqs"), toks(&["trigger-sqs"]));
}

#[test]
fn lock_file_name_format() {
    assert_eq!(lock_file_name("http"), "manifest.http.lock");
}

#[test]
fn manifest_path_format() {
    assert_eq!(manifest_path("/tmp/work", "redis"), "/tmp/work/manifest.redis.lock");
}

#[test]
fn manifest_url_is_file_url() {
    let url = manifest_url("/tmp/work", "http").unwrap();
    assert_eq!(url, "file:///tmp/work/manifest.http.lock");
}

#[test]
fn manifest_url_relative_dir_refused() {
    assert!(manifest_url("relative/dir", "http").is_none());
}

#[test]
fn plan_launches_end_to_end() {
    let d = sample();
    let args = toks(&["--http-base", "/api", "--redis-address", "redis://y", "--other-common"]);
    let plans = plan_launches(&d, &args).unwrap();
    assert_eq!(plans.len(), 2);

    assert_eq!(plans[0].trigger_type, "http");
    assert_eq!(plans[0].args, toks(&["--base", "/api"]));
    assert_eq!(plans[0].subcommand, toks(&["trigger", "http"]));
    assert_eq!(plans[0].lock_file, "manifest.http.lock");
    assert_eq!(plans[0].scoped.components.len(), 1);
    assert_eq!(plans[0].scoped.components[0].id, "c1");
    assert_eq!(plans[0].scoped.triggers.len(), 2);
    assert_eq!(plans[0].scoped.triggers[0].trigger_type, "http");

    assert_eq!(plans[1].trigger_type, "redis");
    assert_eq!(plans[1].args, toks(&["--address", "redis://y"]));
    assert_eq!(plans[1].subcommand, toks(&["trigger", "redis"]));
    assert_eq!(plans[1].lock_file, "manifest.redis.lock");
    assert_eq!(plans[1].scoped.components.len(), 1);
    assert_eq!(plans[1].scoped.components[0].id, "c2");
}

#[test]
fn plan_launches_fails_on_malformed_trigger() {
    let mut d = sample();
    d.triggers.push(Trigger {
        id: s("bad"),
        trigger_type: s(""),
        trigger_config: Value::Obj(vec![(s("type"), Leaf::Str(s("redis")))]),
    });
    assert!(plan_launches(&d, &Vec::new()).is_err());
}

#[test]
fn plan_launches_empty_descriptor() {
    let d = Descriptor { components: Vec::new(), triggers: Vec::new(), metadata: Vec::new() };
    let plans = plan_launches(&d, &Vec::new()).unwrap();
    assert!(plans.is_empty());
}
