//! The manifest partitioner: restrict a composite descriptor to one
//! trigger type. Triggers of other types are dropped, surviving triggers
//! have their concrete kind promoted out of their configuration,
//! components referenced by no surviving trigger are removed, and the
//! per-type metadata defaults are demultiplexed.

use vstd::prelude::*;
use crate::descriptor::{
    Component, ComponentModel, Descriptor, DescriptorModel, Leaf, LeafModel, Trigger,
    TriggerModel, Value, ValueModel, component_models, entries_without, keys_distinct,
    leaf_entries_map, lemma_leaf_map_contains, lemma_leaf_map_index, lemma_leaf_map_push,
    lemma_meta_map_push, meta_entries_map, meta_get, meta_remove, meta_without, obj_get,
    obj_remove, trigger_models, value_like,
};
use crate::strutil::{has_prefix, str_eq, str_starts_with, strip_prefix};

verus! {

/// A fatal input-format violation found while partitioning.
#[derive(Debug)]
pub enum MalformedDescriptor {
    /// A composite-form trigger carries no string `type` key; the
    /// offending trigger is identified by its id.
    MissingTriggerType { trigger_id: String },
    /// A trigger of the requested type carries no string `component` key;
    /// the offending trigger is identified by its id.
    MissingComponentRef { trigger_id: String },
    /// The descriptor has triggers but no `trigger` metadata object.
    MissingTriggerMetadata,
}

/// The concrete kind a composite-form trigger declares: the string under
/// its configuration's `type` key, if any.
pub open spec fn trigger_type_tag(t: TriggerModel) -> Option<Seq<char>> {
    match t.trigger_config {
        ValueModel::Obj(m) => if m.contains_key("type"@) {
            match m["type"@] {
                LeafModel::Str(s) => Some(s),
                LeafModel::Raw(_) => None,
            }
        } else {
            None
        },
        ValueModel::Leaf(_) => None,
    }
}

/// Some trigger of `ts` declares no concrete kind: a fatal input-format
/// violation in a composite descriptor.
pub open spec fn missing_type_tag(ts: Seq<TriggerModel>) -> bool {
    exists|j: int| 0 <= j < ts.len() && trigger_type_tag(#[trigger] ts[j]) is None
}

/// A trigger belongs to `tt`: its configuration is an object whose `type`
/// key holds the string `tt`.
pub open spec fn trigger_matches(t: TriggerModel, tt: Seq<char>) -> bool {
    match t.trigger_config {
        ValueModel::Obj(m) => m.contains_key("type"@) && (match m["type"@] {
            LeafModel::Str(s) => s == tt,
            LeafModel::Raw(_) => false,
        }),
        ValueModel::Leaf(_) => false,
    }
}

/// The component id a trigger binds to: the string under its
/// configuration's `component` key, if any.
pub open spec fn component_ref(t: TriggerModel) -> Option<Seq<char>> {
    match t.trigger_config {
        ValueModel::Obj(m) => if m.contains_key("component"@) {
            match m["component"@] {
                LeafModel::Str(s) => Some(s),
                LeafModel::Raw(_) => None,
            }
        } else {
            None
        },
        ValueModel::Leaf(_) => None,
    }
}

/// The triggers of `ts` that belong to `tt`, in order.
pub open spec fn survivors(ts: Seq<TriggerModel>, tt: Seq<char>) -> Seq<TriggerModel>
    decreases ts.len(),
{
    if ts.len() == 0 {
        Seq::empty()
    } else {
        let p = survivors(ts.drop_last(), tt);
        if trigger_matches(ts.last(), tt) {
            p.push(ts.last())
        } else {
            p
        }
    }
}

/// A surviving trigger, rescoped: the concrete kind is promoted to the
/// `trigger_type` field and removed from the configuration body.
pub open spec fn scoped_trigger(t: TriggerModel, tt: Seq<char>) -> TriggerModel {
    TriggerModel {
        id: t.id,
        trigger_type: tt,
        trigger_config: (match t.trigger_config {
            ValueModel::Obj(m) => ValueModel::Obj(m.remove("type"@)),
            ValueModel::Leaf(l) => ValueModel::Leaf(l),
        }),
    }
}

/// The scoped trigger list: every survivor, rescoped, in order.
pub open spec fn scoped_triggers(ts: Seq<TriggerModel>, tt: Seq<char>) -> Seq<TriggerModel>
    decreases ts.len(),
{
    if ts.len() == 0 {
        Seq::empty()
    } else {
        let p = scoped_triggers(ts.drop_last(), tt);
        if trigger_matches(ts.last(), tt) {
            p.push(scoped_trigger(ts.last(), tt))
        } else {
            p
        }
    }
}

/// Some trigger of `ts` binds to the component id.
pub open spec fn references(ts: Seq<TriggerModel>, id: Seq<char>) -> bool {
    exists|j: int| 0 <= j < ts.len() && component_ref(ts[j]) == Some(id)
}

/// The components referenced by at least one trigger of `sts`, in order.
pub open spec fn scoped_components(
    cs: Seq<ComponentModel>,
    sts: Seq<TriggerModel>,
) -> Seq<ComponentModel>
    decreases cs.len(),
{
    if cs.len() == 0 {
        Seq::empty()
    } else {
        let p = scoped_components(cs.drop_last(), sts);
        if references(sts, cs.last().id) {
            p.push(cs.last())
        } else {
            p
        }
    }
}

/// The metadata-key prefix of a trigger type: `<type>-`.
pub open spec fn meta_prefix(tt: Seq<char>) -> Seq<char> {
    tt + "-"@
}

/// The demultiplexed `trigger` metadata object for `tt`: every key of `m`
/// carrying the `<tt>-` prefix reappears with the prefix stripped and the
/// same value, every other key is dropped, and `type` holds `tt`.
pub open spec fn demux(m: Map<Seq<char>, LeafModel>, tt: Seq<char>) -> Map<Seq<char>, LeafModel> {
    Map::new(
        |k: Seq<char>| k == "type"@ || m.contains_key(meta_prefix(tt) + k),
        |k: Seq<char>|
            if k == "type"@ {
                LeafModel::Str(tt)
            } else {
                m[meta_prefix(tt) + k]
            },
    )
}

/// The `trigger` metadata object, if present and an object.
pub open spec fn meta_trigger_obj(md: Map<Seq<char>, ValueModel>) -> Option<
    Map<Seq<char>, LeafModel>,
> {
    if md.contains_key("trigger"@) {
        match md["trigger"@] {
            ValueModel::Obj(m) => Some(m),
            ValueModel::Leaf(_) => None,
        }
    } else {
        None
    }
}

/// Some trigger of `ts` belongs to `tt` but names no component.
pub open spec fn missing_component_ref(ts: Seq<TriggerModel>, tt: Seq<char>) -> bool {
    exists|j: int|
        0 <= j < ts.len() && trigger_matches(ts[j], tt) && component_ref(ts[j]) is None
}

/// Partitioning fails exactly when some trigger declares no concrete
/// kind, the `trigger` metadata object is absent, or a trigger of the
/// requested type names no component.
pub open spec fn partition_fails(d: DescriptorModel, tt: Seq<char>) -> bool {
    missing_type_tag(d.triggers) || meta_trigger_obj(d.metadata) is None
        || missing_component_ref(d.triggers, tt)
}

/// What partitioning returns on success.
pub open spec fn partition_model(d: DescriptorModel, tt: Seq<char>) -> DescriptorModel {
    DescriptorModel {
        components: scoped_components(d.components, survivors(d.triggers, tt)),
        triggers: scoped_triggers(d.triggers, tt),
        metadata: d.metadata.insert(
            "trigger"@,
            ValueModel::Obj(
                demux(
                    (match meta_trigger_obj(d.metadata) {
                        Some(m) => m,
                        None => Map::empty(),
                    }),
                    tt,
                ),
            ),
        ),
    }
}

/// The distinguished keys the partitioner reads are pairwise distinct.
pub proof fn lemma_keys_differ()
    ensures
        "type"@ != "component"@,
        "type"@ != "trigger"@,
        "component"@ != "trigger"@,
{
    reveal_strlit("type");
    reveal_strlit("component");
    reveal_strlit("trigger");
    assert("type"@.len() == 4);
    assert("component"@.len() == 9);
    assert("trigger"@.len() == 7);
}

/// Concatenation with a fixed left part is injective.
pub proof fn lemma_concat_inj(p: Seq<char>, a: Seq<char>, b: Seq<char>)
    requires
        p + a == p + b,
    ensures
        a == b,
{
    assert((p + a).len() == p.len() + a.len());
    assert((p + b).len() == p.len() + b.len());
    assert((p + a).len() == (p + b).len());
    assert(a.len() == b.len());
    assert forall|i: int| 0 <= i < a.len() implies a[i] == b[i] by {
        assert(0 <= i < b.len());
        assert((p + a)[p.len() + i] == a[i]);
        assert((p + b)[p.len() + i] == b[i]);
    }
    assert(a =~= b);
}

/// A concatenation starts with its left part, and stripping it returns
/// the right part; conversely a string is its prefix plus the rest.
pub proof fn lemma_prefix_concat(p: Seq<char>, k: Seq<char>)
    ensures
        has_prefix(p + k, p),
        (p + k).skip(p.len() as int) == k,
{
    assert((p + k).subrange(0, p.len() as int) =~= p);
    assert((p + k).skip(p.len() as int) =~= k);
}

pub proof fn lemma_prefix_split(s: Seq<char>, p: Seq<char>)
    requires
        has_prefix(s, p),
    ensures
        p + s.skip(p.len() as int) == s,
{
    assert(p + s.skip(p.len() as int) =~= s);
}

/// Rescoping keeps the component binding: only the `type` key is removed.
pub proof fn lemma_scoped_preserves_ref(t: TriggerModel, tt: Seq<char>)
    ensures
        component_ref(scoped_trigger(t, tt)) == component_ref(t),
{
    lemma_keys_differ();
}

/// The concrete kind a trigger declares, if its configuration names one.
pub fn trigger_type_of<'a>(t: &'a Trigger) -> (r: Option<&'a String>)
    requires
        t.wf(),
    ensures
        (r is Some) == (trigger_type_tag(t.model()) is Some),
        (r matches Some(s) ==> trigger_type_tag(t.model()) == Some(s@)),
{
    match &t.trigger_config {
        Value::Obj(es) => {
            match obj_get(es, "type") {
                Some(l) => {
                    match l {
                        Leaf::Str(s) => Some(s),
                        Leaf::Raw(_) => None,
                    }
                },
                None => None,
            }
        },
        Value::Leaf(_) => None,
    }
}

/// The component id a trigger binds to, if its configuration names one.
pub fn trigger_component_id<'a>(t: &'a Trigger) -> (r: Option<&'a String>)
    requires
        t.wf(),
    ensures
        (r is Some) == (component_ref(t.model()) is Some),
        (r matches Some(s) ==> component_ref(t.model()) == Some(s@)),
{
    match &t.trigger_config {
        Value::Obj(es) => {
            match obj_get(es, "component") {
                Some(l) => {
                    match l {
                        Leaf::Str(s) => Some(s),
                        Leaf::Raw(_) => None,
                    }
                },
                None => None,
            }
        },
        Value::Leaf(_) => None,
    }
}

/// Rescope one surviving trigger: promote the concrete kind into
/// `trigger_type` and drop the `type` key from the configuration body.
pub fn uncompositify(t: &Trigger, trigger_type: &str) -> (r: Trigger)
    requires
        t.wf(),
        trigger_matches(t.model(), trigger_type@),
    ensures
        r.wf(),
        r.model() == scoped_trigger(t.model(), trigger_type@),
        scoped_trigger_rel(*t, r, trigger_type@),
{
    match &t.trigger_config {
        Value::Obj(es) => {
            let cfg = obj_remove(es, "type");
            Trigger {
                id: t.id.clone(),
                trigger_type: String::from_str(trigger_type),
                trigger_config: Value::Obj(cfg),
            }
        },
        Value::Leaf(l) => {
            proof {
                assert(false);
            }
            Trigger {
                id: t.id.clone(),
                trigger_type: String::from_str(trigger_type),
                trigger_config: Value::Leaf(l.dup()),
            }
        },
    }
}

/// Is the component id bound by any trigger of the list?
pub fn is_id_present(triggers: &Vec<Trigger>, id: &str) -> (b: bool)
    requires
        forall|i: int| 0 <= i < triggers@.len() ==> (#[trigger] triggers@[i]).wf(),
    ensures
        b == references(trigger_models(triggers@), id@),
{
    let ghost ms = trigger_models(triggers@);
    let n = triggers.len();
    let mut found = false;
    let mut j: usize = 0;
    while j < n
        invariant
            n == triggers@.len(),
            ms == trigger_models(triggers@),
            ms.len() == n,
            forall|k: int| 0 <= k < n ==> ms[k] == (#[trigger] triggers@[k]).model(),
            forall|k: int| 0 <= k < n ==> (#[trigger] triggers@[k]).wf(),
            0 <= j <= n,
            found == references(ms.take(j as int), id@),
        decreases n - j,
    {
        let ghost before = references(ms.take(j as int), id@);
        let mut hit = false;
        match trigger_component_id(&triggers[j]) {
            Some(s) => {
                if str_eq(s.as_str(), id) {
                    hit = true;
                }
            },
            None => {},
        }
        assert(hit == (component_ref(ms[j as int]) == Some(id@)));
        if hit {
            found = true;
        }
        proof {
            assert(ms.take(j as int + 1).drop_last() =~= ms.take(j as int));
            assert(ms.take(j as int + 1).last() == ms[j as int]);
            if before || hit {
                if before {
                    let w = choose|w: int|
                        0 <= w < ms.take(j as int).len() && component_ref(ms.take(j as int)[w])
                            == Some(id@);
                    assert(ms.take(j as int + 1)[w] == ms.take(j as int)[w]);
                    assert(references(ms.take(j as int + 1), id@));
                } else {
                    assert(ms.take(j as int + 1)[j as int] == ms[j as int]);
                    assert(references(ms.take(j as int + 1), id@));
                }
            } else {
                assert forall|w: int| 0 <= w < ms.take(j as int + 1).len() implies #[trigger] component_ref(
                    ms.take(j as int + 1)[w],
                ) != Some(id@) by {
                    if w < j {
                        assert(ms.take(j as int)[w] == ms.take(j as int + 1)[w]);
                    }
                }
            }
        }
        j = j + 1;
    }
    assert(ms.take(n as int) =~= ms);
    found
}

/// The map built from the entries whose key carries `pre`, keyed by the
/// stripped remainder of the key.
pub open spec fn strip_map(es: Seq<(String, Leaf)>, pre: Seq<char>) -> Map<Seq<char>, LeafModel>
    decreases es.len(),
{
    if es.len() == 0 {
        Map::empty()
    } else {
        let m = strip_map(es.drop_last(), pre);
        if has_prefix(es.last().0@, pre) {
            m.insert(es.last().0@.skip(pre.len() as int), es.last().1.model())
        } else {
            m
        }
    }
}

pub proof fn lemma_strip_map_contains(es: Seq<(String, Leaf)>, pre: Seq<char>, k: Seq<char>)
    ensures
        strip_map(es, pre).contains_key(k) <==> exists|j: int|
            0 <= j < es.len() && has_prefix((#[trigger] es[j]).0@, pre) && es[j].0@.skip(
                pre.len() as int,
            ) == k,
    decreases es.len(),
{
    if es.len() > 0 {
        lemma_strip_map_contains(es.drop_last(), pre, k);
        let stripped_last = es.last().0@.skip(pre.len() as int);
        if strip_map(es, pre).contains_key(k) {
            if !(has_prefix(es.last().0@, pre) && stripped_last == k) {
                let j = choose|j: int|
                    0 <= j < es.drop_last().len() && has_prefix(
                        (#[trigger] es.drop_last()[j]).0@,
                        pre,
                    ) && es.drop_last()[j].0@.skip(pre.len() as int) == k;
                assert(es[j] == es.drop_last()[j]);
            }
        }
        if exists|j: int|
            0 <= j < es.len() && has_prefix((#[trigger] es[j]).0@, pre) && es[j].0@.skip(
                pre.len() as int,
            ) == k {
            let j = choose|j: int|
                0 <= j < es.len() && has_prefix((#[trigger] es[j]).0@, pre) && es[j].0@.skip(
                    pre.len() as int,
                ) == k;
            if j < es.len() - 1 {
                assert(es.drop_last()[j] == es[j]);
                assert(strip_map(es.drop_last(), pre).contains_key(k));
            }
        }
    }
}

pub proof fn lemma_strip_map_value(es: Seq<(String, Leaf)>, pre: Seq<char>, j: int)
    requires
        keys_distinct(es),
        0 <= j < es.len(),
        has_prefix(es[j].0@, pre),
    ensures
        strip_map(es, pre).contains_key(es[j].0@.skip(pre.len() as int)),
        strip_map(es, pre)[es[j].0@.skip(pre.len() as int)] == es[j].1.model(),
    decreases es.len(),
{
    let k = es[j].0@.skip(pre.len() as int);
    lemma_strip_map_contains(es, pre, k);
    if j < es.len() - 1 {
        assert(es.drop_last()[j] == es[j]);
        lemma_strip_map_value(es.drop_last(), pre, j);
        if has_prefix(es.last().0@, pre) {
            if es.last().0@.skip(pre.len() as int) == k {
                lemma_prefix_split(es.last().0@, pre);
                lemma_prefix_split(es[j].0@, pre);
                assert(es.last().0@ == pre + k);
                assert(es[j].0@ == pre + k);
                assert(false);
            }
        }
    }
}

/// The entries whose key carries `pre`, in order, each as the stripped
/// key and the untouched value.
pub open spec fn strip_seq(es: Seq<(String, Leaf)>, pre: Seq<char>) -> Seq<(Seq<char>, Leaf)>
    decreases es.len(),
{
    if es.len() == 0 {
        Seq::empty()
    } else {
        let p = strip_seq(es.drop_last(), pre);
        if has_prefix(es.last().0@, pre) {
            p.push((es.last().0@.skip(pre.len() as int), es.last().1))
        } else {
            p
        }
    }
}

/// A stripped entry list with every entry under `key` removed, order and
/// remaining entries untouched.
pub open spec fn seq_without_key(es: Seq<(Seq<char>, Leaf)>, key: Seq<char>) -> Seq<
    (Seq<char>, Leaf),
>
    decreases es.len(),
{
    if es.len() == 0 {
        Seq::empty()
    } else {
        let p = seq_without_key(es.drop_last(), key);
        if es.last().0 == key {
            p
        } else {
            p.push(es.last())
        }
    }
}

/// The demultiplexed object `ne`, entry for entry: first the `<tt>-`
/// prefixed entries of `tobj` with the prefix stripped, in order and with
/// their original values, minus any stripped `type` key; then `type`
/// holding `tt`, last.
pub open spec fn demuxed_entries_rel(
    ne: Seq<(String, Leaf)>,
    tobj: Seq<(String, Leaf)>,
    tt: Seq<char>,
) -> bool {
    let dem = seq_without_key(strip_seq(tobj, meta_prefix(tt)), "type"@);
    &&& ne.len() == dem.len() + 1
    &&& (forall|i: int|
        0 <= i < dem.len() ==> (#[trigger] ne[i]).0@ == dem[i].0 && ne[i].1 == dem[i].1)
    &&& ne[ne.len() - 1].0@ == "type"@
    &&& ne[ne.len() - 1].1.model() == LeafModel::Str(tt)
}

/// Removing a key preserves an entry-for-entry correspondence between an
/// entry list and a stripped pair list.
pub proof fn lemma_without_corresponds(
    es: Seq<(String, Leaf)>,
    vs: Seq<(Seq<char>, Leaf)>,
    key: Seq<char>,
)
    requires
        es.len() == vs.len(),
        forall|i: int| 0 <= i < es.len() ==> (#[trigger] es[i]).0@ == vs[i].0 && es[i].1
            == vs[i].1,
    ensures
        entries_without(es, key).len() == seq_without_key(vs, key).len(),
        forall|i: int|
            0 <= i < entries_without(es, key).len() ==> (#[trigger] entries_without(es, key)[
                i
            ]).0@ == seq_without_key(vs, key)[i].0 && entries_without(es, key)[i].1
                == seq_without_key(vs, key)[i].1,
    decreases es.len(),
{
    if es.len() > 0 {
        assert forall|i: int| 0 <= i < es.drop_last().len() implies (
        #[trigger] es.drop_last()[i]).0@ == vs.drop_last()[i].0 && es.drop_last()[i].1
            == vs.drop_last()[i].1 by {
            assert(es.drop_last()[i] == es[i]);
            assert(vs.drop_last()[i] == vs[i]);
        }
        lemma_without_corresponds(es.drop_last(), vs.drop_last(), key);
        assert(es[es.len() - 1] == es.last());
        assert(vs[vs.len() - 1] == vs.last());
        assert(es.last().0@ == vs.last().0);
        let pe = entries_without(es.drop_last(), key);
        let pv = seq_without_key(vs.drop_last(), key);
        if es.last().0@ != key {
            assert(entries_without(es, key) == pe.push(es.last()));
            assert(seq_without_key(vs, key) == pv.push(vs.last()));
            assert forall|i: int| 0 <= i < entries_without(es, key).len() implies (
            #[trigger] entries_without(es, key)[i]).0@ == seq_without_key(vs, key)[i].0
                && entries_without(es, key)[i].1 == seq_without_key(vs, key)[i].1 by {
                if i < pe.len() {
                    assert(entries_without(es, key)[i] == pe[i]);
                    assert(seq_without_key(vs, key)[i] == pv[i]);
                } else {
                    assert(entries_without(es, key)[i] == es.last());
                    assert(seq_without_key(vs, key)[i] == vs.last());
                }
            }
        }
    }
}

/// Build the demultiplexed `trigger` metadata object for one trigger
/// type: strip the `<type>-` prefix off matching keys, drop the rest, and
/// set `type` to the trigger type.
pub fn demux_entries(tobj: &Vec<(String, Leaf)>, trigger_type: &str) -> (r: Vec<(String, Leaf)>)
    requires
        keys_distinct(tobj@),
    ensures
        keys_distinct(r@),
        leaf_entries_map(r@) == demux(leaf_entries_map(tobj@), trigger_type@),
        demuxed_entries_rel(r@, tobj@, trigger_type@),
{
    let ghost tt = trigger_type@;
    let ghost m = leaf_entries_map(tobj@);
    let pre = String::from_str(trigger_type).concat("-");
    assert(pre@ == meta_prefix(tt));
    let mut out: Vec<(String, Leaf)> = Vec::new();
    let n = tobj.len();
    let mut i: usize = 0;
    while i < n
        invariant
            n == tobj@.len(),
            keys_distinct(tobj@),
            pre@ == meta_prefix(tt),
            0 <= i <= n,
            keys_distinct(out@),
            leaf_entries_map(out@) == strip_map(tobj@.take(i as int), pre@),
            out@.len() == strip_seq(tobj@.take(i as int), pre@).len(),
            forall|a: int|
                0 <= a < out@.len() ==> (#[trigger] out@[a]).0@ == strip_seq(
                    tobj@.take(i as int),
                    pre@,
                )[a].0 && out@[a].1 == strip_seq(tobj@.take(i as int), pre@)[a].1,
            forall|a: int|
                0 <= a < out@.len() ==> exists|j: int|
                    0 <= j < i && has_prefix((#[trigger] tobj@[j]).0@, pre@) && (
                    #[trigger] out@[a]).0@ == tobj@[j].0@.skip(pre@.len() as int),
        decreases n - i,
    {
        let ghost prefix_seq = tobj@.take(i as int);
        assert(tobj@.take(i as int + 1).drop_last() =~= prefix_seq);
        assert(tobj@.take(i as int + 1).last() == tobj@[i as int]);
        let ghost stripped = strip_seq(prefix_seq, pre@);
        if str_starts_with(tobj[i].0.as_str(), pre.as_str()) {
            let sk = strip_prefix(tobj[i].0.as_str(), pre.as_str());
            assert(sk@ =~= tobj@[i as int].0@.skip(pre@.len() as int));
            let ghost old_out = out@;
            proof {
                assert forall|a: int| 0 <= a < old_out.len() implies (#[trigger] old_out[a]).0@
                    != sk@ by {
                    if old_out[a].0@ == sk@ {
                        let j = choose|j: int|
                            0 <= j < i && has_prefix((#[trigger] tobj@[j]).0@, pre@)
                                && old_out[a].0@ == tobj@[j].0@.skip(pre@.len() as int);
                        lemma_prefix_split(tobj@[j].0@, pre@);
                        lemma_prefix_split(tobj@[i as int].0@, pre@);
                        assert(tobj@[j].0@ == pre@ + sk@);
                        assert(tobj@[i as int].0@ == pre@ + sk@);
                        assert(false);
                    }
                }
            }
            let e = (sk, tobj[i].1.dup());
            proof {
                lemma_leaf_map_push(old_out, e);
            }
            out.push(e);
            assert(out@ =~= old_out.push(e));
            assert(leaf_entries_map(out@) =~= strip_map(tobj@.take(i as int + 1), pre@));
            assert(strip_seq(tobj@.take(i as int + 1), pre@) =~= stripped.push(
                (tobj@[i as int].0@.skip(pre@.len() as int), tobj@[i as int].1),
            ));
            assert forall|a: int| 0 <= a < out@.len() implies (#[trigger] out@[a]).0@
                == strip_seq(tobj@.take(i as int + 1), pre@)[a].0 && out@[a].1 == strip_seq(
                tobj@.take(i as int + 1),
                pre@,
            )[a].1 by {
                if a < old_out.len() {
                    assert(out@[a] == old_out[a]);
                    assert(strip_seq(tobj@.take(i as int + 1), pre@)[a] == stripped[a]);
                } else {
                    assert(out@[a] == e);
                }
            }
        } else {
            assert(leaf_entries_map(out@) =~= strip_map(tobj@.take(i as int + 1), pre@));
            assert(strip_seq(tobj@.take(i as int + 1), pre@) =~= stripped);
        }
        i = i + 1;
    }
    assert(tobj@.take(n as int) =~= tobj@);
    let ghost full = strip_map(tobj@, pre@);
    proof {
        lemma_without_corresponds(out@, strip_seq(tobj@, pre@), "type"@);
    }
    let cleaned = obj_remove(&out, "type");
    let mut result = cleaned;
    let ghost cleaned_seq = result@;
    let e = (String::from_str("type"), Leaf::Str(String::from_str(trigger_type)));
    proof {
        lemma_leaf_map_push(cleaned_seq, e);
    }
    result.push(e);
    assert(result@ =~= cleaned_seq.push(e));
    assert(leaf_entries_map(result@) == full.remove("type"@).insert("type"@, LeafModel::Str(tt)));
    proof {
        let dem = seq_without_key(strip_seq(tobj@, pre@), "type"@);
        assert(cleaned_seq == entries_without(out@, "type"@));
        assert forall|i2: int| 0 <= i2 < dem.len() implies (#[trigger] result@[i2]).0@
            == dem[i2].0 && result@[i2].1 == dem[i2].1 by {
            assert(result@[i2] == cleaned_seq[i2]);
        }
        assert(result@[result@.len() - 1] == e);
        assert(demuxed_entries_rel(result@, tobj@, tt));
    }
    proof {
        let lhs = leaf_entries_map(result@);
        let rhs = demux(m, tt);
        assert forall|k: Seq<char>| lhs.contains_key(k) <==> rhs.contains_key(k) by {
            if k == "type"@ {
                assert(lhs.contains_key(k));
                assert(rhs.contains_key(k));
            } else {
                lemma_strip_map_contains(tobj@, pre@, k);
                lemma_leaf_map_contains(tobj@, meta_prefix(tt) + k);
                if full.contains_key(k) {
                    let j = choose|j: int|
                        0 <= j < tobj@.len() && has_prefix((#[trigger] tobj@[j]).0@, pre@)
                            && tobj@[j].0@.skip(pre@.len() as int) == k;
                    lemma_prefix_split(tobj@[j].0@, pre@);
                    assert(tobj@[j].0@ == meta_prefix(tt) + k);
                    assert(rhs.contains_key(k));
                }
                if rhs.contains_key(k) {
                    let j = choose|j: int|
                        0 <= j < tobj@.len() && (#[trigger] tobj@[j]).0@ == meta_prefix(tt) + k;
                    lemma_prefix_concat(meta_prefix(tt), k);
                    assert(has_prefix(tobj@[j].0@, pre@));
                    assert(tobj@[j].0@.skip(pre@.len() as int) == k);
                    assert(full.contains_key(k));
                }
            }
        }
        assert forall|k: Seq<char>| lhs.contains_key(k) implies lhs[k] == rhs[k] by {
            if k == "type"@ {
                assert(lhs[k] == LeafModel::Str(tt));
                assert(rhs[k] == LeafModel::Str(tt));
            } else {
                lemma_strip_map_contains(tobj@, pre@, k);
                let j = choose|j: int|
                    0 <= j < tobj@.len() && has_prefix((#[trigger] tobj@[j]).0@, pre@)
                        && tobj@[j].0@.skip(pre@.len() as int) == k;
                lemma_strip_map_value(tobj@, pre@, j);
                lemma_leaf_map_index(tobj@, j);
                lemma_prefix_split(tobj@[j].0@, pre@);
                assert(tobj@[j].0@ == meta_prefix(tt) + k);
                assert(lhs[k] == tobj@[j].1.model());
                assert(rhs[k] == tobj@[j].1.model());
            }
        }
        assert(lhs =~= rhs);
    }
    result
}

/// Appending a trigger extends what is referenced by exactly its binding.
pub proof fn lemma_references_push(p: Seq<TriggerModel>, x: TriggerModel, id: Seq<char>)
    ensures
        references(p.push(x), id) == (references(p, id) || component_ref(x) == Some(id)),
{
    if references(p, id) {
        let j = choose|j: int| 0 <= j < p.len() && component_ref(p[j]) == Some(id);
        assert(p.push(x)[j] == p[j]);
        assert(references(p.push(x), id));
    }
    if component_ref(x) == Some(id) {
        assert(p.push(x)[p.len() as int] == x);
        assert(references(p.push(x), id));
    }
    if references(p.push(x), id) {
        let j = choose|j: int| 0 <= j < p.push(x).len() && component_ref(p.push(x)[j]) == Some(id);
        if j < p.len() {
            assert(p[j] == p.push(x)[j]);
            assert(references(p, id));
        } else {
            assert(p.push(x)[j] == x);
        }
    }
}

/// Rescoping the surviving triggers changes no component binding: the
/// scoped list references an id exactly when the survivors do.
pub proof fn lemma_references_scoped(ts: Seq<TriggerModel>, tt: Seq<char>, id: Seq<char>)
    ensures
        references(scoped_triggers(ts, tt), id) == references(survivors(ts, tt), id),
    decreases ts.len(),
{
    if ts.len() > 0 {
        lemma_references_scoped(ts.drop_last(), tt, id);
        if trigger_matches(ts.last(), tt) {
            lemma_scoped_preserves_ref(ts.last(), tt);
            lemma_references_push(scoped_triggers(ts.drop_last(), tt), scoped_trigger(ts.last(), tt), id);
            lemma_references_push(survivors(ts.drop_last(), tt), ts.last(), id);
        }
    }
}

/// The original triggers that belong to `tt`, in order, as values.
pub open spec fn surviving(ts: Seq<Trigger>, tt: Seq<char>) -> Seq<Trigger>
    decreases ts.len(),
{
    if ts.len() == 0 {
        Seq::empty()
    } else {
        let p = surviving(ts.drop_last(), tt);
        if trigger_matches(ts.last().model(), tt) {
            p.push(ts.last())
        } else {
            p
        }
    }
}

/// How a rescoped trigger relates to the survivor it came from: same id,
/// the requested type promoted, and the configuration entries unchanged
/// in order except that `type` is gone.
pub open spec fn scoped_trigger_rel(o: Trigger, n: Trigger, tt: Seq<char>) -> bool {
    &&& n.id == o.id
    &&& n.trigger_type@ == tt
    &&& (match (o.trigger_config, n.trigger_config) {
        (Value::Obj(a), Value::Obj(b)) => b@ == entries_without(a@, "type"@),
        _ => false,
    })
}

/// The components some trigger of `sts` references, in order, as values.
pub open spec fn referenced_components(
    cs: Seq<Component>,
    sts: Seq<TriggerModel>,
) -> Seq<Component>
    decreases cs.len(),
{
    if cs.len() == 0 {
        Seq::empty()
    } else {
        let p = referenced_components(cs.drop_last(), sts);
        if references(sts, cs.last().id@) {
            p.push(cs.last())
        } else {
            p
        }
    }
}

/// The entries of the `trigger` metadata object, where it is present and
/// an object.
pub open spec fn meta_trigger_entries(es: Seq<(String, Value)>) -> Seq<(String, Leaf)>
    decreases es.len(),
{
    if es.len() == 0 {
        Seq::empty()
    } else if es.last().0@ == "trigger"@ {
        match es.last().1 {
            Value::Obj(o) => o@,
            Value::Leaf(_) => Seq::empty(),
        }
    } else {
        meta_trigger_entries(es.drop_last())
    }
}

/// With distinct keys, the `trigger` entries come from the one entry
/// under that key.
pub proof fn lemma_meta_trigger_entries(es: Seq<(String, Value)>, i: int)
    requires
        keys_distinct(es),
        0 <= i < es.len(),
        es[i].0@ == "trigger"@,
    ensures
        meta_trigger_entries(es) == (match es[i].1 {
            Value::Obj(o) => o@,
            Value::Leaf(_) => Seq::<(String, Leaf)>::empty(),
        }),
    decreases es.len(),
{
    if i == es.len() - 1 {
        assert(es.last() == es[i]);
    } else {
        assert(es.last() == es[es.len() - 1]);
        assert(es.last().0@ != "trigger"@);
        assert(es.drop_last()[i] == es[i]);
        lemma_meta_trigger_entries(es.drop_last(), i);
    }
}

/// How the scoped metadata relates to the original: every entry except
/// `trigger` kept in order, with its key and a structurally equal value,
/// and the demultiplexed `trigger` object appended last.
pub open spec fn scoped_metadata_rel(
    old: Seq<(String, Value)>,
    new: Seq<(String, Value)>,
    tt: Seq<char>,
) -> bool {
    let kept = meta_without(old, "trigger"@);
    &&& new.len() == kept.len() + 1
    &&& (forall|i: int|
        0 <= i < kept.len() ==> (#[trigger] new[i]).0 == kept[i].0 && value_like(
            new[i].1,
            kept[i].1,
        ))
    &&& new[new.len() - 1].0@ == "trigger"@
    &&& (match new[new.len() - 1].1 {
        Value::Obj(ne) => demuxed_entries_rel(ne@, meta_trigger_entries(old), tt),
        Value::Leaf(_) => false,
    })
}

/// Partition a composite descriptor to one trigger type: keep exactly the
/// triggers whose configuration names that type, rescope them, drop the
/// components no survivor references, and demultiplex the `trigger`
/// metadata object. Fails exactly when some trigger declares no concrete
/// kind, a trigger of the type names no component, or the `trigger`
/// metadata object is absent.
pub fn partition(d: &Descriptor, trigger_type: &str) -> (r: Result<
    Descriptor,
    MalformedDescriptor,
>)
    requires
        d.wf(),
    ensures
        (r is Ok) == !partition_fails(d.model(), trigger_type@),
        (r matches Ok(s) ==> {
            &&& s.wf()
            &&& s.model() == partition_model(d.model(), trigger_type@)
            &&& s.components@ == referenced_components(
                d.components@,
                survivors(d.model().triggers, trigger_type@),
            )
            &&& s.triggers@.len() == surviving(d.triggers@, trigger_type@).len()
            &&& (forall|i: int|
                0 <= i < s.triggers@.len() ==> scoped_trigger_rel(
                    surviving(d.triggers@, trigger_type@)[i],
                    #[trigger] s.triggers@[i],
                    trigger_type@,
                ))
            &&& scoped_metadata_rel(d.metadata@, s.metadata@, trigger_type@)
        }),
        (r matches Err(e) ==> partition_fails(d.model(), trigger_type@) && (match e {
            MalformedDescriptor::MissingTriggerType { trigger_id } => exists|j: int|
                0 <= j < d.model().triggers.len() && trigger_type_tag(
                    #[trigger] d.model().triggers[j],
                ) is None && d.model().triggers[j].id == trigger_id@,
            MalformedDescriptor::MissingComponentRef { trigger_id } => exists|j: int|
                0 <= j < d.model().triggers.len() && trigger_matches(
                    #[trigger] d.model().triggers[j],
                    trigger_type@,
                ) && component_ref(d.model().triggers[j]) is None && d.model().triggers[j].id
                    == trigger_id@,
            MalformedDescriptor::MissingTriggerMetadata => meta_trigger_obj(d.model().metadata)
                is None,
        })),
{
    let ghost dm = d.model();
    let ghost tt = trigger_type@;

    // Restrict and rescope the trigger list; fail on a survivor that
    // names no component.
    let mut new_triggers: Vec<Trigger> = Vec::new();
    let n = d.triggers.len();
    let mut i: usize = 0;
    while i < n
        invariant
            d.wf(),
            dm == d.model(),
            tt == trigger_type@,
            n == d.triggers@.len(),
            dm.triggers.len() == n,
            forall|k: int| 0 <= k < n ==> dm.triggers[k] == (#[trigger] d.triggers@[k]).model(),
            0 <= i <= n,
            trigger_models(new_triggers@) == scoped_triggers(dm.triggers.take(i as int), tt),
            new_triggers@.len() == surviving(d.triggers@.take(i as int), tt).len(),
            forall|k: int|
                0 <= k < new_triggers@.len() ==> scoped_trigger_rel(
                    surviving(d.triggers@.take(i as int), tt)[k],
                    #[trigger] new_triggers@[k],
                    tt,
                ),
            forall|k: int| 0 <= k < new_triggers@.len() ==> (#[trigger] new_triggers@[k]).wf(),
            forall|j: int| 0 <= j < i ==> trigger_type_tag(#[trigger] dm.triggers[j]) is Some,
            forall|j: int|
                0 <= j < i && trigger_matches(#[trigger] dm.triggers[j], tt) ==> component_ref(
                    dm.triggers[j],
                ) is Some,
        decreases n - i,
    {
        proof {
            assert(dm.triggers.take(i as int + 1).drop_last() =~= dm.triggers.take(i as int));
            assert(dm.triggers.take(i as int + 1).last() == dm.triggers[i as int]);
            assert(d.triggers@.take(i as int + 1).drop_last() =~= d.triggers@.take(i as int));
            assert(d.triggers@.take(i as int + 1).last() == d.triggers@[i as int]);
        }
        let t = &d.triggers[i];
        assert(t.wf());
        assert(t.model() == dm.triggers[i as int]);
        let tmatch: bool;
        match trigger_type_of(t) {
            None => {
                return Err(MalformedDescriptor::MissingTriggerType { trigger_id: t.id.clone() });
            },
            Some(s) => {
                tmatch = str_eq(s.as_str(), trigger_type);
            },
        }
        assert(tmatch == trigger_matches(dm.triggers[i as int], tt));
        if tmatch {
            if trigger_component_id(t).is_none() {
                return Err(MalformedDescriptor::MissingComponentRef { trigger_id: t.id.clone() });
            }
            let nt = uncompositify(t, trigger_type);
            let ghost before = trigger_models(new_triggers@);
            let ghost before_vals = new_triggers@;
            new_triggers.push(nt);
            assert(new_triggers@ =~= before_vals.push(nt));
            assert(trigger_models(new_triggers@) =~= before.push(nt.model()));
            assert(trigger_models(new_triggers@) == scoped_triggers(
                dm.triggers.take(i as int + 1),
                tt,
            ));
            assert(surviving(d.triggers@.take(i as int + 1), tt) == surviving(
                d.triggers@.take(i as int),
                tt,
            ).push(d.triggers@[i as int]));
            assert forall|k: int| 0 <= k < new_triggers@.len() implies scoped_trigger_rel(
                surviving(d.triggers@.take(i as int + 1), tt)[k],
                #[trigger] new_triggers@[k],
                tt,
            ) by {
                if k < before_vals.len() {
                    assert(new_triggers@[k] == before_vals[k]);
                    assert(surviving(d.triggers@.take(i as int + 1), tt)[k] == surviving(
                        d.triggers@.take(i as int),
                        tt,
                    )[k]);
                } else {
                    assert(new_triggers@[k] == nt);
                    assert(surviving(d.triggers@.take(i as int + 1), tt)[k] == d.triggers@[
                        i as int
                    ]);
                    assert(scoped_trigger_rel(*t, nt, tt));
                }
            }
        } else {
            assert(trigger_models(new_triggers@) == scoped_triggers(
                dm.triggers.take(i as int + 1),
                tt,
            ));
            assert(surviving(d.triggers@.take(i as int + 1), tt) == surviving(
                d.triggers@.take(i as int),
                tt,
            ));
        }
        i = i + 1;
    }
    proof {
        assert(dm.triggers.take(n as int) =~= dm.triggers);
        assert(d.triggers@.take(n as int) =~= d.triggers@);
        assert(!missing_component_ref(dm.triggers, tt));
        assert(!missing_type_tag(dm.triggers));
    }
    let ghost sts = survivors(dm.triggers, tt);

    // Keep exactly the components a surviving trigger references.
    let mut new_components: Vec<Component> = Vec::new();
    let cn = d.components.len();
    let mut ci: usize = 0;
    while ci < cn
        invariant
            d.wf(),
            dm == d.model(),
            tt == trigger_type@,
            sts == survivors(dm.triggers, tt),
            trigger_models(new_triggers@) == scoped_triggers(dm.triggers, tt),
            new_triggers@.len() == surviving(d.triggers@, tt).len(),
            forall|k: int|
                0 <= k < new_triggers@.len() ==> scoped_trigger_rel(
                    surviving(d.triggers@, tt)[k],
                    #[trigger] new_triggers@[k],
                    tt,
                ),
            forall|k: int| 0 <= k < new_triggers@.len() ==> (#[trigger] new_triggers@[k]).wf(),
            cn == d.components@.len(),
            dm.components.len() == cn,
            forall|k: int|
                0 <= k < cn ==> dm.components[k] == (#[trigger] d.components@[k]).model(),
            0 <= ci <= cn,
            component_models(new_components@) == scoped_components(
                dm.components.take(ci as int),
                sts,
            ),
            new_components@ == referenced_components(d.components@.take(ci as int), sts),
            forall|a: int, b: int|
                0 <= a < b < new_components@.len() ==> new_components@[a].id@
                    != new_components@[b].id@,
            forall|a: int|
                0 <= a < new_components@.len() ==> exists|j: int|
                    0 <= j < ci && (#[trigger] new_components@[a]).id@ == d.components@[j].id@,
        decreases cn - ci,
    {
        proof {
            assert(dm.components.take(ci as int + 1).drop_last() =~= dm.components.take(
                ci as int,
            ));
            assert(dm.components.take(ci as int + 1).last() == dm.components[ci as int]);
            assert(d.components@.take(ci as int + 1).drop_last() =~= d.components@.take(
                ci as int,
            ));
            assert(d.components@.take(ci as int + 1).last() == d.components@[ci as int]);
        }
        let c = &d.components[ci];
        assert(c.model() == dm.components[ci as int]);
        let present = is_id_present(&new_triggers, c.id.as_str());
        proof {
            lemma_references_scoped(dm.triggers, tt, c.id@);
        }
        if present {
            let ghost before = component_models(new_components@);
            let ghost old_components = new_components@;
            proof {
                assert forall|a: int| 0 <= a < old_components.len() implies (
                #[trigger] old_components[a]).id@ != c.id@ by {
                    let j = choose|j: int|
                        0 <= j < ci && (#[trigger] old_components[a]).id@ == d.components@[j].id@;
                    assert(d.components@[j].id@ != d.components@[ci as int].id@);
                }
            }
            new_components.push(c.dup());
            assert(new_components@ =~= old_components.push(d.components@[ci as int]));
            assert(component_models(new_components@) =~= before.push(c.model()));
            assert(component_models(new_components@) == scoped_components(
                dm.components.take(ci as int + 1),
                sts,
            ));
            assert(new_components@ == referenced_components(
                d.components@.take(ci as int + 1),
                sts,
            ));
        } else {
            assert(component_models(new_components@) == scoped_components(
                dm.components.take(ci as int + 1),
                sts,
            ));
            assert(new_components@ == referenced_components(
                d.components@.take(ci as int + 1),
                sts,
            ));
        }
        ci = ci + 1;
    }
    proof {
        assert(dm.components.take(cn as int) =~= dm.components);
        assert(d.components@.take(cn as int) =~= d.components@);
    }

    // Rebuild the metadata: demultiplex the `trigger` object, pass every
    // other entry through unchanged.
    let tobj: &Vec<(String, Leaf)> = match meta_get(&d.metadata, "trigger") {
        Some(v) => {
            match v {
                Value::Obj(es) => {
                    proof {
                        assert(*v == Value::Obj(*es));
                        let mi = choose|mi: int|
                            0 <= mi < d.metadata@.len() && (#[trigger] d.metadata@[mi]).0@
                                == "trigger"@ && d.metadata@[mi].1 == *v;
                        lemma_meta_trigger_entries(d.metadata@, mi);
                        assert(meta_trigger_entries(d.metadata@) == es@);
                    }
                    es
                },
                Value::Leaf(_) => {
                    return Err(MalformedDescriptor::MissingTriggerMetadata);
                },
            }
        },
        None => {
            return Err(MalformedDescriptor::MissingTriggerMetadata);
        },
    };
    let ghost tm = leaf_entries_map(tobj@);
    proof {
        assert(dm.metadata.contains_key("trigger"@));
        assert(dm.metadata["trigger"@] == ValueModel::Obj(tm));
        assert(meta_trigger_obj(dm.metadata) == Some(tm));
        assert(meta_trigger_entries(d.metadata@) == tobj@);
    }
    let ne = demux_entries(tobj, trigger_type);
    let mut new_md = meta_remove(&d.metadata, "trigger");
    let ghost cleaned = new_md@;
    let tv = Value::Obj(ne);
    let e = (String::from_str("trigger"), tv);
    proof {
        lemma_meta_map_push(cleaned, e);
    }
    new_md.push(e);
    assert(new_md@ =~= cleaned.push(e));
    assert(meta_entries_map(new_md@) =~= dm.metadata.insert(
        "trigger"@,
        ValueModel::Obj(demux(tm, tt)),
    ));
    proof {
        let kept = meta_without(d.metadata@, "trigger"@);
        assert forall|k: int| 0 <= k < kept.len() implies (#[trigger] new_md@[k]).0 == kept[k].0
            && value_like(new_md@[k].1, kept[k].1) by {
            assert(new_md@[k] == cleaned[k]);
        }
        assert(new_md@[new_md@.len() - 1] == e);
        assert(scoped_metadata_rel(d.metadata@, new_md@, tt));
    }

    let result = Descriptor { components: new_components, triggers: new_triggers, metadata: new_md };
    proof {
        assert(result.model().components == partition_model(dm, tt).components);
        assert(result.model().triggers == partition_model(dm, tt).triggers);
        assert(result.model().metadata == partition_model(dm, tt).metadata);
        assert(result.model() == partition_model(dm, tt));
        assert(forall|k: int|
            0 <= k < new_md@.len() ==> (#[trigger] new_md@[k]).1.wf());
        assert(result.wf());
        assert(result.components@ == referenced_components(d.components@, sts));
    }
    Ok(result)
}

/// Partition determinism: partitioning is a pure function of the
/// descriptor and the trigger type. Any two results meeting `partition`'s
/// contract on the same inputs agree structurally — same component
/// values, triggers that agree entry for entry, and metadata that agrees
/// entry for entry (keys by content, object entries in the same order
/// with the same values).
pub proof fn lemma_partition_deterministic(
    d: Descriptor,
    tt: Seq<char>,
    s1: Descriptor,
    s2: Descriptor,
)
    requires
        s1.components@ == referenced_components(
            d.components@,
            survivors(trigger_models(d.triggers@), tt),
        ),
        s2.components@ == referenced_components(
            d.components@,
            survivors(trigger_models(d.triggers@), tt),
        ),
        s1.triggers@.len() == surviving(d.triggers@, tt).len(),
        s2.triggers@.len() == surviving(d.triggers@, tt).len(),
        forall|i: int|
            0 <= i < s1.triggers@.len() ==> scoped_trigger_rel(
                surviving(d.triggers@, tt)[i],
                #[trigger] s1.triggers@[i],
                tt,
            ),
        forall|i: int|
            0 <= i < s2.triggers@.len() ==> scoped_trigger_rel(
                surviving(d.triggers@, tt)[i],
                #[trigger] s2.triggers@[i],
                tt,
            ),
        scoped_metadata_rel(d.metadata@, s1.metadata@, tt),
        scoped_metadata_rel(d.metadata@, s2.metadata@, tt),
    ensures
        s1.components@ == s2.components@,
        s1.triggers@.len() == s2.triggers@.len(),
        forall|i: int|
            0 <= i < s1.triggers@.len() ==> (#[trigger] s1.triggers@[i]).id == s2.triggers@[i].id
                && s1.triggers@[i].trigger_type@ == s2.triggers@[i].trigger_type@ && (match (
                s1.triggers@[i].trigger_config,
                s2.triggers@[i].trigger_config,
            ) {
                (Value::Obj(a), Value::Obj(b)) => a@ == b@,
                _ => false,
            }),
        s1.metadata@.len() == s2.metadata@.len(),
        forall|i: int|
            0 <= i < s1.metadata@.len() - 1 ==> (#[trigger] s1.metadata@[i]).0 == s2.metadata@[
                i
            ].0 && value_like(s1.metadata@[i].1, s2.metadata@[i].1),
        s1.metadata@[s1.metadata@.len() - 1].0@ == s2.metadata@[s2.metadata@.len() - 1].0@,
        (match (
            s1.metadata@[s1.metadata@.len() - 1].1,
            s2.metadata@[s2.metadata@.len() - 1].1,
        ) {
            (Value::Obj(a), Value::Obj(b)) => {
                &&& a@.len() == b@.len()
                &&& (forall|j: int|
                    0 <= j < a@.len() - 1 ==> (#[trigger] a@[j]).0@ == b@[j].0@ && a@[j].1
                        == b@[j].1)
                &&& a@[a@.len() - 1].0@ == b@[b@.len() - 1].0@
                &&& a@[a@.len() - 1].1.model() == b@[b@.len() - 1].1.model()
            },
            _ => false,
        }),
{
}

/// Every rescoped trigger carries the requested type.
pub proof fn lemma_scoped_types(ts: Seq<TriggerModel>, tt: Seq<char>)
    ensures
        forall|i: int|
            0 <= i < scoped_triggers(ts, tt).len() ==> (#[trigger] scoped_triggers(ts, tt)[i]).trigger_type == tt,
    decreases ts.len(),
{
    if ts.len() > 0 {
        lemma_scoped_types(ts.drop_last(), tt);
    }
}

/// Partition type-disjointness: for two different trigger types, the
/// trigger lists of the two scoped descriptors share no `trigger_type`
/// value.
pub proof fn lemma_partition_type_disjoint(
    d: DescriptorModel,
    a: Seq<char>,
    b: Seq<char>,
    sa: DescriptorModel,
    sb: DescriptorModel,
)
    requires
        a != b,
        sa == partition_model(d, a),
        sb == partition_model(d, b),
    ensures
        forall|i: int, j: int|
            0 <= i < sa.triggers.len() && 0 <= j < sb.triggers.len() ==> (
            #[trigger] sa.triggers[i]).trigger_type != (#[trigger] sb.triggers[j]).trigger_type,
{
    lemma_scoped_types(d.triggers, a);
    lemma_scoped_types(d.triggers, b);
}

/// Each survivor is one of the original triggers, and belongs to the
/// requested type.
pub proof fn lemma_survivors_membership(ts: Seq<TriggerModel>, tt: Seq<char>)
    ensures
        forall|k: int|
            0 <= k < survivors(ts, tt).len() ==> ts.contains(#[trigger] survivors(ts, tt)[k])
                && trigger_matches(survivors(ts, tt)[k], tt),
    decreases ts.len(),
{
    if ts.len() > 0 {
        lemma_survivors_membership(ts.drop_last(), tt);
        let p = survivors(ts.drop_last(), tt);
        assert forall|k: int| 0 <= k < survivors(ts, tt).len() implies ts.contains(
            #[trigger] survivors(ts, tt)[k],
        ) && trigger_matches(survivors(ts, tt)[k], tt) by {
            if k < p.len() {
                assert(survivors(ts, tt)[k] == p[k]);
                assert(ts.drop_last().contains(p[k]));
                let j = choose|j: int| 0 <= j < ts.drop_last().len() && ts.drop_last()[j] == p[k];
                assert(ts[j] == p[k]);
                assert(ts.contains(p[k]));
            } else {
                assert(trigger_matches(ts.last(), tt));
                assert(survivors(ts, tt)[k] == ts.last());
                assert(ts[ts.len() - 1] == ts.last());
                assert(ts.contains(ts.last()));
            }
        }
    }
}

/// Every component kept by the partition is referenced by a survivor.
pub proof fn lemma_scoped_components_referenced(cs: Seq<ComponentModel>, sts: Seq<TriggerModel>)
    ensures
        forall|i: int|
            0 <= i < scoped_components(cs, sts).len() ==> references(
                sts,
                (#[trigger] scoped_components(cs, sts)[i]).id,
            ),
    decreases cs.len(),
{
    if cs.len() > 0 {
        lemma_scoped_components_referenced(cs.drop_last(), sts);
        let p = scoped_components(cs.drop_last(), sts);
        assert forall|i: int| 0 <= i < scoped_components(cs, sts).len() implies references(
            sts,
            (#[trigger] scoped_components(cs, sts)[i]).id,
        ) by {
            if i < p.len() {
                assert(scoped_components(cs, sts)[i] == p[i]);
            } else {
                assert(scoped_components(cs, sts)[i] == cs.last());
            }
        }
    }
}

/// Orphan removal: a component whose id no trigger of type `a` binds to
/// is absent from the descriptor scoped to `a`.
pub proof fn lemma_orphan_removal(d: DescriptorModel, a: Seq<char>, id: Seq<char>)
    requires
        forall|j: int|
            0 <= j < d.triggers.len() && component_ref(#[trigger] d.triggers[j]) == Some(id)
                ==> !trigger_matches(d.triggers[j], a),
    ensures
        forall|i: int|
            0 <= i < partition_model(d, a).components.len() ==> (#[trigger] partition_model(
                d,
                a,
            ).components[i]).id != id,
{
    let sts = survivors(d.triggers, a);
    lemma_survivors_membership(d.triggers, a);
    lemma_scoped_components_referenced(d.components, sts);
    assert forall|i: int| 0 <= i < partition_model(d, a).components.len() implies (
    #[trigger] partition_model(d, a).components[i]).id != id by {
        if partition_model(d, a).components[i].id == id {
            assert(references(sts, id));
            let k = choose|k: int| 0 <= k < sts.len() && component_ref(sts[k]) == Some(id);
            assert(d.triggers.contains(sts[k]));
            let j = choose|j: int| 0 <= j < d.triggers.len() && d.triggers[j] == sts[k];
            assert(trigger_matches(d.triggers[j], a));
            assert(component_ref(d.triggers[j]) == Some(id));
            assert(false);
        }
    }
}

} // verus!
