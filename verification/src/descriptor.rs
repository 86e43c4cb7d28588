//! The composite application descriptor, modelled with the library's own
//! types: a component list, a trigger list, and a string-keyed metadata
//! mapping. Structured values the dispatcher never inspects are carried as
//! opaque text leaves; the only shapes the dispatcher reads are string
//! values and one level of object nesting.

use vstd::prelude::*;
use crate::strutil::str_eq;

verus! {

/// A value the dispatcher may read as a string, or opaque structured text
/// it only carries through.
pub enum Leaf {
    /// A string value.
    Str(String),
    /// Any other value, serialized; the dispatcher never looks inside.
    Raw(String),
}

/// A metadata or trigger-configuration value: either an object of leaves,
/// or a single leaf.
pub enum Value {
    /// An object: a list of key/value entries with distinct keys.
    Obj(Vec<(String, Leaf)>),
    /// A non-object value.
    Leaf(Leaf),
}

/// Mathematical model of a `Leaf`.
pub enum LeafModel {
    Str(Seq<char>),
    Raw(Seq<char>),
}

/// Mathematical model of a `Value`: objects become maps from key to leaf.
pub enum ValueModel {
    Obj(Map<Seq<char>, LeafModel>),
    Leaf(LeafModel),
}

/// A component: an id, and payload the dispatcher never inspects.
pub struct Component {
    pub id: String,
    pub payload: String,
}

/// A trigger: a binding between an event-source kind and a component.
/// In composite form `trigger_type` is empty and the concrete kind lives
/// under the `type` key of `trigger_config`.
pub struct Trigger {
    pub id: String,
    pub trigger_type: String,
    pub trigger_config: Value,
}

/// The top-level descriptor.
pub struct Descriptor {
    pub components: Vec<Component>,
    pub triggers: Vec<Trigger>,
    pub metadata: Vec<(String, Value)>,
}

/// Model of a component.
pub struct ComponentModel {
    pub id: Seq<char>,
    pub payload: Seq<char>,
}

/// Model of a trigger.
pub struct TriggerModel {
    pub id: Seq<char>,
    pub trigger_type: Seq<char>,
    pub trigger_config: ValueModel,
}

/// Model of a descriptor: ordered component and trigger lists, and the
/// metadata as a mathematical map.
pub struct DescriptorModel {
    pub components: Seq<ComponentModel>,
    pub triggers: Seq<TriggerModel>,
    pub metadata: Map<Seq<char>, ValueModel>,
}

impl Leaf {
    pub open spec fn model(self) -> LeafModel {
        match self {
            Leaf::Str(s) => LeafModel::Str(s@),
            Leaf::Raw(s) => LeafModel::Raw(s@),
        }
    }

    /// Deep copy; the result is equal to the source.
    pub fn dup(&self) -> (r: Leaf)
        ensures
            r == *self,
    {
        match self {
            Leaf::Str(s) => Leaf::Str(s.clone()),
            Leaf::Raw(s) => Leaf::Raw(s.clone()),
        }
    }
}

/// The keys of a key/value entry list are pairwise distinct.
pub open spec fn keys_distinct<T>(es: Seq<(String, T)>) -> bool {
    forall|i: int, j: int| 0 <= i < j < es.len() ==> es[i].0@ != es[j].0@
}

/// Two values agree structurally: same shape, and entry-for-entry equal
/// objects. (Object entries live in a fresh vector after a copy, so this
/// is the strongest equality a copy can promise.)
pub open spec fn value_like(a: Value, b: Value) -> bool {
    match (a, b) {
        (Value::Obj(x), Value::Obj(y)) => x@ == y@,
        (Value::Leaf(x), Value::Leaf(y)) => x == y,
        _ => false,
    }
}

/// An object entry list with every entry under `key` removed, order and
/// remaining entries untouched.
pub open spec fn entries_without(es: Seq<(String, Leaf)>, key: Seq<char>) -> Seq<(String, Leaf)>
    decreases es.len(),
{
    if es.len() == 0 {
        Seq::empty()
    } else {
        let p = entries_without(es.drop_last(), key);
        if es.last().0@ == key {
            p
        } else {
            p.push(es.last())
        }
    }
}

/// A metadata entry list with every entry under `key` removed, order and
/// remaining entries untouched.
pub open spec fn meta_without(es: Seq<(String, Value)>, key: Seq<char>) -> Seq<(String, Value)>
    decreases es.len(),
{
    if es.len() == 0 {
        Seq::empty()
    } else {
        let p = meta_without(es.drop_last(), key);
        if es.last().0@ == key {
            p
        } else {
            p.push(es.last())
        }
    }
}

/// An object entry list as a map from key to modelled leaf; a later entry
/// for the same key overrides an earlier one.
pub open spec fn leaf_entries_map(es: Seq<(String, Leaf)>) -> Map<Seq<char>, LeafModel>
    decreases es.len(),
{
    if es.len() == 0 {
        Map::empty()
    } else {
        leaf_entries_map(es.drop_last()).insert(es.last().0@, es.last().1.model())
    }
}

/// A metadata entry list as a map from key to modelled value; a later
/// entry for the same key overrides an earlier one.
pub open spec fn meta_entries_map(es: Seq<(String, Value)>) -> Map<Seq<char>, ValueModel>
    decreases es.len(),
{
    if es.len() == 0 {
        Map::empty()
    } else {
        meta_entries_map(es.drop_last()).insert(es.last().0@, es.last().1.model())
    }
}

impl Value {
    pub open spec fn model(self) -> ValueModel {
        match self {
            Value::Obj(es) => ValueModel::Obj(leaf_entries_map(es@)),
            Value::Leaf(l) => ValueModel::Leaf(l.model()),
        }
    }

    /// Objects carry distinct keys.
    pub open spec fn wf(self) -> bool {
        match self {
            Value::Obj(es) => keys_distinct(es@),
            Value::Leaf(_) => true,
        }
    }

    /// Deep copy; the copy has the same shape, entries and model.
    pub fn dup(&self) -> (r: Value)
        ensures
            r.model() == self.model(),
            r.wf() == self.wf(),
            value_like(r, *self),
    {
        match self {
            Value::Leaf(l) => Value::Leaf(l.dup()),
            Value::Obj(es) => {
                let mut out: Vec<(String, Leaf)> = Vec::new();
                let mut i: usize = 0;
                while i < es.len()
                    invariant
                        0 <= i <= es.len(),
                        out@ =~= es@.take(i as int),
                    decreases es.len() - i,
                {
                    let k = es[i].0.clone();
                    let v = es[i].1.dup();
                    out.push((k, v));
                    assert(out@ =~= es@.take(i as int + 1));
                    i = i + 1;
                }
                assert(out@ =~= es@);
                Value::Obj(out)
            },
        }
    }
}

impl Component {
    pub open spec fn model(self) -> ComponentModel {
        ComponentModel { id: self.id@, payload: self.payload@ }
    }

    /// Deep copy; the result is equal to the source.
    pub fn dup(&self) -> (r: Component)
        ensures
            r == *self,
    {
        Component { id: self.id.clone(), payload: self.payload.clone() }
    }
}

impl Trigger {
    pub open spec fn model(self) -> TriggerModel {
        TriggerModel {
            id: self.id@,
            trigger_type: self.trigger_type@,
            trigger_config: self.trigger_config.model(),
        }
    }

    pub open spec fn wf(self) -> bool {
        self.trigger_config.wf()
    }
}

/// The models of a component list, in order.
pub open spec fn component_models(cs: Seq<Component>) -> Seq<ComponentModel> {
    cs.map_values(|c: Component| c.model())
}

/// The models of a trigger list, in order.
pub open spec fn trigger_models(ts: Seq<Trigger>) -> Seq<TriggerModel> {
    ts.map_values(|t: Trigger| t.model())
}

impl Descriptor {
    pub open spec fn model(self) -> DescriptorModel {
        DescriptorModel {
            components: component_models(self.components@),
            triggers: trigger_models(self.triggers@),
            metadata: meta_entries_map(self.metadata@),
        }
    }

    /// Well-formedness: distinct component ids, distinct metadata keys,
    /// and every object in reach of the dispatcher has distinct keys.
    pub open spec fn wf(self) -> bool {
        &&& (forall|i: int, j: int|
            0 <= i < j < self.components@.len() ==> self.components@[i].id@
                != self.components@[j].id@)
        &&& keys_distinct(self.metadata@)
        &&& (forall|i: int| 0 <= i < self.triggers@.len() ==> (#[trigger] self.triggers@[i]).wf())
        &&& (forall|i: int|
            0 <= i < self.metadata@.len() ==> (#[trigger] self.metadata@[i]).1.wf())
    }
}

/// An object entry list and its map model agree on the keys present.
pub proof fn lemma_leaf_map_contains(es: Seq<(String, Leaf)>, k: Seq<char>)
    ensures
        leaf_entries_map(es).contains_key(k) <==> exists|i: int| 0 <= i < es.len() && es[i].0@
            == k,
    decreases es.len(),
{
    if es.len() > 0 {
        lemma_leaf_map_contains(es.drop_last(), k);
        if leaf_entries_map(es).contains_key(k) && es.last().0@ != k {
            let i = choose|i: int| 0 <= i < es.drop_last().len() && es.drop_last()[i].0@ == k;
            assert(es[i].0@ == k);
        }
        if exists|i: int| 0 <= i < es.len() && es[i].0@ == k {
            let i = choose|i: int| 0 <= i < es.len() && es[i].0@ == k;
            if i < es.len() - 1 {
                assert(es.drop_last()[i].0@ == k);
            }
        }
    }
}

/// With distinct keys, the map value at an entry's key is that entry's
/// modelled leaf.
pub proof fn lemma_leaf_map_index(es: Seq<(String, Leaf)>, i: int)
    requires
        keys_distinct(es),
        0 <= i < es.len(),
    ensures
        leaf_entries_map(es).contains_key(es[i].0@),
        leaf_entries_map(es)[es[i].0@] == es[i].1.model(),
    decreases es.len(),
{
    lemma_leaf_map_contains(es, es[i].0@);
    if i < es.len() - 1 {
        assert(es.drop_last()[i] == es[i]);
        lemma_leaf_map_index(es.drop_last(), i);
        assert(es.last().0@ != es[i].0@);
    }
}

/// Appending an object entry inserts its key into the map model.
pub proof fn lemma_leaf_map_push(es: Seq<(String, Leaf)>, e: (String, Leaf))
    ensures
        leaf_entries_map(es.push(e)) == leaf_entries_map(es).insert(e.0@, e.1.model()),
{
    assert(es.push(e).drop_last() =~= es);
    assert(es.push(e).last() == e);
}

/// A metadata entry list and its map model agree on the keys present.
pub proof fn lemma_meta_map_contains(es: Seq<(String, Value)>, k: Seq<char>)
    ensures
        meta_entries_map(es).contains_key(k) <==> exists|i: int| 0 <= i < es.len() && es[i].0@
            == k,
    decreases es.len(),
{
    if es.len() > 0 {
        lemma_meta_map_contains(es.drop_last(), k);
        if meta_entries_map(es).contains_key(k) && es.last().0@ != k {
            let i = choose|i: int| 0 <= i < es.drop_last().len() && es.drop_last()[i].0@ == k;
            assert(es[i].0@ == k);
        }
        if exists|i: int| 0 <= i < es.len() && es[i].0@ == k {
            let i = choose|i: int| 0 <= i < es.len() && es[i].0@ == k;
            if i < es.len() - 1 {
                assert(es.drop_last()[i].0@ == k);
            }
        }
    }
}

/// With distinct keys, the map value at an entry's key is that entry's
/// modelled value.
pub proof fn lemma_meta_map_index(es: Seq<(String, Value)>, i: int)
    requires
        keys_distinct(es),
        0 <= i < es.len(),
    ensures
        meta_entries_map(es).contains_key(es[i].0@),
        meta_entries_map(es)[es[i].0@] == es[i].1.model(),
    decreases es.len(),
{
    lemma_meta_map_contains(es, es[i].0@);
    if i < es.len() - 1 {
        assert(es.drop_last()[i] == es[i]);
        lemma_meta_map_index(es.drop_last(), i);
        assert(es.last().0@ != es[i].0@);
    }
}

/// Appending a metadata entry inserts its key into the map model.
pub proof fn lemma_meta_map_push(es: Seq<(String, Value)>, e: (String, Value))
    ensures
        meta_entries_map(es.push(e)) == meta_entries_map(es).insert(e.0@, e.1.model()),
{
    assert(es.push(e).drop_last() =~= es);
    assert(es.push(e).last() == e);
}

/// Look a key up in an object entry list.
pub fn obj_get<'a>(es: &'a Vec<(String, Leaf)>, key: &str) -> (r: Option<&'a Leaf>)
    requires
        keys_distinct(es@),
    ensures
        (r is Some) == leaf_entries_map(es@).contains_key(key@),
        (r matches Some(l) ==> l.model() == leaf_entries_map(es@)[key@]),
{
    proof {
        lemma_leaf_map_contains(es@, key@);
    }
    let n = es.len();
    let mut i: usize = 0;
    while i < n
        invariant
            n == es@.len(),
            keys_distinct(es@),
            0 <= i <= n,
            forall|j: int| 0 <= j < i ==> es@[j].0@ != key@,
        decreases n - i,
    {
        if str_eq(es[i].0.as_str(), key) {
            proof {
                lemma_leaf_map_index(es@, i as int);
            }
            return Some(&es[i].1);
        }
        i = i + 1;
    }
    None
}

/// Look a key up in a metadata entry list.
pub fn meta_get<'a>(es: &'a Vec<(String, Value)>, key: &str) -> (r: Option<&'a Value>)
    requires
        keys_distinct(es@),
    ensures
        (r is Some) == meta_entries_map(es@).contains_key(key@),
        (r matches Some(v) ==> v.model() == meta_entries_map(es@)[key@]),
        (r matches Some(v) ==> exists|i: int|
            0 <= i < es@.len() && (#[trigger] es@[i]).0@ == key@ && *v == es@[i].1),
{
    proof {
        lemma_meta_map_contains(es@, key@);
    }
    let n = es.len();
    let mut i: usize = 0;
    while i < n
        invariant
            n == es@.len(),
            keys_distinct(es@),
            0 <= i <= n,
            forall|j: int| 0 <= j < i ==> es@[j].0@ != key@,
        decreases n - i,
    {
        if str_eq(es[i].0.as_str(), key) {
            proof {
                lemma_meta_map_index(es@, i as int);
            }
            return Some(&es[i].1);
        }
        i = i + 1;
    }
    None
}

/// A fresh copy of an object entry list with every entry under `key`
/// removed; in the model, the key is removed from the map.
pub fn obj_remove(es: &Vec<(String, Leaf)>, key: &str) -> (r: Vec<(String, Leaf)>)
    requires
        keys_distinct(es@),
    ensures
        keys_distinct(r@),
        leaf_entries_map(r@) == leaf_entries_map(es@).remove(key@),
        r@ == entries_without(es@, key@),
        forall|a: int| 0 <= a < r@.len() ==> (#[trigger] r@[a]).0@ != key@,
        forall|a: int|
            0 <= a < r@.len() ==> exists|j: int| 0 <= j < es@.len() && (#[trigger] r@[a]).0@
                == es@[j].0@,
{
    let mut out: Vec<(String, Leaf)> = Vec::new();
    let n = es.len();
    let mut i: usize = 0;
    while i < n
        invariant
            n == es@.len(),
            keys_distinct(es@),
            0 <= i <= n,
            keys_distinct(out@),
            leaf_entries_map(out@) == leaf_entries_map(es@.take(i as int)).remove(key@),
            out@ == entries_without(es@.take(i as int), key@),
            forall|a: int| 0 <= a < out@.len() ==> (#[trigger] out@[a]).0@ != key@,
            forall|a: int|
                0 <= a < out@.len() ==> exists|j: int| 0 <= j < i && (#[trigger] out@[a]).0@
                    == es@[j].0@,
        decreases n - i,
    {
        let ghost pre = es@.take(i as int);
        assert(es@.take(i as int + 1).drop_last() =~= pre);
        assert(es@.take(i as int + 1).last() == es@[i as int]);
        if !str_eq(es[i].0.as_str(), key) {
            let ghost old_out = out@;
            let e = (es[i].0.clone(), es[i].1.dup());
            assert(e == es@[i as int]);
            proof {
                lemma_leaf_map_push(old_out, es@[i as int]);
            }
            assert(forall|a: int|
                0 <= a < old_out.len() ==> (#[trigger] old_out[a]).0@ != es@[i as int].0@);
            out.push(e);
            assert(out@ =~= old_out.push(es@[i as int]));
            assert(leaf_entries_map(out@) =~= leaf_entries_map(es@.take(i as int + 1)).remove(
                key@,
            ));
            assert(out@ =~= entries_without(es@.take(i as int + 1), key@));
        } else {
            assert(leaf_entries_map(out@) =~= leaf_entries_map(es@.take(i as int + 1)).remove(
                key@,
            ));
            assert(out@ =~= entries_without(es@.take(i as int + 1), key@));
        }
        i = i + 1;
    }
    assert(es@.take(n as int) =~= es@);
    out
}

/// A fresh copy of a metadata entry list with every entry under `key`
/// removed; in the model, the key is removed from the map.
pub fn meta_remove(es: &Vec<(String, Value)>, key: &str) -> (r: Vec<(String, Value)>)
    requires
        keys_distinct(es@),
        forall|i: int| 0 <= i < es@.len() ==> (#[trigger] es@[i]).1.wf(),
    ensures
        keys_distinct(r@),
        meta_entries_map(r@) == meta_entries_map(es@).remove(key@),
        r@.len() == meta_without(es@, key@).len(),
        forall|a: int|
            0 <= a < r@.len() ==> (#[trigger] r@[a]).0 == meta_without(es@, key@)[a].0
                && value_like(r@[a].1, meta_without(es@, key@)[a].1),
        forall|a: int| 0 <= a < r@.len() ==> (#[trigger] r@[a]).0@ != key@,
        forall|a: int| 0 <= a < r@.len() ==> (#[trigger] r@[a]).1.wf(),
{
    let mut out: Vec<(String, Value)> = Vec::new();
    let n = es.len();
    let mut i: usize = 0;
    while i < n
        invariant
            n == es@.len(),
            keys_distinct(es@),
            forall|k: int| 0 <= k < n ==> (#[trigger] es@[k]).1.wf(),
            0 <= i <= n,
            keys_distinct(out@),
            meta_entries_map(out@) == meta_entries_map(es@.take(i as int)).remove(key@),
            out@.len() == meta_without(es@.take(i as int), key@).len(),
            forall|a: int|
                0 <= a < out@.len() ==> (#[trigger] out@[a]).0 == meta_without(
                    es@.take(i as int),
                    key@,
                )[a].0 && value_like(out@[a].1, meta_without(es@.take(i as int), key@)[a].1),
            forall|a: int| 0 <= a < out@.len() ==> (#[trigger] out@[a]).0@ != key@,
            forall|a: int| 0 <= a < out@.len() ==> (#[trigger] out@[a]).1.wf(),
            forall|a: int|
                0 <= a < out@.len() ==> exists|j: int| 0 <= j < i && (#[trigger] out@[a]).0@
                    == es@[j].0@,
        decreases n - i,
    {
        let ghost pre = es@.take(i as int);
        assert(es@.take(i as int + 1).drop_last() =~= pre);
        assert(es@.take(i as int + 1).last() == es@[i as int]);
        let ghost kept = meta_without(pre, key@);
        if !str_eq(es[i].0.as_str(), key) {
            let ghost old_out = out@;
            let e = (es[i].0.clone(), es[i].1.dup());
            assert(e.0 == es@[i as int].0);
            assert(e.1.model() == es@[i as int].1.model());
            assert(value_like(e.1, es@[i as int].1));
            proof {
                lemma_meta_map_push(old_out, e);
            }
            assert(forall|a: int|
                0 <= a < old_out.len() ==> (#[trigger] old_out[a]).0@ != es@[i as int].0@);
            out.push(e);
            assert(out@ =~= old_out.push(e));
            assert(meta_entries_map(out@) =~= meta_entries_map(es@.take(i as int + 1)).remove(
                key@,
            ));
            assert(meta_without(es@.take(i as int + 1), key@) =~= kept.push(es@[i as int]));
            assert forall|a: int| 0 <= a < out@.len() implies (#[trigger] out@[a]).0
                == meta_without(es@.take(i as int + 1), key@)[a].0 && value_like(
                out@[a].1,
                meta_without(es@.take(i as int + 1), key@)[a].1,
            ) by {
                if a < old_out.len() {
                    assert(out@[a] == old_out[a]);
                    assert(meta_without(es@.take(i as int + 1), key@)[a] == kept[a]);
                } else {
                    assert(out@[a] == e);
                    assert(meta_without(es@.take(i as int + 1), key@)[a] == es@[i as int]);
                }
            }
        } else {
            assert(meta_entries_map(out@) =~= meta_entries_map(es@.take(i as int + 1)).remove(
                key@,
            ));
            assert(meta_without(es@.take(i as int + 1), key@) =~= kept);
        }
        i = i + 1;
    }
    assert(es@.take(n as int) =~= es@);
    out
}

} // verus!
