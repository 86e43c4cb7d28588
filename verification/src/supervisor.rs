//! The supervisor's decisions, taken before any concurrency begins:
//! discover the trigger types present in a composite descriptor and build
//! one launch plan per type — the scoped descriptor, the routed argument
//! slice, the executor subcommand and the lock-file name. Spawning the
//! children and waiting on the group is effectful and lives outside the
//! library.

use vstd::prelude::*;
use crate::descriptor::{Descriptor, TriggerModel};
use crate::partition::{
    MalformedDescriptor, missing_type_tag, partition, partition_fails, partition_model,
    trigger_type_of, trigger_type_tag,
};
use crate::router::{is_group_start, route, route_spec};
use crate::strutil::str_eq;
use crate::writer::{lock_file_name, lock_file_name_spec};

verus! {

/// The distinct trigger types of a trigger list, in order of first
/// appearance. No meaning attaches to the order; it is fixed only so the
/// result is deterministic.
pub open spec fn distinct_types(ts: Seq<TriggerModel>) -> Seq<Seq<char>>
    decreases ts.len(),
{
    if ts.len() == 0 {
        Seq::empty()
    } else {
        let p = distinct_types(ts.drop_last());
        match trigger_type_tag(ts.last()) {
            Some(tt) => if p.contains(tt) {
                p
            } else {
                p.push(tt)
            },
            None => p,
        }
    }
}

/// Does the list hold a string with this content?
fn contains_str(v: &Vec<String>, s: &str) -> (b: bool)
    ensures
        b == v.deep_view().contains(s@),
{
    let n = v.len();
    let mut j: usize = 0;
    while j < n
        invariant
            n == v@.len(),
            0 <= j <= n,
            forall|k: int| 0 <= k < j ==> v@[k]@ != s@,
        decreases n - j,
    {
        if str_eq(v[j].as_str(), s) {
            proof {
                assert(v.deep_view()[j as int] == v@[j as int]@);
            }
            return true;
        }
        j = j + 1;
    }
    proof {
        if v.deep_view().contains(s@) {
            let k = choose|k: int| 0 <= k < v.deep_view().len() && v.deep_view()[k] == s@;
            assert(v@[k]@ == s@);
            assert(false);
        }
    }
    false
}

/// The set of trigger types present in the descriptor, as a list of
/// distinct strings in first-appearance order. A composite-form trigger
/// that declares no concrete kind is a fatal input-format violation.
pub fn discover_trigger_types(d: &Descriptor) -> (r: Result<Vec<String>, MalformedDescriptor>)
    requires
        d.wf(),
    ensures
        (r is Ok) == !missing_type_tag(d.model().triggers),
        (r matches Ok(ts) ==> ts.deep_view() == distinct_types(d.model().triggers)),
        (r matches Err(e) ==> missing_type_tag(d.model().triggers) && (match e {
            MalformedDescriptor::MissingTriggerType { trigger_id } => exists|j: int|
                0 <= j < d.model().triggers.len() && trigger_type_tag(
                    #[trigger] d.model().triggers[j],
                ) is None && d.model().triggers[j].id == trigger_id@,
            _ => false,
        })),
{
    let ghost dm = d.model();
    let mut types: Vec<String> = Vec::new();
    let n = d.triggers.len();
    let mut i: usize = 0;
    while i < n
        invariant
            d.wf(),
            dm == d.model(),
            n == d.triggers@.len(),
            dm.triggers.len() == n,
            forall|k: int| 0 <= k < n ==> dm.triggers[k] == (#[trigger] d.triggers@[k]).model(),
            0 <= i <= n,
            types.deep_view() == distinct_types(dm.triggers.take(i as int)),
            forall|j: int| 0 <= j < i ==> trigger_type_tag(#[trigger] dm.triggers[j]) is Some,
        decreases n - i,
    {
        proof {
            assert(dm.triggers.take(i as int + 1).drop_last() =~= dm.triggers.take(i as int));
            assert(dm.triggers.take(i as int + 1).last() == dm.triggers[i as int]);
        }
        let t = &d.triggers[i];
        assert(t.wf());
        assert(t.model() == dm.triggers[i as int]);
        match trigger_type_of(t) {
            None => {
                return Err(MalformedDescriptor::MissingTriggerType { trigger_id: t.id.clone() });
            },
            Some(s) => {
                assert(trigger_type_tag(dm.triggers[i as int]) == Some(s@));
                if !contains_str(&types, s.as_str()) {
                    let ghost before = types.deep_view();
                    types.push(s.clone());
                    assert(types.deep_view() =~= before.push(s@));
                }
            },
        }
        assert(types.deep_view() == distinct_types(dm.triggers.take(i as int + 1)));
        i = i + 1;
    }
    proof {
        assert(dm.triggers.take(n as int) =~= dm.triggers);
    }
    Ok(types)
}

/// The executor subcommand of a trigger type: the built-in kinds are
/// invoked through the shared generic subcommand, every other kind
/// through a type-specific one.
pub open spec fn subcommand_spec(tt: Seq<char>) -> Seq<Seq<char>> {
    if tt == "http"@ || tt == "redis"@ {
        seq!["trigger"@, tt]
    } else {
        seq!["trigger-"@ + tt]
    }
}

pub fn subcommand_for(trigger_type: &str) -> (r: Vec<String>)
    ensures
        r.deep_view() == subcommand_spec(trigger_type@),
{
    let mut v: Vec<String> = Vec::new();
    if str_eq(trigger_type, "http") || str_eq(trigger_type, "redis") {
        v.push(String::from_str("trigger"));
        v.push(String::from_str(trigger_type));
        assert(v.deep_view() =~= seq!["trigger"@, trigger_type@]);
    } else {
        v.push(String::from_str("trigger-").concat(trigger_type));
        assert(v.deep_view() =~= seq!["trigger-"@ + trigger_type@]);
    }
    v
}

/// One planned child launch: the trigger type, its scoped descriptor,
/// the argument slice routed to it, the executor subcommand, and the name
/// of the lock file its manifest is written to.
pub struct Launch {
    pub trigger_type: String,
    pub scoped: Descriptor,
    pub args: Vec<String>,
    pub subcommand: Vec<String>,
    pub lock_file: String,
}

/// Everything the supervisor decides before any child is launched: one
/// launch per discovered trigger type, each with the partitioned
/// descriptor, the routed arguments, the subcommand and the lock-file
/// name for exactly that type. Fails exactly when partitioning fails for
/// some discovered type; nothing is launched then.
pub fn plan_launches(d: &Descriptor, raw_args: &Vec<String>) -> (r: Result<
    Vec<Launch>,
    MalformedDescriptor,
>)
    requires
        d.wf(),
        raw_args@.len() > 0 ==> is_group_start(raw_args@[0]@),
    ensures
        (r matches Ok(plans) ==> {
            let types = distinct_types(d.model().triggers);
            &&& plans@.len() == types.len()
            &&& (forall|i: int|
                0 <= i < types.len() ==> (#[trigger] plans@[i]).trigger_type@ == types[i])
            &&& (forall|i: int|
                0 <= i < types.len() ==> (#[trigger] plans@[i]).scoped.wf()
                    && plans@[i].scoped.model() == partition_model(d.model(), types[i]))
            &&& (forall|i: int|
                0 <= i < types.len() ==> (#[trigger] plans@[i]).args.deep_view() == route_spec(
                    raw_args.deep_view(),
                    types[i],
                ))
            &&& (forall|i: int|
                0 <= i < types.len() ==> (#[trigger] plans@[i]).subcommand.deep_view()
                    == subcommand_spec(types[i]))
            &&& (forall|i: int|
                0 <= i < types.len() ==> (#[trigger] plans@[i]).lock_file@ == lock_file_name_spec(
                    types[i],
                ))
        }),
        (r is Ok) == (!missing_type_tag(d.model().triggers) && (forall|i: int|
            0 <= i < distinct_types(d.model().triggers).len() ==> !partition_fails(
                d.model(),
                #[trigger] distinct_types(d.model().triggers)[i],
            ))),
        (r matches Err(_) ==> missing_type_tag(d.model().triggers) || exists|i: int|
            0 <= i < distinct_types(d.model().triggers).len() && partition_fails(
                d.model(),
                #[trigger] distinct_types(d.model().triggers)[i],
            )),
{
    let ghost dm = d.model();
    let types = match discover_trigger_types(d) {
        Ok(ts) => ts,
        Err(e) => {
            return Err(e);
        },
    };
    let ghost tdv = types.deep_view();
    let mut plans: Vec<Launch> = Vec::new();
    let n = types.len();
    let mut i: usize = 0;
    while i < n
        invariant
            d.wf(),
            dm == d.model(),
            raw_args@.len() > 0 ==> is_group_start(raw_args@[0]@),
            n == types@.len(),
            tdv == distinct_types(dm.triggers),
            tdv.len() == n,
            forall|k: int| 0 <= k < n ==> tdv[k] == (#[trigger] types@[k])@,
            0 <= i <= n,
            plans@.len() == i,
            forall|k: int| 0 <= k < i ==> (#[trigger] plans@[k]).trigger_type@ == tdv[k],
            forall|k: int|
                0 <= k < i ==> (#[trigger] plans@[k]).scoped.wf() && plans@[k].scoped.model()
                    == partition_model(dm, tdv[k]),
            forall|k: int|
                0 <= k < i ==> (#[trigger] plans@[k]).args.deep_view() == route_spec(
                    raw_args.deep_view(),
                    tdv[k],
                ),
            forall|k: int|
                0 <= k < i ==> (#[trigger] plans@[k]).subcommand.deep_view() == subcommand_spec(
                    tdv[k],
                ),
            forall|k: int|
                0 <= k < i ==> (#[trigger] plans@[k]).lock_file@ == lock_file_name_spec(tdv[k]),
            forall|k: int| 0 <= k < i ==> !partition_fails(dm, #[trigger] tdv[k]),
        decreases n - i,
    {
        let tt = &types[i];
        assert(tt@ == tdv[i as int]);
        match partition(d, tt.as_str()) {
            Err(e) => {
                assert(partition_fails(dm, tdv[i as int]));
                return Err(e);
            },
            Ok(scoped) => {
                let args = route(raw_args, tt.as_str());
                let sub = subcommand_for(tt.as_str());
                let lf = lock_file_name(tt.as_str());
                plans.push(
                    Launch {
                        trigger_type: tt.clone(),
                        scoped,
                        args,
                        subcommand: sub,
                        lock_file: lf,
                    },
                );
            },
        }
        i = i + 1;
    }
    Ok(plans)
}

} // verus!
