//! The argument router: raw tokens are cut into hyphen-anchored groups,
//! and the groups whose leading token carries a trigger type's prefix are
//! rewritten and concatenated; every other group is dropped.

use vstd::prelude::*;
use crate::strutil::{has_prefix, str_starts_with, strip_prefix};

verus! {

/// A token opens an argument group iff it begins with a hyphen.
pub open spec fn is_group_start(t: Seq<char>) -> bool {
    t.len() > 0 && t[0] == '-'
}

/// The groups of a token sequence: each hyphen-prefixed token opens a new
/// group; every other token joins the current group. A leading run of
/// non-hyphen tokens has no current group; such input is outside the
/// router's contract and those tokens are not grouped.
pub open spec fn grouping(tokens: Seq<Seq<char>>) -> Seq<Seq<Seq<char>>>
    decreases tokens.len(),
{
    if tokens.len() == 0 {
        Seq::empty()
    } else {
        let prev = grouping(tokens.drop_last());
        let t = tokens.last();
        if is_group_start(t) {
            prev.push(seq![t])
        } else if prev.len() == 0 {
            prev
        } else {
            prev.update(prev.len() - 1, prev.last().push(t))
        }
    }
}

/// Concatenation of a group sequence, in order.
pub open spec fn flatten_groups(gs: Seq<Seq<Seq<char>>>) -> Seq<Seq<char>>
    decreases gs.len(),
{
    if gs.len() == 0 {
        Seq::empty()
    } else {
        flatten_groups(gs.drop_last()) + gs.last()
    }
}

/// The routing prefix of a trigger type: `--<type>-`.
pub open spec fn arg_prefix(tt: Seq<char>) -> Seq<char> {
    "--"@ + tt + "-"@
}

/// A group is selected for a trigger type iff its leading token starts
/// with that type's routing prefix.
pub open spec fn selected(g: Seq<Seq<char>>, tt: Seq<char>) -> bool {
    g.len() > 0 && has_prefix(g[0], arg_prefix(tt))
}

/// A selected group, rewritten: the routing prefix of its leading token is
/// replaced by `--`; the rest of the group is unchanged.
pub open spec fn rewrite_group(g: Seq<Seq<char>>, tt: Seq<char>) -> Seq<Seq<char>> {
    g.update(0, "--"@ + g[0].skip(arg_prefix(tt).len() as int))
}

/// Routed output over a group sequence: rewritten selected groups,
/// concatenated in original order.
pub open spec fn route_groups(gs: Seq<Seq<Seq<char>>>, tt: Seq<char>) -> Seq<Seq<char>>
    decreases gs.len(),
{
    if gs.len() == 0 {
        Seq::empty()
    } else {
        route_groups(gs.drop_last(), tt) + (if selected(gs.last(), tt) {
            rewrite_group(gs.last(), tt)
        } else {
            Seq::empty()
        })
    }
}

/// What `route` returns: the routed output over the groups of the tokens.
pub open spec fn route_spec(tokens: Seq<Seq<char>>, tt: Seq<char>) -> Seq<Seq<char>> {
    route_groups(grouping(tokens), tt)
}

/// Split raw tokens into argument groups.
pub fn group_tokens(tokens: &Vec<String>) -> (groups: Vec<Vec<String>>)
    requires
        tokens@.len() > 0 ==> is_group_start(tokens@[0]@),
    ensures
        groups.deep_view() == grouping(tokens.deep_view()),
{
    let ghost dv = tokens.deep_view();
    let mut groups: Vec<Vec<String>> = Vec::new();
    let mut cur: Vec<String> = Vec::new();
    let n = tokens.len();
    let mut i: usize = 0;
    while i < n
        invariant
            n == tokens@.len(),
            dv == tokens.deep_view(),
            dv.len() == n,
            forall|k: int| 0 <= k < n ==> dv[k] == tokens@[k]@,
            n > 0 ==> is_group_start(dv[0]),
            0 <= i <= n,
            i == 0 ==> groups@.len() == 0 && cur@.len() == 0,
            i > 0 ==> grouping(dv.take(i as int)) == groups.deep_view().push(cur.deep_view()),
            i > 0 ==> cur@.len() > 0,
        decreases n - i,
    {
        let tok = &tokens[i];
        let is_start = tok.unicode_len() > 0 && tok.as_str().get_char(0) == '-';
        assert(is_start == is_group_start(dv[i as int]));
        let ghost pre = dv.take(i as int);
        assert(dv.take(i as int + 1).drop_last() =~= pre);
        assert(dv.take(i as int + 1).last() == dv[i as int]);
        if is_start {
            if i > 0 {
                let ghost old_groups = groups.deep_view();
                let ghost old_cur = cur.deep_view();
                groups.push(cur);
                assert(groups.deep_view() =~= old_groups.push(old_cur));
                cur = Vec::new();
            }
            let ghost gd = groups.deep_view();
            let ghost cd = cur.deep_view();
            cur.push(tok.clone());
            assert(cur.deep_view() =~= cd.push(dv[i as int]));
            assert(cur.deep_view() =~= seq![dv[i as int]]);
            assert(grouping(dv.take(i as int + 1)) =~= grouping(pre).push(seq![dv[i as int]]));
            assert(grouping(dv.take(i as int + 1)) =~= gd.push(cur.deep_view()));
        } else {
            assert(i > 0);
            let ghost gd = groups.deep_view();
            let ghost cd = cur.deep_view();
            cur.push(tok.clone());
            assert(cur.deep_view() =~= cd.push(dv[i as int]));
            assert(grouping(pre) == gd.push(cd));
            assert(grouping(pre).len() == gd.len() + 1);
            assert(grouping(dv.take(i as int + 1)) =~= grouping(pre).update(
                gd.len() as int,
                cd.push(dv[i as int]),
            ));
            assert(grouping(dv.take(i as int + 1)) =~= gd.push(cur.deep_view()));
        }
        i = i + 1;
    }
    assert(dv.take(n as int) =~= dv);
    if n > 0 {
        let ghost old_groups = groups.deep_view();
        let ghost old_cur = cur.deep_view();
        groups.push(cur);
        assert(groups.deep_view() =~= old_groups.push(old_cur));
    } else {
        assert(groups.deep_view() =~= grouping(dv));
    }
    groups
}

/// Route raw tokens to one trigger type: keep exactly the groups whose
/// leading token starts with `--<type>-`, rewrite that prefix to `--`, and
/// concatenate the survivors in order. All other groups are dropped.
pub fn route(tokens: &Vec<String>, trigger_type: &str) -> (out: Vec<String>)
    requires
        tokens@.len() > 0 ==> is_group_start(tokens@[0]@),
    ensures
        out.deep_view() == route_spec(tokens.deep_view(), trigger_type@),
{
    let groups = group_tokens(tokens);
    let ghost gs = groups.deep_view();
    let prefix = String::from_str("--").concat(trigger_type).concat("-");
    assert(prefix@ == arg_prefix(trigger_type@));
    let mut out: Vec<String> = Vec::new();
    let n = groups.len();
    let mut i: usize = 0;
    while i < n
        invariant
            n == groups@.len(),
            gs == groups.deep_view(),
            gs.len() == n,
            forall|k: int| 0 <= k < n ==> gs[k] == groups@[k].deep_view(),
            prefix@ == arg_prefix(trigger_type@),
            0 <= i <= n,
            out.deep_view() == route_groups(gs.take(i as int), trigger_type@),
        decreases n - i,
    {
        let ghost tt = trigger_type@;
        assert(gs.take(i as int + 1).drop_last() =~= gs.take(i as int));
        assert(gs.take(i as int + 1).last() == gs[i as int]);
        let g = &groups[i];
        let ghost gdv = g.deep_view();
        let ghost routed = out.deep_view();
        if g.len() > 0 && str_starts_with(g[0].as_str(), prefix.as_str()) {
            assert(gdv.len() == g@.len());
            assert(gdv[0] == g@[0]@);
            assert(selected(gdv, tt));
            let stripped = strip_prefix(g[0].as_str(), prefix.as_str());
            let first = String::from_str("--").concat(stripped.as_str());
            assert(first@ == "--"@ + gdv[0].skip(arg_prefix(tt).len() as int));
            out.push(first);
            assert(out.deep_view() =~= routed.push(rewrite_group(gdv, tt)[0]));
            let m = g.len();
            let mut j: usize = 1;
            while j < m
                invariant
                    m == g@.len(),
                    gdv == g.deep_view(),
                    gdv.len() == m,
                    forall|k: int| 0 <= k < m ==> gdv[k] == g@[k]@,
                    1 <= j <= m,
                    out.deep_view() == routed + rewrite_group(gdv, tt).take(j as int),
                decreases m - j,
            {
                let ghost before = out.deep_view();
                out.push(g[j].clone());
                assert(out.deep_view() =~= before.push(gdv[j as int]));
                assert(rewrite_group(gdv, tt)[j as int] == gdv[j as int]);
                assert(out.deep_view() =~= routed + rewrite_group(gdv, tt).take(j as int + 1));
                j = j + 1;
            }
            assert(rewrite_group(gdv, tt).take(m as int) =~= rewrite_group(gdv, tt));
            assert(out.deep_view() =~= route_groups(gs.take(i as int + 1), tt));
        } else {
            assert(!selected(gdv, tt));
            assert(out.deep_view() =~= route_groups(gs.take(i as int + 1), tt));
        }
        i = i + 1;
    }
    assert(gs.take(n as int) =~= gs);
    out
}

/// Grouping completeness: for well-formed input (the first token, if any,
/// opens a group), flattening the groups reconstructs the token sequence
/// exactly, in order.
pub proof fn lemma_grouping_flattens(tokens: Seq<Seq<char>>)
    requires
        tokens.len() > 0 ==> is_group_start(tokens[0]),
    ensures
        flatten_groups(grouping(tokens)) == tokens,
    decreases tokens.len(),
{
    if tokens.len() == 0 {
        assert(flatten_groups(grouping(tokens)) =~= tokens);
    } else {
        let pre = tokens.drop_last();
        let t = tokens.last();
        lemma_grouping_flattens(pre);
        if is_group_start(t) {
            let gs = grouping(pre).push(seq![t]);
            assert(gs.drop_last() =~= grouping(pre));
            assert(flatten_groups(gs) =~= pre + seq![t]);
            assert(pre + seq![t] =~= tokens);
        } else {
            assert(pre.len() > 0);
            lemma_grouping_nonempty(pre);
            let prev = grouping(pre);
            let gs = prev.update(prev.len() - 1, prev.last().push(t));
            assert(gs.drop_last() =~= prev.drop_last());
            assert(gs.last() == prev.last().push(t));
            assert(flatten_groups(gs) == flatten_groups(prev.drop_last()) + prev.last().push(t));
            assert(flatten_groups(prev) == flatten_groups(prev.drop_last()) + prev.last());
            assert(flatten_groups(prev.drop_last()) + prev.last().push(t) =~= (flatten_groups(
                prev.drop_last(),
            ) + prev.last()).push(t));
            assert(flatten_groups(gs) =~= pre.push(t));
            assert(pre.push(t) =~= tokens);
        }
    }
}

/// A token sequence that opens with a group start has at least one group.
pub proof fn lemma_grouping_nonempty(tokens: Seq<Seq<char>>)
    requires
        tokens.len() > 0,
        is_group_start(tokens[0]),
    ensures
        grouping(tokens).len() > 0,
    decreases tokens.len(),
{
    if tokens.len() > 1 {
        let pre = tokens.drop_last();
        assert(pre[0] == tokens[0]);
        lemma_grouping_nonempty(pre);
    }
}

/// Routing determinism: the routed output is a function of the tokens and
/// the trigger type alone; any two results of `route` on the same inputs
/// are element-wise identical.
pub proof fn lemma_route_deterministic(
    tokens: Seq<Seq<char>>,
    tt: Seq<char>,
    a: Vec<String>,
    b: Vec<String>,
)
    requires
        a.deep_view() == route_spec(tokens, tt),
        b.deep_view() == route_spec(tokens, tt),
    ensures
        a.deep_view() == b.deep_view(),
{
}

/// No selected group among `gs` means an empty routed output.
pub proof fn lemma_route_groups_empty(gs: Seq<Seq<Seq<char>>>, tt: Seq<char>)
    requires
        forall|i: int| 0 <= i < gs.len() ==> !selected(#[trigger] gs[i], tt),
    ensures
        route_groups(gs, tt) == Seq::<Seq<char>>::empty(),
    decreases gs.len(),
{
    if gs.len() == 0 {
    } else {
        assert(forall|i: int|
            0 <= i < gs.drop_last().len() ==> !selected(#[trigger] gs.drop_last()[i], tt));
        lemma_route_groups_empty(gs.drop_last(), tt);
        assert(!selected(gs.last(), tt));
        assert(route_groups(gs, tt) =~= Seq::<Seq<char>>::empty());
    }
}

/// Routing selectivity: if no group's leading token starts with
/// `--<type>-`, routing for that type returns the empty sequence.
pub proof fn lemma_route_selectivity(tokens: Seq<Seq<char>>, tt: Seq<char>)
    requires
        forall|i: int|
            0 <= i < grouping(tokens).len() ==> !selected(#[trigger] grouping(tokens)[i], tt),
    ensures
        route_spec(tokens, tt) == Seq::<Seq<char>>::empty(),
{
    lemma_route_groups_empty(grouping(tokens), tt);
}

} // verus!
