//! The dependents relation as a graph over service positions, and the set of
//! services that a cascade starting at one service can reach.
use vstd::prelude::*;

verus! {

/// An edge `(n, m)`: service `m` depends on service `n`.
pub open spec fn links(edges: Seq<(int, int)>, n: int, m: int) -> bool {
    exists|k: int| 0 <= k < edges.len() && #[trigger] edges[k] == (n, m)
}

/// A walk along edges, from a service to its dependents.
pub open spec fn is_path(edges: Seq<(int, int)>, p: Seq<int>) -> bool {
    &&& p.len() > 0
    &&& forall|i: int| 0 <= i < p.len() - 1 ==> links(edges, #[trigger] p[i], p[i + 1])
}

/// Service `n` depends, directly or through others, on service `d`, or is `d`.
pub open spec fn reaches(edges: Seq<(int, int)>, d: int, n: int) -> bool {
    exists|p: Seq<int>| is_path(edges, p) && p[0] == d && #[trigger] p.last() == n
}

/// The number of marks set in `v`.
pub open spec fn count_true(v: Seq<bool>) -> nat
    decreases v.len(),
{
    if v.len() == 0 {
        0
    } else {
        count_true(v.drop_last()) + if v.last() { 1nat } else { 0nat }
    }
}

pub proof fn lemma_count_bound(v: Seq<bool>)
    ensures
        count_true(v) <= v.len(),
    decreases v.len(),
{
    if v.len() > 0 {
        lemma_count_bound(v.drop_last());
    }
}

pub proof fn lemma_count_all_false(v: Seq<bool>)
    requires
        forall|i: int| 0 <= i < v.len() ==> !v[i],
    ensures
        count_true(v) == 0,
    decreases v.len(),
{
    if v.len() > 0 {
        lemma_count_all_false(v.drop_last());
    }
}

pub proof fn lemma_count_mark(v: Seq<bool>, i: int)
    requires
        0 <= i < v.len(),
        !v[i],
    ensures
        count_true(v.update(i, true)) == count_true(v) + 1,
    decreases v.len(),
{
    if i < v.len() - 1 {
        assert(v.update(i, true).drop_last() =~= v.drop_last().update(i, true));
        lemma_count_mark(v.drop_last(), i);
    } else {
        assert(v.update(i, true).drop_last() =~= v.drop_last());
    }
}

pub proof fn lemma_reaches_self(edges: Seq<(int, int)>, d: int)
    ensures
        reaches(edges, d, d),
{
    let p = seq![d];
    assert(is_path(edges, p));
    assert(p.last() == d);
}

/// A dependent of a reached service is reached.
pub proof fn lemma_reaches_step(edges: Seq<(int, int)>, d: int, k: int)
    requires
        0 <= k < edges.len(),
        reaches(edges, d, edges[k].0),
    ensures
        reaches(edges, d, edges[k].1),
{
    let p = choose|p: Seq<int>| is_path(edges, p) && p[0] == d && #[trigger] p.last() == edges[k].0;
    let q = p.push(edges[k].1);
    assert forall|i: int| 0 <= i < q.len() - 1 implies links(edges, #[trigger] q[i], q[i + 1]) by {
        if i < p.len() - 1 {
            assert(q[i] == p[i] && q[i + 1] == p[i + 1]);
        } else {
            assert(edges[k] == (q[i], q[i + 1]));
        }
    }
    assert(q.last() == edges[k].1);
}

/// A set that holds `d` and every dependent of each of its members holds
/// every service that reaches `d`.
pub proof fn lemma_closed_holds_reached(edges: Seq<(int, int)>, s: Set<int>, d: int, p: Seq<int>)
    requires
        s.contains(d),
        forall|k: int| 0 <= k < edges.len() && s.contains(#[trigger] edges[k].0) ==> s.contains(edges[k].1),
        is_path(edges, p),
        p[0] == d,
    ensures
        s.contains(p.last()),
    decreases p.len(),
{
    if p.len() > 1 {
        let q = p.drop_last();
        assert forall|i: int| 0 <= i < q.len() - 1 implies links(edges, #[trigger] q[i], q[i + 1]) by {
            assert(q[i] == p[i] && q[i + 1] == p[i + 1]);
            assert(links(edges, p[i], p[i + 1]));
        }
        lemma_closed_holds_reached(edges, s, d, q);
        let j = p.len() - 2;
        assert(links(edges, p[j], p[j + 1]));
        let k = choose|k: int| 0 <= k < edges.len() && #[trigger] edges[k] == (p[j], p[j + 1]);
        assert(edges[k].0 == q.last());
    }
}

} // verus!
