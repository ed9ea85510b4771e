//! Breaking and healing dependency edges, and the cascade of either along the
//! services that depend on the one whose edge changed.
use vstd::prelude::*;
use crate::graph::{count_true, is_path, lemma_closed_holds_reached, lemma_count_all_false, lemma_count_bound, lemma_count_mark, lemma_reaches_self, lemma_reaches_step, reaches};
use crate::store::{edges_of, DependencyError, EdgeError, Store, Subscription};
use crate::types::ServiceId;

verus! {

/// `n` marks, none of them set.
fn unmarked(n: usize) -> (marks: Vec<bool>)
    ensures
        marks@.len() == n,
        forall|x: int| 0 <= x < n ==> !marks@[x],
        count_true(marks@) == 0,
{
    let mut marks: Vec<bool> = Vec::new();
    let mut i: usize = 0;
    while i < n
        invariant
            i <= n,
            marks@.len() == i,
            forall|x: int| 0 <= x < i ==> !marks@[x],
        decreases n - i,
    {
        marks.push(false);
        i = i + 1;
    }
    proof {
        lemma_count_all_false(marks@);
    }
    marks
}

/// Walks the dependents relation breadth first from `d`, visiting each
/// service once. Gives the mark of each installed service that depends on `d`
/// (or is `d`) and the order of the visit; fails with the first reached
/// service that is not installed (at or past `n`).
pub fn reach_from(subs: &Vec<Subscription>, n: usize, d: ServiceId) -> (r: Result<(Vec<bool>, Vec<ServiceId>), ServiceId>)
    requires
        forall|k: int| 0 <= k < subs@.len() ==> #[trigger] subs@[k].dependency < n,
    ensures
        match r {
            Ok((marks, order)) => {
                &&& marks@.len() == n
                &&& forall|x: int| 0 <= x < n ==> (marks@[x] <==> reaches(edges_of(subs@), d as int, x))
                &&& forall|x: int| #[trigger] reaches(edges_of(subs@), d as int, x) ==> 0 <= x < n
                &&& order@.no_duplicates()
                &&& forall|i: int| 0 <= i < order@.len() ==> #[trigger] order@[i] < n
                &&& forall|x: int| 0 <= x < n ==> (marks@[x] <==> order@.contains(x as usize))
            },
            Err(m) => m >= n && reaches(edges_of(subs@), d as int, m as int),
        },
{
    let ghost e = edges_of(subs@);
    proof {
        lemma_reaches_self(e, d as int);
    }
    if d >= n {
        return Err(d);
    }
    let mut marks = unmarked(n);
    proof {
        lemma_count_mark(marks@, d as int);
    }
    marks[d] = true;
    let mut order: Vec<ServiceId> = Vec::new();
    order.push(d);
    assert forall|x: int| 0 <= x < n && #[trigger] marks@[x] implies order@.contains(x as usize) by {
        assert(x == d as int);
        assert(order@[0] == d);
    }
    let mut head: usize = 0;
    while head < order.len()
        invariant
            e == edges_of(subs@),
            forall|k: int| 0 <= k < subs@.len() ==> #[trigger] subs@[k].dependency < n,
            d < n,
            marks@.len() == n,
            order@.len() == count_true(marks@),
            head <= order@.len(),
            order@.no_duplicates(),
            forall|i: int| 0 <= i < order@.len() ==> #[trigger] order@[i] < n && marks@[order@[i] as int],
            forall|x: int| 0 <= x < n && #[trigger] marks@[x] ==> order@.contains(x as usize),
            forall|x: int| 0 <= x < n && #[trigger] marks@[x] ==> reaches(e, d as int, x),
            marks@[d as int],
            forall|i: int, k: int|
                0 <= i < head && 0 <= k < e.len() && #[trigger] e[k].0 == #[trigger] order@[i] as int
                    ==> e[k].1 < n && marks@[e[k].1],
        decreases n - head,
    {
        proof {
            lemma_count_bound(marks@);
        }
        let cur = order[head];
        let mut k: usize = 0;
        while k < subs.len()
            invariant
                e == edges_of(subs@),
                forall|k: int| 0 <= k < subs@.len() ==> #[trigger] subs@[k].dependency < n,
                d < n,
                marks@.len() == n,
                order@.len() == count_true(marks@),
                head < order@.len(),
                cur == order@[head as int],
                k <= subs@.len(),
                order@.no_duplicates(),
                forall|i: int| 0 <= i < order@.len() ==> #[trigger] order@[i] < n && marks@[order@[i] as int],
                forall|x: int| 0 <= x < n && #[trigger] marks@[x] ==> order@.contains(x as usize),
                forall|x: int| 0 <= x < n && #[trigger] marks@[x] ==> reaches(e, d as int, x),
                marks@[d as int],
                forall|i: int, k: int|
                    0 <= i < head && 0 <= k < e.len() && #[trigger] e[k].0 == #[trigger] order@[i] as int
                        ==> e[k].1 < n && marks@[e[k].1],
                forall|j: int| 0 <= j < k && #[trigger] e[j].0 == cur as int ==> e[j].1 < n && marks@[e[j].1],
            decreases subs@.len() - k,
        {
            if subs[k].dependency == cur {
                let m = subs[k].dependent;
                proof {
                    assert(e[k as int] == (cur as int, m as int));
                    assert(marks@[cur as int]);
                    lemma_reaches_step(e, d as int, k as int);
                }
                if m >= n {
                    return Err(m);
                }
                if !marks[m] {
                    proof {
                        lemma_count_mark(marks@, m as int);
                        lemma_count_bound(marks@.update(m as int, true));
                    }
                    let ghost before = order@;
                    marks[m] = true;
                    order.push(m);
                    assert forall|x: int| 0 <= x < n && #[trigger] marks@[x] implies order@.contains(x as usize) by {
                        if x == m as int {
                            assert(order@[order@.len() - 1] == m);
                        } else {
                            let i = choose|i: int| 0 <= i < before.len() && before[i] == x as usize;
                            assert(order@[i] == x as usize);
                        }
                    }
                }
            }
            k = k + 1;
        }
        assert forall|i: int, k: int|
            0 <= i < head + 1 && 0 <= k < e.len() && #[trigger] e[k].0 == #[trigger] order@[i] as int
                implies e[k].1 < n && marks@[e[k].1] by {
            if i == head {
                assert(e[k].0 == cur as int);
            }
        }
        head = head + 1;
    }
    let ghost s = Set::new(|x: int| 0 <= x < n && marks@[x]);
    assert forall|k: int| 0 <= k < e.len() && s.contains(#[trigger] e[k].0) implies s.contains(e[k].1) by {
        let x = e[k].0;
        assert(order@.contains(x as usize));
        let i = choose|i: int| 0 <= i < order@.len() && order@[i] == x as usize;
        assert(e[k].0 == order@[i] as int);
    }
    assert forall|x: int| #[trigger] reaches(e, d as int, x) implies 0 <= x < n && marks@[x] by {
        let p = choose|p: Seq<int>| is_path(e, p) && p[0] == d as int && #[trigger] p.last() == x;
        lemma_closed_holds_reached(e, s, d as int, p);
    }
    assert forall|x: int| 0 <= x < n implies (marks@[x] <==> order@.contains(x as usize)) by {
        if order@.contains(x as usize) {
            let i = choose|i: int| 0 <= i < order@.len() && order@[i] == x as usize;
            assert(marks@[order@[i] as int]);
        }
    }
    Ok((marks, order))
}

/// Why a health check cycle failed.
#[derive(Clone, Copy, Debug, PartialEq, Eq, Structural)]
pub enum HealthError {
    /// The service checked is not installed.
    UnknownService { id: ServiceId },
    /// A cascade reached a dependent that is not installed.
    NotInstalled { id: ServiceId },
}

/// Service `m` has no broken edge to any service it depends on.
pub open spec fn healthy(edges: Seq<(int, int)>, errs: Seq<Option<EdgeError>>, m: int) -> bool {
    forall|k: int| 0 <= k < edges.len() && #[trigger] edges[k].1 == m ==> errs[k] is None
}

/// A cascade from `d` would reach a service that is not installed.
pub open spec fn blocked(edges: Seq<(int, int)>, n: int, d: int) -> bool {
    exists|m: int| #[trigger] reaches(edges, d, m) && !(0 <= m < n)
}

/// Edge `k0` records `reason`, and every edge that leaves a service reaching
/// the dependent of `k0` and had no error is marked transitively broken.
pub open spec fn broken(edges: Seq<(int, int)>, errs: Seq<Option<EdgeError>>, k0: int, reason: EdgeError) -> Seq<Option<EdgeError>> {
    Seq::new(
        errs.len(),
        |k: int|
            if k == k0 {
                Some(reason)
            } else if errs[k] is None && reaches(edges, edges[k0].1, edges[k].0) {
                Some(EdgeError::Transitive)
            } else {
                errs[k]
            },
    )
}

/// The services that `order` lists.
pub open spec fn listed(order: Seq<ServiceId>) -> Set<int> {
    Set::new(|x: int| exists|i: int| 0 <= i < order.len() && #[trigger] order[i] as int == x)
}

/// Edge `k0` is cleared, and the transitive marks on the edges that leave a
/// service of `healed` are cleared.
pub open spec fn healed_errs(edges: Seq<(int, int)>, errs: Seq<Option<EdgeError>>, k0: int, healed: Set<int>) -> Seq<Option<EdgeError>> {
    let mid = errs.update(k0, None);
    Seq::new(
        errs.len(),
        |k: int|
            if healed.contains(edges[k].0) && mid[k] == Some(EdgeError::Transitive) {
                None
            } else {
                mid[k]
            },
    )
}

/// Clearing the error on edge `k` leaves every healthy service healthy, and
/// changes the health of no service but the dependent of `k`.
pub proof fn lemma_clear_health(edges: Seq<(int, int)>, errs: Seq<Option<EdgeError>>, k: int)
    requires
        0 <= k < edges.len(),
        errs.len() == edges.len(),
    ensures
        forall|x: int| healthy(edges, errs, x) ==> #[trigger] healthy(edges, errs.update(k, None), x),
        forall|x: int| x != edges[k].1 ==> (#[trigger] healthy(edges, errs.update(k, None), x) == healthy(edges, errs, x)),
{
    assert forall|x: int| healthy(edges, errs, x) implies #[trigger] healthy(edges, errs.update(k, None), x) by {
        assert forall|j: int| 0 <= j < edges.len() && #[trigger] edges[j].1 == x implies errs.update(k, None)[j] is None by {
            if j != k {
                assert(errs[j] is None);
            }
        }
    }
    assert forall|x: int| x != edges[k].1 implies (#[trigger] healthy(edges, errs.update(k, None), x) == healthy(edges, errs, x)) by {
        if healthy(edges, errs.update(k, None), x) {
            assert forall|j: int| 0 <= j < edges.len() && #[trigger] edges[j].1 == x implies errs[j] is None by {
                assert(errs.update(k, None)[j] is None);
            }
        }
    }
}

/// `s` is closed under healing from edge `k0`: it holds the dependent of
/// `k0` if clearing `k0` leaves that one with no broken edge, and every
/// dependent of a member that clearing the transitive marks leaving the
/// members of `s` leaves with no broken edge.
pub open spec fn heal_closed(edges: Seq<(int, int)>, errs: Seq<Option<EdgeError>>, k0: int, s: Set<int>) -> bool {
    let fin = healed_errs(edges, errs, k0, s);
    &&& healthy(edges, errs.update(k0, None), edges[k0].1) ==> s.contains(edges[k0].1)
    &&& forall|k: int|
        0 <= k < edges.len() && s.contains(#[trigger] edges[k].0) && healthy(edges, fin, edges[k].1) ==> s.contains(edges[k].1)
}

/// The least set closed under healing from edge `k0`: the services that
/// healing edge `k0` heals.
pub open spec fn least_heal_set(edges: Seq<(int, int)>, errs: Seq<Option<EdgeError>>, k0: int) -> Set<int> {
    choose|s: Set<int>| heal_closed(edges, errs, k0, s) && forall|t: Set<int>| #[trigger] heal_closed(edges, errs, k0, t) ==> s.subset_of(t)
}

/// The errors after healing edge `k0`.
pub open spec fn healed(edges: Seq<(int, int)>, errs: Seq<Option<EdgeError>>, k0: int) -> Seq<Option<EdgeError>> {
    healed_errs(edges, errs, k0, least_heal_set(edges, errs, k0))
}

/// A set closed under healing that every such set includes is the least one.
pub proof fn lemma_least_heal_set(edges: Seq<(int, int)>, errs: Seq<Option<EdgeError>>, k0: int, s: Set<int>)
    requires
        heal_closed(edges, errs, k0, s),
        forall|t: Set<int>| #[trigger] heal_closed(edges, errs, k0, t) ==> s.subset_of(t),
    ensures
        least_heal_set(edges, errs, k0) == s,
{
    let l = least_heal_set(edges, errs, k0);
    assert(heal_closed(edges, errs, k0, l) && forall|t: Set<int>| #[trigger] heal_closed(edges, errs, k0, t) ==> l.subset_of(t));
    assert(l.subset_of(s));
    assert(s.subset_of(l));
    assert(l =~= s);
}

/// A service left healthy by clearing some transitive marks on edges that
/// leave `s` stays healthy when all of them are cleared.
pub proof fn lemma_healthy_more_cleared(
    edges: Seq<(int, int)>,
    mid: Seq<Option<EdgeError>>,
    cur: Seq<Option<EdgeError>>,
    s: Set<int>,
    m: int,
)
    requires
        cur.len() == mid.len(),
        mid.len() == edges.len(),
        forall|j: int| 0 <= j < cur.len() && #[trigger] cur[j] is None
            ==> mid[j] is None || (s.contains(edges[j].0) && mid[j] == Some(EdgeError::Transitive)),
        healthy(edges, cur, m),
    ensures
        healthy(edges, Seq::new(mid.len(), |j: int| if s.contains(edges[j].0) && mid[j] == Some(EdgeError::Transitive) { None } else { mid[j] }), m),
{
    let all = Seq::new(mid.len(), |j: int| if s.contains(edges[j].0) && mid[j] == Some(EdgeError::Transitive) { None } else { mid[j] });
    assert forall|k: int| 0 <= k < edges.len() && #[trigger] edges[k].1 == m implies all[k] is None by {
        assert(cur[k] is None);
    }
}

/// Breaking the same edge twice with the same reason leaves the errors as
/// breaking it once did.
pub proof fn lemma_break_idempotent(edges: Seq<(int, int)>, errs: Seq<Option<EdgeError>>, k0: int, reason: EdgeError)
    requires
        0 <= k0 < edges.len(),
        errs.len() == edges.len(),
    ensures
        broken(edges, broken(edges, errs, k0, reason), k0, reason) == broken(edges, errs, k0, reason),
{
    assert(broken(edges, broken(edges, errs, k0, reason), k0, reason) =~= broken(edges, errs, k0, reason));
}

/// Clearing the transitive marks that leave more services leaves every
/// healthy service healthy.
pub proof fn lemma_heal_monotone(edges: Seq<(int, int)>, errs: Seq<Option<EdgeError>>, k0: int, s: Set<int>, t: Set<int>, m: int)
    requires
        errs.len() == edges.len(),
        s.subset_of(t),
        healthy(edges, healed_errs(edges, errs, k0, s), m),
    ensures
        healthy(edges, healed_errs(edges, errs, k0, t), m),
{
    assert forall|k: int| 0 <= k < edges.len() && #[trigger] edges[k].1 == m implies healed_errs(edges, errs, k0, t)[k] is None by {
        assert(healed_errs(edges, errs, k0, s)[k] is None);
    }
}

/// The services in every set closed under healing from edge `k0` form such
/// a set themselves, the least one.
pub proof fn lemma_least_heal_set_exists(edges: Seq<(int, int)>, errs: Seq<Option<EdgeError>>, k0: int)
    requires
        0 <= k0 < edges.len(),
        errs.len() == edges.len(),
    ensures
        heal_closed(edges, errs, k0, least_heal_set(edges, errs, k0)),
        forall|t: Set<int>| #[trigger] heal_closed(edges, errs, k0, t) ==> least_heal_set(edges, errs, k0).subset_of(t),
{
    let all = Set::new(|x: int| forall|t: Set<int>| #[trigger] heal_closed(edges, errs, k0, t) ==> t.contains(x));
    assert forall|k: int| 0 <= k < edges.len() && all.contains(#[trigger] edges[k].0) && healthy(edges, healed_errs(edges, errs, k0, all), edges[k].1)
        implies all.contains(edges[k].1) by {
        assert forall|t: Set<int>| #[trigger] heal_closed(edges, errs, k0, t) implies t.contains(edges[k].1) by {
            assert(all.subset_of(t));
            lemma_heal_monotone(edges, errs, k0, all, t, edges[k].1);
        }
    }
    assert(heal_closed(edges, errs, k0, all));
    lemma_least_heal_set(edges, errs, k0, all);
}

/// Healing the same edge twice leaves the errors as healing it once did.
pub proof fn lemma_heal_idempotent(edges: Seq<(int, int)>, errs: Seq<Option<EdgeError>>, k0: int)
    requires
        0 <= k0 < edges.len(),
        errs.len() == edges.len(),
    ensures
        healed(edges, healed(edges, errs, k0), k0) == healed(edges, errs, k0),
{
    let h1 = least_heal_set(edges, errs, k0);
    let f = healed(edges, errs, k0);
    lemma_least_heal_set_exists(edges, errs, k0);
    let d = edges[k0].1;
    assert(f.update(k0, None) =~= f);
    assert(healed_errs(edges, f, k0, h1) =~= f);
    assert(heal_closed(edges, f, k0, h1)) by {
        if healthy(edges, f, d) && !h1.contains(d) {
            assert(heal_closed(edges, errs, k0, Set::<int>::empty())) by {
                if healthy(edges, errs.update(k0, None), d) {
                    assert(h1.contains(d));
                }
            }
            assert(h1.subset_of(Set::<int>::empty()));
            assert(h1 =~= Set::<int>::empty());
            assert(f =~= errs.update(k0, None));
        }
    }
    lemma_least_heal_set_exists(edges, f, k0);
    let h2 = least_heal_set(edges, f, k0);
    assert(h2.subset_of(h1));
    assert(healed_errs(edges, f, k0, h2) =~= f);
}

impl Store {
    /// Whether service `m` has no broken edge.
    pub fn is_healthy(&self, m: ServiceId) -> (r: bool)
        requires
            self.wf(),
        ensures
            r == healthy(self.edges(), self.errs(), m as int),
    {
        let mut k: usize = 0;
        while k < self.subscriptions.len()
            invariant
                self.wf(),
                k <= self.subscriptions@.len(),
                forall|j: int| 0 <= j < k && #[trigger] self.edges()[j].1 == m as int ==> self.errs()[j] is None,
            decreases self.subscriptions@.len() - k,
        {
            if self.subscriptions[k].dependent == m && self.errors[k].is_some() {
                assert(self.edges()[k as int].1 == m as int);
                return false;
            }
            k = k + 1;
        }
        true
    }

    /// Records `reason` on edge `k0` and marks as transitively broken every
    /// unbroken edge whose dependency depends, directly or through others, on
    /// the dependent of `k0`. Gives the services visited, each once; fails,
    /// changing nothing, when the cascade reaches a dependent that is not
    /// installed.
    pub fn break_transitive(&mut self, k0: usize, reason: DependencyError) -> (r: Result<Vec<ServiceId>, HealthError>)
        requires
            old(self).wf(),
            k0 < old(self).subscriptions@.len(),
        ensures
            final(self).wf(),
            final(self).statuses@ == old(self).statuses@,
            final(self).manifests@ == old(self).manifests@,
            final(self).subscriptions@ == old(self).subscriptions@,
            r is Err <==> blocked(old(self).edges(), old(self).size(), old(self).edges()[k0 as int].1),
            match r {
                Ok(order) => {
                    &&& final(self).errs() == broken(old(self).edges(), old(self).errs(), k0 as int, reason@)
                    &&& order@.no_duplicates()
                    &&& forall|x: usize| #[trigger] order@.contains(x)
                            <==> reaches(old(self).edges(), old(self).edges()[k0 as int].1, x as int)
                },
                Err(e) => {
                    &&& final(self).errors@ == old(self).errors@
                    &&& e is NotInstalled
                },
            },
    {
        let ghost e = self.edges();
        let n = self.statuses.len();
        let d = self.subscriptions[k0].dependent;
        assert(d as int == e[k0 as int].1);
        match reach_from(&self.subscriptions, n, d) {
            Err(m) => {
                assert(reaches(e, d as int, m as int));
                Err(HealthError::NotInstalled { id: m })
            },
            Ok((marks, order)) => {
                assert(!blocked(e, n as int, d as int));
                let ghost target = broken(e, self.errs(), k0 as int, reason@);
                let ghost start = self.errs();
                let ghost old_statuses = self.statuses@;
                let ghost old_manifests = self.manifests@;
                let ghost old_subs = self.subscriptions@;
                self.errors[k0] = Some(reason);
                let mut k: usize = 0;
                while k < self.errors.len()
                    invariant
                        self.wf(),
                        e == self.edges(),
                        n == self.statuses@.len(),
                        marks@.len() == n,
                        forall|x: int| 0 <= x < n ==> (marks@[x] <==> reaches(e, d as int, x)),
                        k0 < self.errors@.len(),
                        target.len() == self.errors@.len(),
                        start.len() == self.errors@.len(),
                        d as int == e[k0 as int].1,
                        target == broken(e, start, k0 as int, reason@),
                        self.statuses@ == old_statuses,
                        self.manifests@ == old_manifests,
                        self.subscriptions@ == old_subs,
                        k <= self.errors@.len(),
                        forall|j: int| 0 <= j < self.errors@.len() ==> #[trigger] self.errs()[j] == (
                            if j < k || j == k0 { target[j] } else { start[j] }),
                    decreases self.errors@.len() - k,
                {
                    let ghost prev = self.errs();
                    if k != k0 {
                        let dep = self.subscriptions[k].dependency;
                        assert(e[k as int].0 == dep as int);
                        assert(self.errs()[k as int] == start[k as int]);
                        assert(dep < n);
                        assert(marks@[dep as int] == reaches(e, d as int, dep as int));
                        if marks[dep] && self.errors[k].is_none() {
                            self.errors[k] = Some(DependencyError::Transitive);
                            assert(self.errs()[k as int] == target[k as int]);
                        } else {
                            assert(self.errs()[k as int] == target[k as int]);
                        }
                    }
                    assert forall|j: int| 0 <= j < self.errors@.len() && j != k implies #[trigger] self.errs()[j] == prev[j] by {
                    }
                    assert(k != k0 ==> self.errs()[k as int] == target[k as int]);
                    k = k + 1;
                }
                assert(self.errs() =~= target);
                assert forall|x: usize| #[trigger] order@.contains(x) <==> reaches(e, d as int, x as int) by {
                    if order@.contains(x) {
                        let i = choose|i: int| 0 <= i < order@.len() && order@[i] == x;
                        assert(order@[i] < n);
                    }
                }
                Ok(order)
            },
        }
    }
    /// Clears the error on edge `k0`. When that leaves its dependent with no
    /// broken edge, heals the dependents of each healed service in turn,
    /// breadth first and each service once: their transitive marks on edges
    /// that leave a healed service are cleared, and a dependent left with no
    /// broken edge is healed next. Gives the healed services in the order
    /// they were visited; fails, changing nothing, when a cascade from the
    /// dependent of `k0` could reach a dependent that is not installed.
    pub fn heal_transitive(&mut self, k0: usize) -> (r: Result<Vec<ServiceId>, HealthError>)
        requires
            old(self).wf(),
            k0 < old(self).subscriptions@.len(),
        ensures
            final(self).wf(),
            final(self).statuses@ == old(self).statuses@,
            final(self).manifests@ == old(self).manifests@,
            final(self).subscriptions@ == old(self).subscriptions@,
            r is Err <==> blocked(old(self).edges(), old(self).size(), old(self).edges()[k0 as int].1),
            match r {
                Ok(order) => {
                    let e = old(self).edges();
                    let d = e[k0 as int].1;
                    let fin = final(self).errs();
                    &&& fin == healed_errs(e, old(self).errs(), k0 as int, listed(order@))
                    &&& order@.no_duplicates()
                    &&& (order@.len() > 0 <==> healthy(e, old(self).errs().update(k0 as int, None), d))
                    &&& order@.len() > 0 ==> order@[0] as int == d
                    &&& forall|i: int| 0 <= i < order@.len() ==> reaches(e, d, #[trigger] order@[i] as int) && healthy(e, fin, order@[i] as int)
                    &&& forall|k: int| 0 <= k < e.len() && listed(order@).contains(#[trigger] e[k].0) && healthy(e, fin, e[k].1)
                            ==> listed(order@).contains(e[k].1)
                    &&& heal_closed(e, old(self).errs(), k0 as int, listed(order@))
                    &&& forall|s: Set<int>| #[trigger] heal_closed(e, old(self).errs(), k0 as int, s) ==> listed(order@).subset_of(s)
                    &&& listed(order@) == least_heal_set(e, old(self).errs(), k0 as int)
                    &&& fin == healed(e, old(self).errs(), k0 as int)
                },
                Err(e) => {
                    &&& final(self).errors@ == old(self).errors@
                    &&& e is NotInstalled
                },
            },
    {
        let ghost e = self.edges();
        let ghost start = self.errs();
        let n = self.statuses.len();
        let d = self.subscriptions[k0].dependent;
        assert(d as int == e[k0 as int].1);
        match reach_from(&self.subscriptions, n, d) {
            Err(m) => {
                assert(reaches(e, d as int, m as int));
                return Err(HealthError::NotInstalled { id: m });
            },
            Ok(_) => {},
        }
        assert(!blocked(e, n as int, d as int));
        proof {
            lemma_reaches_self(e, d as int);
        }
        self.errors[k0] = None;
        let ghost mid = self.errs();
        assert(mid =~= start.update(k0 as int, None));
        let ghost empty = Set::<int>::empty();
        if !self.is_healthy(d) {
            let order: Vec<ServiceId> = Vec::new();
            assert(self.errs() =~= healed_errs(e, start, k0 as int, listed(order@)));
            assert(listed(order@) =~= Set::<int>::empty());
            proof {
                lemma_least_heal_set(e, start, k0 as int, listed(order@));
            }
            return Ok(order);
        }
        let mut marks = unmarked(n);
        proof {
            lemma_count_mark(marks@, d as int);
        }
        marks[d] = true;
        let mut order: Vec<ServiceId> = Vec::new();
        order.push(d);
        assert forall|x: int| 0 <= x < n && #[trigger] marks@[x] implies order@.contains(x as usize) by {
            assert(x == d as int);
            assert(order@[0] == d);
        }
        assert forall|s: Set<int>| #[trigger] heal_closed(e, start, k0 as int, s)
            implies forall|x: int| 0 <= x < n && #[trigger] marks@[x] ==> s.contains(x) by {
            assert(mid == start.update(k0 as int, None));
        }
        let mut head: usize = 0;
        let ghost mut done = Set::<int>::empty();
        assert(self.errs() =~= Seq::new(mid.len(), |j: int| if done.contains(e[j].0) && mid[j] == Some(EdgeError::Transitive) { None } else { mid[j] }));
        while head < order.len()
            invariant
                self.wf(),
                e == self.edges(),
                n == self.statuses@.len(),
                self.statuses@ == old(self).statuses@,
                self.manifests@ == old(self).manifests@,
                self.subscriptions@ == old(self).subscriptions@,
                forall|x: int| #[trigger] reaches(e, d as int, x) ==> 0 <= x < n,
                d < n,
                marks@.len() == n,
                order@.len() == count_true(marks@),
                head <= order@.len(),
                order@.no_duplicates(),
                order@.len() > 0,
                order@[0] == d,
                forall|i: int| 0 <= i < order@.len() ==> #[trigger] order@[i] < n && marks@[order@[i] as int],
                forall|x: int| 0 <= x < n && #[trigger] marks@[x] ==> order@.contains(x as usize),
                forall|x: int| 0 <= x < n && #[trigger] marks@[x] ==> reaches(e, d as int, x),
                forall|i: int| 0 <= i < order@.len() ==> healthy(e, self.errs(), #[trigger] order@[i] as int),
                forall|i: int| 0 <= i < head ==> done.contains(#[trigger] order@[i] as int),
                forall|x: int| #[trigger] done.contains(x) ==> 0 <= x < n && marks@[x],
                forall|x: int| #[trigger] done.contains(x) ==> exists|i: int| 0 <= i < head && order@[i] as int == x,
                mid.len() == e.len(),
                self.errs() == Seq::new(mid.len(), |j: int| if done.contains(e[j].0) && mid[j] == Some(EdgeError::Transitive) { None } else { mid[j] }),
                forall|j: int| 0 <= j < e.len() && done.contains(#[trigger] e[j].0)
                    ==> (0 <= e[j].1 < n && marks@[e[j].1]) || !healthy(e, self.errs(), e[j].1),
                mid == start.update(k0 as int, None),
                start.len() == e.len(),
                k0 < e.len(),
                d as int == e[k0 as int].1,
                forall|s: Set<int>| #[trigger] heal_closed(e, start, k0 as int, s)
                    ==> forall|x: int| 0 <= x < n && #[trigger] marks@[x] ==> s.contains(x),
            decreases n - head,
        {
            proof {
                lemma_count_bound(marks@);
            }
            let cur = order[head];
            proof {
                if done.contains(cur as int) {
                    let i = choose|i: int| 0 <= i < head && order@[i] as int == cur as int;
                    assert(order@[i] == order@[head as int]);
                }
                let old_done = done;
                done = done.insert(cur as int);
                assert(self.errs() =~= Seq::new(mid.len(), |j: int|
                    if done.contains(e[j].0) && mid[j] == Some(EdgeError::Transitive) && !(e[j].0 == cur as int && j >= 0) { None } else { mid[j] }));
            }
            let mut k: usize = 0;
            while k < self.subscriptions.len()
                invariant
                    self.wf(),
                    e == self.edges(),
                    n == self.statuses@.len(),
                    self.statuses@ == old(self).statuses@,
                    self.manifests@ == old(self).manifests@,
                    self.subscriptions@ == old(self).subscriptions@,
                    forall|x: int| #[trigger] reaches(e, d as int, x) ==> 0 <= x < n,
                    d < n,
                    marks@.len() == n,
                    order@.len() == count_true(marks@),
                    head < order@.len(),
                    cur == order@[head as int],
                    k <= e.len(),
                    order@.no_duplicates(),
                    order@.len() > 0,
                    order@[0] == d,
                    forall|i: int| 0 <= i < order@.len() ==> #[trigger] order@[i] < n && marks@[order@[i] as int],
                    forall|x: int| 0 <= x < n && #[trigger] marks@[x] ==> order@.contains(x as usize),
                    forall|x: int| 0 <= x < n && #[trigger] marks@[x] ==> reaches(e, d as int, x),
                    forall|i: int| 0 <= i < order@.len() ==> healthy(e, self.errs(), #[trigger] order@[i] as int),
                    forall|i: int| 0 <= i <= head ==> done.contains(#[trigger] order@[i] as int),
                    forall|x: int| #[trigger] done.contains(x) ==> 0 <= x < n && marks@[x],
                    forall|x: int| #[trigger] done.contains(x) ==> exists|i: int| 0 <= i <= head && order@[i] as int == x,
                    mid.len() == e.len(),
                    self.errs() == Seq::new(mid.len(), |j: int|
                        if done.contains(e[j].0) && mid[j] == Some(EdgeError::Transitive) && !(e[j].0 == cur as int && j >= k) { None } else { mid[j] }),
                    forall|j: int| 0 <= j < e.len() && done.contains(#[trigger] e[j].0) && (e[j].0 != cur as int || j < k)
                        ==> (0 <= e[j].1 < n && marks@[e[j].1]) || !healthy(e, self.errs(), e[j].1),
                    mid == start.update(k0 as int, None),
                    start.len() == e.len(),
                    k0 < e.len(),
                    d as int == e[k0 as int].1,
                    forall|s: Set<int>| #[trigger] heal_closed(e, start, k0 as int, s)
                        ==> forall|x: int| 0 <= x < n && #[trigger] marks@[x] ==> s.contains(x),
                decreases e.len() - k,
            {
                if self.subscriptions[k].dependency == cur {
                    let m = self.subscriptions[k].dependent;
                    proof {
                        assert(e[k as int] == (cur as int, m as int));
                        assert(marks@[cur as int]);
                        lemma_reaches_step(e, d as int, k as int);
                    }
                    let ghost before = self.errs();
                    let transitive = match &self.errors[k] {
                        Some(DependencyError::Transitive) => true,
                        _ => false,
                    };
                    assert(transitive == (before[k as int] == Some(EdgeError::Transitive)));
                    if transitive {
                        self.errors[k] = None;
                        assert(self.errs() =~= before.update(k as int, None));
                        proof {
                            lemma_clear_health(e, before, k as int);
                        }
                    } else {
                        assert(self.errs() =~= before);
                    }
                    if !marks[m] && self.is_healthy(m) {
                        proof {
                            lemma_count_mark(marks@, m as int);
                            lemma_count_bound(marks@.update(m as int, true));
                        }
                        let ghost prev = order@;
                        let ghost cur_errs = self.errs();
                        assert forall|s: Set<int>| #[trigger] heal_closed(e, start, k0 as int, s) implies s.contains(m as int) by {
                            assert(marks@[cur as int]);
                            assert(s.contains(cur as int));
                            assert forall|x: int| #[trigger] done.contains(x) implies s.contains(x) by {
                                assert(marks@[x]);
                            }
                            lemma_healthy_more_cleared(e, mid, cur_errs, s, m as int);
                            assert(healed_errs(e, start, k0 as int, s) =~= Seq::new(mid.len(), |j: int|
                                if s.contains(e[j].0) && mid[j] == Some(EdgeError::Transitive) { None } else { mid[j] }));
                            assert(e[k as int].0 == cur as int);
                        }
                        marks[m] = true;
                        order.push(m);
                        assert forall|x: int| 0 <= x < n && #[trigger] marks@[x] implies order@.contains(x as usize) by {
                            if x == m as int {
                                assert(order@[order@.len() - 1] == m);
                            } else {
                                let i = choose|i: int| 0 <= i < prev.len() && prev[i] == x as usize;
                                assert(order@[i] == x as usize);
                            }
                        }
                        assert forall|i: int| 0 <= i < order@.len() implies healthy(e, self.errs(), #[trigger] order@[i] as int) by {
                            if i < prev.len() {
                                assert(order@[i] == prev[i]);
                            }
                        }
                        assert forall|x: int| #[trigger] done.contains(x) implies exists|i: int| 0 <= i <= head && order@[i] as int == x by {
                            let i = choose|i: int| 0 <= i <= head && prev[i] as int == x;
                            assert(order@[i] == prev[i]);
                        }
                    }
                } else {
                    assert(e[k as int].0 != cur as int);
                }
                k = k + 1;
            }
            head = head + 1;
        }
        let ghost healed = listed(order@);
        assert forall|x: int| #[trigger] done.contains(x) <==> healed.contains(x) by {
            if healed.contains(x) {
                let i = choose|i: int| 0 <= i < order@.len() && #[trigger] order@[i] as int == x;
                assert(done.contains(order@[i] as int));
            }
            if done.contains(x) {
                let i = choose|i: int| 0 <= i < head && order@[i] as int == x;
                assert(order@[i] as int == x);
            }
        }
        assert(self.errs() =~= healed_errs(e, start, k0 as int, healed));
        assert forall|k: int| 0 <= k < e.len() && healed.contains(#[trigger] e[k].0) && healthy(e, self.errs(), e[k].1)
            implies healed.contains(e[k].1) by {
            assert(done.contains(e[k].0));
            let y = e[k].1;
            assert(order@.contains(y as usize));
            let i = choose|i: int| 0 <= i < order@.len() && order@[i] == y as usize;
            assert(order@[i] as int == y);
        }
        assert forall|i: int| 0 <= i < order@.len() implies reaches(e, d as int, #[trigger] order@[i] as int) by {
            assert(marks@[order@[i] as int]);
        }
        assert(healed.contains(d as int)) by {
            assert(order@[0] as int == d as int);
        }
        assert forall|s: Set<int>| #[trigger] heal_closed(e, start, k0 as int, s) implies healed.subset_of(s) by {
            assert forall|x: int| healed.contains(x) implies s.contains(x) by {
                let i = choose|i: int| 0 <= i < order@.len() && #[trigger] order@[i] as int == x;
                assert(marks@[order@[i] as int]);
            }
        }
        proof {
            lemma_least_heal_set(e, start, k0 as int, healed);
        }
        Ok(order)
    }
}

} // verus!