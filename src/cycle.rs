//! One health check cycle of a service: read what the probes need, and once
//! they have run, record their results and propagate them to the dependents,
//! all or nothing.
use vstd::prelude::*;
use crate::graph::reaches;
use crate::probe::{complete_results, completed, failing_subset, failures_for};
use crate::propagate::{
    blocked, broken, healed, healed_errs, least_heal_set, lemma_break_idempotent, lemma_heal_idempotent, reach_from, HealthError,
};
use crate::store::{DependencyError, EdgeError, MainStatus, StatusView, Store};
use crate::types::{copy_entries, copy_ids, CheckEntry, HealthCheckId, HealthCheckResult, ServiceId};

verus! {

/// What a cycle reads before probing a running service: when it started, and
/// the checks its manifest defines.
#[derive(Clone, Debug, PartialEq, Eq)]
pub struct ProbePlan {
    pub started: u64,
    pub checks: Vec<HealthCheckId>,
}

/// The status after recording `results`: a running service gets them as its
/// health map and keeps its start time; any other status is left as it is.
pub open spec fn recorded(s: StatusView, results: Seq<CheckEntry>) -> StatusView {
    match s {
        StatusView::Running { health, started } => StatusView::Running { health: results, started },
        StatusView::Stopped => StatusView::Stopped,
    }
}

/// Recording the same results twice leaves the status as recording them once
/// did: the health map is the results, and the start time is kept.
pub proof fn lemma_record_idempotent(s: StatusView, results: Seq<CheckEntry>)
    ensures
        recorded(recorded(s, results), results) == recorded(s, results),
{
}

/// Propagation from a service with a single subscribing edge `k1` changes
/// the errors as the step on that edge alone does.
pub proof fn lemma_propagation_single(
    edges: Seq<(int, int)>,
    subscribed: Seq<Seq<HealthCheckId>>,
    id: int,
    results: Seq<CheckEntry>,
    errs: Seq<Option<EdgeError>>,
    k1: int,
    k: nat,
)
    requires
        0 <= k1 < edges.len(),
        edges[k1].0 == id,
        forall|j: int| 0 <= j < edges.len() && (#[trigger] edges[j]).0 == id ==> j == k1,
        k <= edges.len(),
    ensures
        propagation(edges, subscribed, id, results, errs, k) == if k > k1 {
            step(edges, subscribed, id, results, errs, k1)
        } else {
            errs
        },
    decreases k,
{
    if k > 0 {
        lemma_propagation_single(edges, subscribed, id, results, errs, k1, (k - 1) as nat);
        if k - 1 != k1 {
            assert(edges[k - 1].0 != id);
        }
    }
}

/// Two cycles of a service with a single subscribing edge, with the same
/// results, leave the errors as the first one did.
pub proof fn lemma_single_dependent_idempotent(
    edges: Seq<(int, int)>,
    subscribed: Seq<Seq<HealthCheckId>>,
    id: int,
    results: Seq<CheckEntry>,
    errs: Seq<Option<EdgeError>>,
    k1: int,
)
    requires
        errs.len() == edges.len(),
        0 <= k1 < edges.len(),
        edges[k1].0 == id,
        forall|j: int| 0 <= j < edges.len() && (#[trigger] edges[j]).0 == id ==> j == k1,
    ensures
        ({
            let once = propagation(edges, subscribed, id, results, errs, edges.len());
            propagation(edges, subscribed, id, results, once, edges.len()) == once
        }),
{
    let once = propagation(edges, subscribed, id, results, errs, edges.len());
    lemma_propagation_single(edges, subscribed, id, results, errs, k1, edges.len());
    lemma_propagation_single(edges, subscribed, id, results, once, k1, edges.len());
    let f = failing_subset(results, subscribed[k1]);
    if f.len() > 0 {
        lemma_break_idempotent(edges, errs, k1, EdgeError::Failed(f));
    } else {
        lemma_heal_idempotent(edges, errs, k1);
    }
}

/// Some edge to `id` has a dependent from which a cascade would reach a
/// service that is not installed.
pub open spec fn propagation_blocked(edges: Seq<(int, int)>, n: int, id: int) -> bool {
    exists|k: int| 0 <= k < edges.len() && (#[trigger] edges[k]).0 == id && blocked(edges, n, edges[k].1)
}

/// The error left on an edge to the service checked: the subscribed checks
/// that failed, or no failure record when none did.
pub open spec fn edge_outcome(results: Seq<CheckEntry>, subscribed: Seq<HealthCheckId>, after: Option<EdgeError>) -> bool {
    let f = failing_subset(results, subscribed);
    if f.len() > 0 {
        after == Some(EdgeError::Failed(f))
    } else {
        after is None || after == Some(EdgeError::Transitive)
    }
}

/// The error left on any other edge: a failure record stays, and otherwise
/// only a transitive mark may come or go.
pub open spec fn cascade_outcome(before: Option<EdgeError>, after: Option<EdgeError>) -> bool {
    if before matches Some(EdgeError::Failed(_)) {
        after == before
    } else {
        after is None || after == Some(EdgeError::Transitive)
    }
}

/// Propagating the same results twice leaves each edge to the service checked
/// with the same failure record as propagating them once, and each other edge
/// that carried a failure record with the same one.
pub proof fn lemma_propagate_twice(
    edges: Seq<(int, int)>,
    subscribed: Seq<Seq<HealthCheckId>>,
    id: int,
    results: Seq<CheckEntry>,
    errs: Seq<Option<EdgeError>>,
)
    requires
        errs.len() == edges.len(),
    ensures
        ({
            let once = propagation(edges, subscribed, id, results, errs, edges.len());
            let twice = propagation(edges, subscribed, id, results, once, edges.len());
            forall|k: int| 0 <= k < edges.len() && (once[k] matches Some(EdgeError::Failed(_))) ==> #[trigger] twice[k] == once[k]
        }),
{
    let once = propagation(edges, subscribed, id, results, errs, edges.len());
    lemma_propagation_outcome(edges, subscribed, id, results, errs, edges.len());
    lemma_propagation_outcome(edges, subscribed, id, results, once, edges.len());
    let twice = propagation(edges, subscribed, id, results, once, edges.len());
    assert forall|k: int| 0 <= k < edges.len() && (once[k] matches Some(EdgeError::Failed(_))) implies #[trigger] twice[k] == once[k] by {
        if edges[k].0 == id {
            assert(edge_outcome(results, subscribed[k], once[k]));
            assert(edge_outcome(results, subscribed[k], twice[k]));
        } else {
            assert(cascade_outcome(once[k], twice[k]));
        }
    }
}

/// The errors after propagating the `results` of service `id` to edge `k`:
/// broken with the subscribed checks that failed, or healed when none did.
/// An edge to another service is left to the cascades.
pub open spec fn step(
    edges: Seq<(int, int)>,
    subscribed: Seq<Seq<HealthCheckId>>,
    id: int,
    results: Seq<CheckEntry>,
    errs: Seq<Option<EdgeError>>,
    k: int,
) -> Seq<Option<EdgeError>> {
    if edges[k].0 == id {
        let f = failing_subset(results, subscribed[k]);
        if f.len() > 0 {
            broken(edges, errs, k, EdgeError::Failed(f))
        } else {
            healed(edges, errs, k)
        }
    } else {
        errs
    }
}

/// The errors after propagating the `results` of service `id` to the first
/// `k` edges in order, starting from `errs`.
pub open spec fn propagation(
    edges: Seq<(int, int)>,
    subscribed: Seq<Seq<HealthCheckId>>,
    id: int,
    results: Seq<CheckEntry>,
    errs: Seq<Option<EdgeError>>,
    k: nat,
) -> Seq<Option<EdgeError>>
    decreases k,
{
    if k == 0 {
        errs
    } else {
        step(edges, subscribed, id, results, propagation(edges, subscribed, id, results, errs, (k - 1) as nat), k - 1)
    }
}

/// Propagation leaves on each edge to the service checked its subscribed
/// failures, or no failure record when none failed; elsewhere a failure
/// record stays and only transitive marks come and go.
pub proof fn lemma_propagation_outcome(
    edges: Seq<(int, int)>,
    subscribed: Seq<Seq<HealthCheckId>>,
    id: int,
    results: Seq<CheckEntry>,
    errs: Seq<Option<EdgeError>>,
    k: nat,
)
    requires
        errs.len() == edges.len(),
        k <= edges.len(),
    ensures
        propagation(edges, subscribed, id, results, errs, k).len() == errs.len(),
        forall|j: int| 0 <= j < errs.len() ==> if (#[trigger] edges[j]).0 == id {
            j < k ==> edge_outcome(results, subscribed[j], propagation(edges, subscribed, id, results, errs, k)[j])
        } else {
            cascade_outcome(errs[j], propagation(edges, subscribed, id, results, errs, k)[j])
        },
    decreases k,
{
    if k > 0 {
        let i = k - 1;
        lemma_propagation_outcome(edges, subscribed, id, results, errs, (k - 1) as nat);
        let p = propagation(edges, subscribed, id, results, errs, (k - 1) as nat);
        let q = propagation(edges, subscribed, id, results, errs, k);
        assert(q == step(edges, subscribed, id, results, p, i));
        assert forall|j: int| 0 <= j < errs.len() implies if (#[trigger] edges[j]).0 == id {
            j < k ==> edge_outcome(results, subscribed[j], q[j])
        } else {
            cascade_outcome(errs[j], q[j])
        } by {
            if edges[i].0 == id {
                let f = failing_subset(results, subscribed[i]);
                if f.len() > 0 {
                    assert(q[j] == broken(edges, p, i, EdgeError::Failed(f))[j]);
                } else {
                    assert(q[j] == healed_errs(edges, p, i, least_heal_set(edges, p, i))[j]);
                }
            }
        }
    }
}

impl Store {
    /// `self` and `other` hold the same state.
    pub open spec fn same(&self, other: &Store) -> bool {
        &&& self.statuses@ == other.statuses@
        &&& self.manifests@ == other.manifests@
        &&& self.subscriptions@ == other.subscriptions@
        &&& self.errors@ == other.errors@
    }

    /// Reads, for service `id`, what its probes need: nothing when it is not
    /// running.
    pub fn pre_information(&self, id: ServiceId) -> (r: Result<Option<ProbePlan>, HealthError>)
        requires
            self.wf(),
        ensures
            id >= self.size() ==> r == Err::<Option<ProbePlan>, HealthError>(HealthError::UnknownService { id }),
            id < self.size() ==> match self.status_of(id as int) {
                StatusView::Running { health, started } => r matches Ok(Some(p)) && p.started == started
                    && p.checks@ == self.manifests@[id as int]@,
                StatusView::Stopped => r matches Ok(None),
            },
    {
        if id >= self.statuses.len() {
            return Err(HealthError::UnknownService { id });
        }
        match &self.statuses[id] {
            MainStatus::Running { started, .. } => Ok(Some(ProbePlan { started: *started, checks: copy_ids(&self.manifests[id]) })),
            MainStatus::Stopped => Ok(None),
        }
    }

    /// Replaces the health map of service `id` with `results` if it is
    /// running, keeping its start time.
    pub fn record_health(&mut self, id: ServiceId, results: &Vec<CheckEntry>)
        requires
            old(self).wf(),
            id < old(self).size(),
        ensures
            final(self).wf(),
            final(self).manifests@ == old(self).manifests@,
            final(self).subscriptions@ == old(self).subscriptions@,
            final(self).errors@ == old(self).errors@,
            final(self).size() == old(self).size(),
            forall|j: int| 0 <= j < old(self).size() && j != id ==> #[trigger] final(self).statuses@[j] == old(self).statuses@[j],
            final(self).status_of(id as int) == recorded(old(self).status_of(id as int), results@),
    {
        let started = match &self.statuses[id] {
            MainStatus::Running { started, .. } => Some(*started),
            MainStatus::Stopped => None,
        };
        match started {
            Some(st) => {
                self.statuses[id] = MainStatus::Running { health: copy_entries(results), started: st };
            },
            None => {},
        }
    }

    /// Whether propagating from service `id` can complete: fails with a
    /// dependent that is not installed when a cascade would reach one.
    pub fn check_propagation(&self, id: ServiceId) -> (r: Result<(), HealthError>)
        requires
            self.wf(),
        ensures
            r is Err <==> propagation_blocked(self.edges(), self.size(), id as int),
            r matches Err(e) ==> e is NotInstalled,
    {
        let ghost e = self.edges();
        let n = self.statuses.len();
        let mut k: usize = 0;
        while k < self.subscriptions.len()
            invariant
                self.wf(),
                e == self.edges(),
                n == self.size(),
                k <= e.len(),
                forall|j: int| 0 <= j < k && (#[trigger] e[j]).0 == id as int ==> !blocked(e, n as int, e[j].1),
            decreases e.len() - k,
        {
            if self.subscriptions[k].dependency == id {
                match reach_from(&self.subscriptions, n, self.subscriptions[k].dependent) {
                    Err(m) => {
                        assert(reaches(e, e[k as int].1, m as int));
                        assert(blocked(e, n as int, e[k as int].1));
                        assert(e[k as int].0 == id as int);
                        return Err(HealthError::NotInstalled { id: m });
                    },
                    Ok(_) => {},
                }
            }
            k = k + 1;
        }
        Ok(())
    }
    /// Propagates the `results` of service `id` to each edge that subscribes
    /// to its checks, in the order of the edges: an edge whose subscribed
    /// checks include failures is broken with those failures, and the others
    /// are healed; each starts a cascade with a visited set of its own.
    pub fn propagate_health(&mut self, id: ServiceId, results: &Vec<CheckEntry>)
        requires
            old(self).wf(),
            !propagation_blocked(old(self).edges(), old(self).size(), id as int),
        ensures
            final(self).wf(),
            final(self).statuses@ == old(self).statuses@,
            final(self).manifests@ == old(self).manifests@,
            final(self).subscriptions@ == old(self).subscriptions@,
            final(self).errs() == propagation(old(self).edges(), old(self).subscribed(), id as int, results@, old(self).errs(), old(self).edges().len()),
    {
        let ghost e = self.edges();
        let ghost subscribed = self.subscribed();
        let ghost start = self.errs();
        let ghost n = self.size();
        let mut k: usize = 0;
        while k < self.subscriptions.len()
            invariant
                self.wf(),
                e == self.edges(),
                n == self.size(),
                subscribed == self.subscribed(),
                self.statuses@ == old(self).statuses@,
                self.manifests@ == old(self).manifests@,
                self.subscriptions@ == old(self).subscriptions@,
                !propagation_blocked(e, n, id as int),
                k <= e.len(),
                start.len() == e.len(),
                self.errs().len() == e.len(),
                self.errs() == propagation(e, subscribed, id as int, results@, start, k as nat),
            decreases e.len() - k,
        {
            let ghost before_all = self.errs();
            if self.subscriptions[k].dependency == id {
                assert(e[k as int].0 == id as int);
                assert(!blocked(e, n, e[k as int].1));
                let ghost before = self.errs();
                let failures = failures_for(results, &self.subscriptions[k].health_checks);
                assert(subscribed[k as int] == self.subscriptions@[k as int].health_checks@);
                if failures.len() > 0 {
                    let ghost f = failures@;
                    let _ = self.break_transitive(k, DependencyError::HealthChecksFailed { failures });
                    assert(self.errs() == broken(e, before, k as int, EdgeError::Failed(f)));
                } else {
                    match self.heal_transitive(k) {
                        Ok(_) => {
                            assert(self.errs() == healed(e, before, k as int));
                        },
                        Err(_) => {},
                    }
                }
            }
            assert(self.errs() == step(e, subscribed, id as int, results@, before_all, k as int));
            k = k + 1;
        }
    }

    /// Commits a probe run of service `id`: does nothing when `should_commit`
    /// is false; otherwise records `results` on its status if it still runs
    /// and propagates them to its dependents. Either all of it happens or,
    /// on an error, nothing.
    pub fn commit_check(&mut self, id: ServiceId, results: &Vec<CheckEntry>, should_commit: bool) -> (r: Result<(), HealthError>)
        requires
            old(self).wf(),
        ensures
            final(self).wf(),
            !should_commit ==> r is Ok && final(self).same(old(self)),
            should_commit && id >= old(self).size() ==> r == Err::<(), HealthError>(HealthError::UnknownService { id })
                && final(self).same(old(self)),
            should_commit && id < old(self).size() && propagation_blocked(old(self).edges(), old(self).size(), id as int)
                ==> (r matches Err(e) && e is NotInstalled) && final(self).same(old(self)),
            should_commit && id < old(self).size() && !propagation_blocked(old(self).edges(), old(self).size(), id as int) ==> {
                &&& r is Ok
                &&& final(self).manifests@ == old(self).manifests@
                &&& final(self).subscriptions@ == old(self).subscriptions@
                &&& final(self).size() == old(self).size()
                &&& forall|j: int| 0 <= j < old(self).size() && j != id ==> #[trigger] final(self).statuses@[j] == old(self).statuses@[j]
                &&& final(self).status_of(id as int) == recorded(old(self).status_of(id as int), results@)
                &&& final(self).errs() == propagation(old(self).edges(), old(self).subscribed(), id as int, results@, old(self).errs(), old(self).edges().len())
            },
    {
        if !should_commit {
            return Ok(());
        }
        if id >= self.statuses.len() {
            return Err(HealthError::UnknownService { id });
        }
        match self.check_propagation(id) {
            Err(e) => {
                return Err(e);
            },
            Ok(()) => {},
        }
        self.record_health(id, results);
        assert(self.edges() == old(self).edges());
        assert(self.errs() == old(self).errs());
        assert(self.subscribed() == old(self).subscribed());
        self.propagate_health(id, results);
        Ok(())
    }

    /// One health check cycle of service `id`, with `outcomes` the outcome of
    /// each probe of its manifest in order (`None` for one that could not
    /// run, recorded as a failure with the code `info`). A service that is not
    /// running is left as it is, and so is everything when `should_commit` is
    /// false once the probes have run.
    pub fn check(
        &mut self,
        id: ServiceId,
        outcomes: &Vec<Option<HealthCheckResult>>,
        info: u64,
        should_commit: bool,
    ) -> (r: Result<(), HealthError>)
        requires
            old(self).wf(),
        ensures
            final(self).wf(),
            id >= old(self).size() ==> r == Err::<(), HealthError>(HealthError::UnknownService { id })
                && final(self).same(old(self)),
            id < old(self).size() && old(self).status_of(id as int) is Stopped ==> r is Ok && final(self).same(old(self)),
            id < old(self).size() && !should_commit ==> r is Ok && final(self).same(old(self)),
            id < old(self).size() && propagation_blocked(old(self).edges(), old(self).size(), id as int)
                ==> final(self).same(old(self)) && (r is Err <==> old(self).status_of(id as int) is Running && should_commit)
                && (r matches Err(e) ==> e is NotInstalled),
            id < old(self).size() && should_commit && !propagation_blocked(old(self).edges(), old(self).size(), id as int) ==> {
                let results = completed(old(self).manifests@[id as int]@, outcomes@, info);
                &&& r is Ok
                &&& final(self).manifests@ == old(self).manifests@
                &&& final(self).subscriptions@ == old(self).subscriptions@
                &&& final(self).size() == old(self).size()
                &&& forall|j: int| 0 <= j < old(self).size() && j != id ==> #[trigger] final(self).statuses@[j] == old(self).statuses@[j]
                &&& final(self).status_of(id as int) == recorded(old(self).status_of(id as int), results)
                &&& old(self).status_of(id as int) is Running ==> final(self).errs() == propagation(
                    old(self).edges(), old(self).subscribed(), id as int, results, old(self).errs(), old(self).edges().len())
                &&& old(self).status_of(id as int) is Stopped ==> final(self).same(old(self))
            },
    {
        let plan = match self.pre_information(id) {
            Err(e) => {
                return Err(e);
            },
            Ok(None) => {
                return Ok(());
            },
            Ok(Some(p)) => p,
        };
        let results = complete_results(&plan.checks, outcomes, info);
        self.commit_check(id, &results, should_commit)
    }
}

} // verus!