//! The persisted state that a health check cycle reads and writes: each
//! service's status and manifest checks, the subscriptions of dependents to
//! the checks of the services they depend on, and the error on each edge.
use vstd::prelude::*;
use crate::types::{CheckEntry, HealthCheckId, ServiceId};

verus! {

/// A service's lifecycle status; only a running service carries health.
#[derive(Clone, Debug, PartialEq, Eq)]
pub enum MainStatus {
    Stopped,
    Running { health: Vec<CheckEntry>, started: u64 },
}

/// The reason recorded on a dependency edge that is broken.
#[derive(Clone, Debug, PartialEq, Eq)]
pub enum DependencyError {
    /// The service depended on is itself broken.
    Transitive,
    /// Checks that the dependent subscribes to have failed.
    HealthChecksFailed { failures: Vec<CheckEntry> },
}

/// What a [`DependencyError`] says, as a mathematical value.
pub enum EdgeError {
    Transitive,
    Failed(Seq<CheckEntry>),
}

/// What a [`MainStatus`] says, as a mathematical value.
pub enum StatusView {
    Stopped,
    Running { health: Seq<CheckEntry>, started: u64 },
}

impl View for DependencyError {
    type V = EdgeError;

    open spec fn view(&self) -> EdgeError {
        match self {
            DependencyError::Transitive => EdgeError::Transitive,
            DependencyError::HealthChecksFailed { failures } => EdgeError::Failed(failures@),
        }
    }
}

impl View for MainStatus {
    type V = StatusView;

    open spec fn view(&self) -> StatusView {
        match self {
            MainStatus::Stopped => StatusView::Stopped,
            MainStatus::Running { health, started } => StatusView::Running { health: health@, started: *started },
        }
    }
}

/// A subscription of `dependent` to some checks of `dependency`: the edge
/// `dependent -> dependency`.
#[derive(Clone, Debug, PartialEq, Eq)]
pub struct Subscription {
    pub dependency: ServiceId,
    pub dependent: ServiceId,
    pub health_checks: Vec<HealthCheckId>,
}

/// The state of all installed services.
#[derive(Clone, Debug, PartialEq, Eq)]
pub struct Store {
    pub statuses: Vec<MainStatus>,
    pub manifests: Vec<Vec<HealthCheckId>>,
    pub subscriptions: Vec<Subscription>,
    pub errors: Vec<Option<DependencyError>>,
}

/// Each subscription as the edge `(dependency, dependent)`.
pub open spec fn edges_of(subs: Seq<Subscription>) -> Seq<(int, int)> {
    Seq::new(subs.len(), |k: int| (subs[k].dependency as int, subs[k].dependent as int))
}

pub open spec fn error_view(e: Option<DependencyError>) -> Option<EdgeError> {
    match e {
        None => None,
        Some(d) => Some(d@),
    }
}

impl Store {
    /// A store with no service installed.
    pub fn new() -> (s: Store)
        ensures
            s.wf(),
            s.size() == 0,
            s.subscriptions@.len() == 0,
    {
        Store { statuses: Vec::new(), manifests: Vec::new(), subscriptions: Vec::new(), errors: Vec::new() }
    }

    /// Installs a service whose manifest defines `checks`, with `status`;
    /// gives its id.
    pub fn install(&mut self, checks: Vec<HealthCheckId>, status: MainStatus) -> (id: ServiceId)
        requires
            old(self).wf(),
            old(self).size() < usize::MAX,
        ensures
            final(self).wf(),
            id == old(self).size(),
            final(self).statuses@ == old(self).statuses@.push(status),
            final(self).manifests@ == old(self).manifests@.push(checks),
            final(self).subscriptions@ == old(self).subscriptions@,
            final(self).errors@ == old(self).errors@,
    {
        let id = self.statuses.len();
        self.statuses.push(status);
        self.manifests.push(checks);
        id
    }

    /// Records that `dependent` depends on the checks `checks` of
    /// `dependency`, on an edge with no error; gives the edge.
    pub fn subscribe(&mut self, dependency: ServiceId, dependent: ServiceId, checks: Vec<HealthCheckId>) -> (k: usize)
        requires
            old(self).wf(),
            dependency < old(self).size(),
        ensures
            final(self).wf(),
            k == old(self).subscriptions@.len(),
            final(self).statuses@ == old(self).statuses@,
            final(self).manifests@ == old(self).manifests@,
            final(self).subscriptions@ == old(self).subscriptions@.push(Subscription { dependency, dependent, health_checks: checks }),
            final(self).errors@ == old(self).errors@.push(None),
    {
        let k = self.subscriptions.len();
        self.subscriptions.push(Subscription { dependency, dependent, health_checks: checks });
        self.errors.push(None);
        k
    }

    /// Number of installed services.
    pub open spec fn size(&self) -> int {
        self.statuses@.len() as int
    }

    /// Each subscription as the edge `(dependency, dependent)`.
    pub open spec fn edges(&self) -> Seq<(int, int)> {
        edges_of(self.subscriptions@)
    }

    /// The error on each edge.
    pub open spec fn errs(&self) -> Seq<Option<EdgeError>> {
        Seq::new(self.errors@.len(), |k: int| error_view(self.errors@[k]))
    }

    pub open spec fn status_of(&self, id: int) -> StatusView {
        self.statuses@[id]@
    }

    /// The checks that each subscription names.
    pub open spec fn subscribed(&self) -> Seq<Seq<HealthCheckId>> {
        Seq::new(self.subscriptions@.len(), |k: int| self.subscriptions@[k].health_checks@)
    }

    /// Statuses and manifests cover the same services, each edge has an
    /// error slot, and every edge leaves from an installed service. An edge
    /// may point at a dependent that is no longer installed.
    pub open spec fn wf(&self) -> bool {
        &&& self.manifests@.len() == self.statuses@.len()
        &&& self.errors@.len() == self.subscriptions@.len()
        &&& forall|k: int| 0 <= k < self.subscriptions@.len() ==> #[trigger] self.subscriptions@[k].dependency < self.statuses@.len()
    }
}

} // verus!
