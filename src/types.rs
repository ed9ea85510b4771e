use vstd::prelude::*;

verus! {

/// Identifier of one health check, unique within one service's manifest.
pub type HealthCheckId = u64;

/// Identifier of an installed service: its position in the [`crate::store::Store`].
pub type ServiceId = usize;

/// Outcome of one health check, with a diagnostic code.
#[derive(Clone, Copy, Debug, PartialEq, Eq, Structural)]
pub enum HealthCheckResult {
    Success { info: u64 },
    Failure { info: u64 },
}

/// One entry of a health map: the result of the check `id`.
#[derive(Clone, Copy, Debug, PartialEq, Eq, Structural)]
pub struct CheckEntry {
    pub id: HealthCheckId,
    pub result: HealthCheckResult,
}

impl HealthCheckResult {
    pub fn is_failure(&self) -> (r: bool)
        ensures
            r == (*self is Failure),
    {
        match self {
            HealthCheckResult::Failure { .. } => true,
            HealthCheckResult::Success { .. } => false,
        }
    }
}

/// Whether `ids` holds `x`.
pub fn contains_id(ids: &Vec<HealthCheckId>, x: HealthCheckId) -> (r: bool)
    ensures
        r == ids@.contains(x),
{
    let mut i: usize = 0;
    while i < ids.len()
        invariant
            i <= ids.len(),
            forall|j: int| 0 <= j < i ==> ids@[j] != x,
        decreases ids.len() - i,
    {
        if ids[i] == x {
            return true;
        }
        i = i + 1;
    }
    false
}

/// A copy of a list of check ids.
pub fn copy_ids(v: &Vec<HealthCheckId>) -> (r: Vec<HealthCheckId>)
    ensures
        r@ == v@,
{
    let mut r: Vec<HealthCheckId> = Vec::new();
    let mut i: usize = 0;
    while i < v.len()
        invariant
            i <= v.len(),
            r@ == v@.subrange(0, i as int),
        decreases v.len() - i,
    {
        r.push(v[i]);
        i = i + 1;
        assert(r@ =~= v@.subrange(0, i as int));
    }
    assert(v@.subrange(0, v.len() as int) =~= v@);
    r
}

/// A copy of a health map, entry by entry.
pub fn copy_entries(v: &Vec<CheckEntry>) -> (r: Vec<CheckEntry>)
    ensures
        r@ == v@,
{
    let mut r: Vec<CheckEntry> = Vec::new();
    let mut i: usize = 0;
    while i < v.len()
        invariant
            i <= v.len(),
            r@ == v@.subrange(0, i as int),
        decreases v.len() - i,
    {
        r.push(v[i]);
        i = i + 1;
        assert(r@ =~= v@.subrange(0, i as int));
    }
    assert(v@.subrange(0, v.len() as int) =~= v@);
    r
}

} // verus!
