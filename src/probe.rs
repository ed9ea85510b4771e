use vstd::prelude::*;
use crate::types::{CheckEntry, HealthCheckId, HealthCheckResult, contains_id};

verus! {

/// The checks of `results` that failed and that `subscribed` names, in the
/// order of `results`.
pub open spec fn failing_subset(results: Seq<CheckEntry>, subscribed: Seq<HealthCheckId>) -> Seq<CheckEntry>
    decreases results.len(),
{
    if results.len() == 0 {
        seq![]
    } else {
        let before = failing_subset(results.drop_last(), subscribed);
        let e = results.last();
        if e.result is Failure && subscribed.contains(e.id) {
            before.push(e)
        } else {
            before
        }
    }
}

/// The entry that stands for the outcome of one probe: what it returned, or a
/// failure with code `info` when it could not run.
pub open spec fn completed_entry(id: HealthCheckId, outcome: Option<HealthCheckResult>, info: u64) -> CheckEntry {
    CheckEntry {
        id,
        result: match outcome {
            Some(r) => r,
            None => HealthCheckResult::Failure { info },
        },
    }
}

/// The outcome reported for the `i`-th defined check; none where the probe
/// run reported fewer outcomes than there are checks.
pub open spec fn outcome_at(outcomes: Seq<Option<HealthCheckResult>>, i: int) -> Option<HealthCheckResult> {
    if i < outcomes.len() {
        outcomes[i]
    } else {
        None
    }
}

/// The complete health map for the checks `defined`, given the outcome of each
/// probe in the same order.
pub open spec fn completed(defined: Seq<HealthCheckId>, outcomes: Seq<Option<HealthCheckResult>>, info: u64) -> Seq<CheckEntry> {
    Seq::new(defined.len(), |i: int| completed_entry(defined[i], outcome_at(outcomes, i), info))
}

/// Builds the health map of a probe run: one entry per defined check, in the
/// order of the manifest; a probe that could not run (`None`, or no outcome
/// at its position) is recorded as a failure with the code `info`.
pub fn complete_results(
    defined: &Vec<HealthCheckId>,
    outcomes: &Vec<Option<HealthCheckResult>>,
    info: u64,
) -> (r: Vec<CheckEntry>)
    ensures
        r@ == completed(defined@, outcomes@, info),
        r@.len() == defined@.len(),
        forall|i: int| 0 <= i < r@.len() ==> r@[i].id == defined@[i],
{
    let mut r: Vec<CheckEntry> = Vec::new();
    let mut i: usize = 0;
    while i < defined.len()
        invariant
            i <= defined.len(),
            forall|j: int| 0 <= j < i ==> #[trigger] r@[j] == completed_entry(defined@[j], outcome_at(outcomes@, j), info),
            r@.len() == i,
        decreases defined.len() - i,
    {
        let outcome = if i < outcomes.len() {
            outcomes[i]
        } else {
            None
        };
        let result = match outcome {
            Some(res) => res,
            None => HealthCheckResult::Failure { info },
        };
        r.push(CheckEntry { id: defined[i], result });
        i = i + 1;
    }
    assert(r@ =~= completed(defined@, outcomes@, info));
    r
}

/// The failures of `results` among the checks that `subscribed` names: the
/// reason recorded on a dependent's edge.
pub fn failures_for(results: &Vec<CheckEntry>, subscribed: &Vec<HealthCheckId>) -> (r: Vec<CheckEntry>)
    ensures
        r@ == failing_subset(results@, subscribed@),
{
    let mut r: Vec<CheckEntry> = Vec::new();
    let mut i: usize = 0;
    while i < results.len()
        invariant
            i <= results.len(),
            r@ == failing_subset(results@.subrange(0, i as int), subscribed@),
        decreases results.len() - i,
    {
        let e = results[i];
        assert(results@.subrange(0, i + 1).drop_last() =~= results@.subrange(0, i as int));
        if e.result.is_failure() && contains_id(subscribed, e.id) {
            r.push(e);
        }
        i = i + 1;
    }
    assert(results@.subrange(0, i as int) =~= results@);
    r
}

} // verus!
