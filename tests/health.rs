use health_monitor::cycle::ProbePlan;
use health_monitor::probe::{complete_results, failures_for};
use health_monitor::propagate::{reach_from, HealthError};
use health_monitor::store::{DependencyError, MainStatus, Store};
use health_monitor::types::{CheckEntry, HealthCheckResult};

fn ok(info: u64) -> HealthCheckResult {
    HealthCheckResult::Success { info }
}

fn fail(info: u64) -> HealthCheckResult {
    HealthCheckResult::Failure { info }
}

fn running(started: u64) -> MainStatus {
    MainStatus::Running { health: Vec::new(), started }
}

/// P defines checks 1 and 2; D subscribes to check 1 of P; E subscribes to D.
fn chain() -> (Store, usize, usize, usize, usize, usize) {
    let mut s = Store::new();
    let p = s.install(vec![1, 2], running(100));
    let d = s.install(vec![7], running(200));
    let e = s.install(vec![], running(300));
    let dp = s.subscribe(p, d, vec![1]);
    let ed = s.subscribe(d, e, vec![7]);
    (s, p, d, e, dp, ed)
}

#[test]
fn failures_are_the_subscribed_failing_checks() {
    let results = vec![
        CheckEntry { id: 1, result: fail(5) },
        CheckEntry { id: 2, result: fail(6) },
        CheckEntry { id: 3, result: ok(0) },
    ];
    assert_eq!(failures_for(&results, &vec![1, 3]), vec![CheckEntry { id: 1, result: fail(5) }]);
    assert_eq!(failures_for(&results, &vec![3]), vec![]);
    assert_eq!(failures_for(&results, &vec![]), vec![]);
}

#[test]
fn every_defined_check_has_a_result() {
    let defined = vec![10, 20, 30];
    let outcomes = vec![Some(ok(1)), None];
    let r = complete_results(&defined, &outcomes, 99);
    assert_eq!(
        r,
        vec![
            CheckEntry { id: 10, result: ok(1) },
            CheckEntry { id: 20, result: fail(99) },
            CheckEntry { id: 30, result: fail(99) },
        ]
    );
    assert_eq!(complete_results(&vec![], &outcomes, 1), vec![]);
}

#[test]
fn pre_information_reads_start_and_checks() {
    let (s, p, _, _, _, _) = chain();
    assert_eq!(s.pre_information(p), Ok(Some(ProbePlan { started: 100, checks: vec![1, 2] })));
    let mut t = Store::new();
    let q = t.install(vec![1], MainStatus::Stopped);
    assert_eq!(t.pre_information(q), Ok(None));
    assert_eq!(t.pre_information(5), Err(HealthError::UnknownService { id: 5 }));
}

#[test]
fn break_then_heal_scenario() {
    let (mut s, p, d, _, dp, ed) = chain();
    assert_eq!(s.check(p, &vec![Some(fail(4)), Some(ok(0))], 0, true), Ok(()));
    assert_eq!(
        s.statuses[p],
        MainStatus::Running {
            health: vec![CheckEntry { id: 1, result: fail(4) }, CheckEntry { id: 2, result: ok(0) }],
            started: 100,
        }
    );
    assert_eq!(
        s.errors[dp],
        Some(DependencyError::HealthChecksFailed { failures: vec![CheckEntry { id: 1, result: fail(4) }] })
    );
    assert_eq!(s.errors[ed], Some(DependencyError::Transitive));
    assert!(!s.is_healthy(d));

    assert_eq!(s.check(p, &vec![Some(ok(0)), Some(ok(0))], 0, true), Ok(()));
    assert_eq!(s.errors[dp], None);
    assert_eq!(s.errors[ed], None);
    assert!(s.is_healthy(d));
}

#[test]
fn unsubscribed_failure_breaks_nothing() {
    let (mut s, p, _, _, dp, ed) = chain();
    assert_eq!(s.check(p, &vec![Some(ok(0)), Some(fail(3))], 0, true), Ok(()));
    assert_eq!(s.errors[dp], None);
    assert_eq!(s.errors[ed], None);
}

#[test]
fn heal_stops_at_a_dependent_with_another_broken_edge() {
    let (mut s, p, d, _, dp, ed) = chain();
    let q = s.install(vec![5], running(400));
    let dq = s.subscribe(q, d, vec![5]);
    assert_eq!(s.check(q, &vec![Some(fail(1))], 0, true), Ok(()));
    assert_eq!(s.check(p, &vec![Some(fail(2)), Some(ok(0))], 0, true), Ok(()));
    assert_eq!(s.check(p, &vec![Some(ok(0)), Some(ok(0))], 0, true), Ok(()));
    assert_eq!(s.errors[dp], None);
    assert_eq!(
        s.errors[dq],
        Some(DependencyError::HealthChecksFailed { failures: vec![CheckEntry { id: 5, result: fail(1) }] })
    );
    assert_eq!(s.errors[ed], Some(DependencyError::Transitive));
}

#[test]
fn heal_transitive_reports_healed_services() {
    let (mut s, _, d, e, dp, ed) = chain();
    s.errors[dp] = Some(DependencyError::Transitive);
    s.errors[ed] = Some(DependencyError::Transitive);
    assert_eq!(s.heal_transitive(dp), Ok(vec![d, e]));
    assert_eq!(s.errors[ed], None);
}

#[test]
fn two_identical_cycles_change_nothing_more() {
    let (mut s, p, _, _, _, _) = chain();
    let outcomes = vec![Some(fail(4)), None];
    assert_eq!(s.check(p, &outcomes, 8, true), Ok(()));
    let once = s.clone();
    assert_eq!(s.check(p, &outcomes, 8, true), Ok(()));
    assert_eq!(s, once);
}

#[test]
fn stopped_service_is_left_alone() {
    let mut s = Store::new();
    let p = s.install(vec![1], MainStatus::Stopped);
    let d = s.install(vec![], running(1));
    s.subscribe(p, d, vec![1]);
    let before = s.clone();
    assert_eq!(s.check(p, &vec![Some(fail(1))], 0, true), Ok(()));
    assert_eq!(s, before);
}

#[test]
fn cancelled_cycle_is_left_alone() {
    let (mut s, p, _, _, _, _) = chain();
    let before = s.clone();
    assert_eq!(s.check(p, &vec![Some(fail(1)), Some(fail(2))], 0, false), Ok(()));
    assert_eq!(s, before);
    assert_eq!(s.commit_check(p, &vec![CheckEntry { id: 1, result: fail(1) }], false), Ok(()));
    assert_eq!(s, before);
}

#[test]
fn failed_propagation_rolls_everything_back() {
    let mut s = Store::new();
    let p = s.install(vec![1], running(10));
    let a = s.install(vec![], running(11));
    let b = s.install(vec![], running(12));
    s.subscribe(p, a, vec![1]);
    s.subscribe(p, b, vec![1]);
    s.subscribe(p, 42, vec![1]);
    let before = s.clone();
    assert_eq!(s.check(p, &vec![Some(fail(9))], 0, true), Err(HealthError::NotInstalled { id: 42 }));
    assert_eq!(s, before);
    assert_eq!(s.check_propagation(p), Err(HealthError::NotInstalled { id: 42 }));
}

#[test]
fn unknown_service_is_an_error() {
    let (mut s, _, _, _, _, _) = chain();
    let before = s.clone();
    assert_eq!(s.check(9, &vec![], 0, true), Err(HealthError::UnknownService { id: 9 }));
    assert_eq!(s, before);
}

#[test]
fn cycle_of_dependents_terminates() {
    let mut s = Store::new();
    let c = s.install(vec![1], running(1));
    let a = s.install(vec![], running(2));
    let b = s.install(vec![], running(3));
    let ac = s.subscribe(c, a, vec![1]);
    let ba = s.subscribe(a, b, vec![]);
    let ab = s.subscribe(b, a, vec![]);
    let order = s
        .break_transitive(ac, DependencyError::HealthChecksFailed { failures: vec![CheckEntry { id: 1, result: fail(1) }] })
        .unwrap();
    assert_eq!(order, vec![a, b]);
    assert_eq!(s.errors[ba], Some(DependencyError::Transitive));
    assert_eq!(s.errors[ab], Some(DependencyError::Transitive));
    assert!(matches!(s.errors[ac], Some(DependencyError::HealthChecksFailed { .. })));
    assert_eq!(s.check(c, &vec![Some(ok(0))], 0, true), Ok(()));
    assert_eq!(s.errors[ac], None);
}

#[test]
fn diamond_visits_each_service_once() {
    let mut s = Store::new();
    let c = s.install(vec![1], running(1));
    let a = s.install(vec![], running(2));
    let b = s.install(vec![], running(3));
    let d = s.install(vec![], running(4));
    s.subscribe(c, a, vec![1]);
    s.subscribe(c, b, vec![1]);
    let da = s.subscribe(a, d, vec![]);
    let db = s.subscribe(b, d, vec![]);
    let (marks, order) = reach_from(&s.subscriptions, 4, c).unwrap();
    assert_eq!(order, vec![c, a, b, d]);
    assert_eq!(marks, vec![true, true, true, true]);
    assert_eq!(s.check(c, &vec![Some(fail(2))], 0, true), Ok(()));
    assert_eq!(s.errors[da], Some(DependencyError::Transitive));
    assert_eq!(s.errors[db], Some(DependencyError::Transitive));
    assert_eq!(s.check(c, &vec![Some(ok(0))], 0, true), Ok(()));
    assert_eq!(s.errors[da], None);
    assert_eq!(s.errors[db], None);
}

#[test]
fn reach_reports_a_dependent_not_installed() {
    let mut s = Store::new();
    let c = s.install(vec![], running(1));
    s.subscribe(c, 7, vec![]);
    assert_eq!(reach_from(&s.subscriptions, 1, c), Err(7));
    assert_eq!(reach_from(&s.subscriptions, 1, 3), Err(3));
}

#[test]
fn commit_on_a_stopped_service_still_propagates() {
    let mut s = Store::new();
    let p = s.install(vec![1], MainStatus::Stopped);
    let d = s.install(vec![], running(1));
    let dp = s.subscribe(p, d, vec![1]);
    let results = vec![CheckEntry { id: 1, result: fail(3) }];
    assert_eq!(s.commit_check(p, &results, true), Ok(()));
    assert_eq!(s.statuses[p], MainStatus::Stopped);
    assert_eq!(s.errors[dp], Some(DependencyError::HealthChecksFailed { failures: results.clone() }));
    assert_eq!(s.commit_check(8, &results, true), Err(HealthError::UnknownService { id: 8 }));
}

#[test]
fn record_health_keeps_the_start_time() {
    let (mut s, p, _, _, _, _) = chain();
    let results = vec![CheckEntry { id: 2, result: ok(5) }];
    s.record_health(p, &results);
    assert_eq!(s.statuses[p], MainStatus::Running { health: results, started: 100 });
}

#[test]
fn heal_leaves_failure_records_of_other_edges() {
    let (mut s, _, d, _, dp, ed) = chain();
    let failures = vec![CheckEntry { id: 7, result: fail(1) }];
    s.errors[ed] = Some(DependencyError::HealthChecksFailed { failures: failures.clone() });
    s.errors[dp] = Some(DependencyError::Transitive);
    assert_eq!(s.heal_transitive(dp), Ok(vec![d]));
    assert_eq!(s.errors[dp], None);
    assert_eq!(s.errors[ed], Some(DependencyError::HealthChecksFailed { failures }));
}
