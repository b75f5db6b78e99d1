use roma::termination::{first_met, CounterCriterion, TerminationCounters};

#[test]
fn max_iterations_termination_triggers() {
    let criterion = CounterCriterion::MaxIterations(3);
    let mut counters = TerminationCounters::new();

    counters.on_snapshot(0, 1, false);
    assert!(!counters.is_met(criterion));

    counters.on_snapshot(1, 2, true);
    assert!(!counters.is_met(criterion));

    counters.on_snapshot(3, 4, true);
    assert!(counters.is_met(criterion));
}

#[test]
fn max_evaluations_termination_triggers() {
    let criterion = CounterCriterion::MaxEvaluations(5);
    let mut counters = TerminationCounters::new();

    counters.on_snapshot(0, 2, false);
    assert!(!counters.is_met(criterion));

    counters.on_snapshot(1, 5, true);
    assert!(counters.is_met(criterion));
}

#[test]
fn no_improvement_termination_triggers() {
    let criterion = CounterCriterion::NoImprovement { patience: 3 };
    let mut counters = TerminationCounters::new();

    // best qualities 1.0, 2.0, 2.0, 2.0, 2.0 under maximization
    counters.on_snapshot(0, 1, false);
    assert!(!counters.is_met(criterion));
    counters.on_snapshot(1, 2, true);
    assert!(!counters.is_met(criterion));
    counters.on_snapshot(2, 3, false);
    assert!(!counters.is_met(criterion));
    counters.on_snapshot(3, 4, false);
    assert!(!counters.is_met(criterion));
    counters.on_snapshot(4, 5, false);
    assert!(counters.is_met(criterion));
}

#[test]
fn first_observation_is_never_an_improvement() {
    let criterion = CounterCriterion::NoImprovement { patience: 2 };
    let mut counters = TerminationCounters::new();
    counters.on_snapshot(5, 1, true);
    assert!(counters.is_met(criterion));
}

#[test]
fn improvement_resets_patience() {
    let criterion = CounterCriterion::NoImprovement { patience: 2 };
    let mut counters = TerminationCounters::new();
    counters.on_snapshot(0, 0, false);
    counters.on_snapshot(1, 0, false);
    counters.on_snapshot(2, 0, false);
    assert!(counters.is_met(criterion));
    counters.on_snapshot(3, 0, true);
    assert!(!counters.is_met(criterion));
}

#[test]
fn counters_can_be_fed_one_by_one() {
    let mut counters = TerminationCounters::new();
    counters.on_iteration(7);
    counters.on_evaluations(40);
    assert!(counters.is_met(CounterCriterion::MaxIterations(7)));
    assert!(!counters.is_met(CounterCriterion::MaxIterations(8)));
    assert!(counters.is_met(CounterCriterion::MaxEvaluations(40)));
    assert!(!counters.is_met(CounterCriterion::MaxEvaluations(41)));
    counters.on_best_quality(false, 7);
    counters.on_best_quality(true, 7);
    assert!(!counters.is_met(CounterCriterion::NoImprovement { patience: 1 }));
}

#[test]
fn first_met_picks_configured_order() {
    assert_eq!(first_met(&[false, true, true]), Some(1));
    assert_eq!(first_met(&[false, false]), None);
    assert_eq!(first_met(&[]), None);
}
