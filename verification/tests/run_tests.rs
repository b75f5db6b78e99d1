use roma::run::{run_transition, RunAction, RunEvent, RunPhase};

#[test]
fn failed_validation_fails_at_once() {
    let (phase, actions) = run_transition(RunPhase::Validating, RunEvent::Validated(Err("bad".to_string())), 10);
    assert_eq!(phase, RunPhase::Done);
    assert_eq!(actions, vec![RunAction::Fail("bad".to_string())]);
}

#[test]
fn passed_validation_reports_initial_snapshot() {
    let (phase, actions) = run_transition(RunPhase::Validating, RunEvent::Validated(Ok(())), 10);
    assert_eq!(phase, RunPhase::AwaitingCheck);
    assert_eq!(actions, vec![RunAction::WriteCheckpoint, RunAction::ReportSnapshot]);
}

#[test]
fn termination_finishes_the_run() {
    let (phase, actions) = run_transition(RunPhase::AwaitingCheck, RunEvent::TerminationChecked(true), 10);
    assert_eq!(phase, RunPhase::Done);
    assert_eq!(
        actions,
        vec![
            RunAction::DeleteCheckpoint,
            RunAction::Finalize,
            RunAction::RestoreObservers,
            RunAction::StoreSolutionSet
        ]
    );
}

#[test]
fn running_on_steps_and_checkpoints_periodically() {
    let (phase, actions) = run_transition(RunPhase::AwaitingCheck, RunEvent::TerminationChecked(false), 10);
    assert_eq!(phase, RunPhase::AwaitingStep);
    assert_eq!(actions, vec![RunAction::Step]);

    let (phase, actions) = run_transition(RunPhase::AwaitingStep, RunEvent::Stepped { iteration: 7 }, 10);
    assert_eq!(phase, RunPhase::AwaitingCheck);
    assert_eq!(actions, vec![RunAction::ReportSnapshot]);

    let (_, actions) = run_transition(RunPhase::AwaitingStep, RunEvent::Stepped { iteration: 20 }, 10);
    assert_eq!(actions, vec![RunAction::WriteCheckpoint, RunAction::ReportSnapshot]);

    let (_, actions) = run_transition(RunPhase::AwaitingStep, RunEvent::Stepped { iteration: 20 }, 0);
    assert_eq!(actions, vec![RunAction::ReportSnapshot]);
}

#[test]
fn unexpected_events_change_nothing() {
    let (phase, actions) = run_transition(RunPhase::Done, RunEvent::TerminationChecked(false), 10);
    assert_eq!(phase, RunPhase::Done);
    assert!(actions.is_empty());
    let (phase, actions) = run_transition(RunPhase::AwaitingStep, RunEvent::TerminationChecked(true), 10);
    assert_eq!(phase, RunPhase::AwaitingStep);
    assert!(actions.is_empty());
}
