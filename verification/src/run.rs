//! The run lifecycle shared by every algorithm: validate the parameters,
//! report the initial snapshot, then alternately check termination and
//! step, writing checkpoints at a fixed period, and finally finalize.
//!
//! The lifecycle is a state machine: the caller performs the actions and
//! reports what happened as events.
use vstd::prelude::*;

verus! {

/// Where a run stands.
#[derive(PartialEq, Eq, Structural, Clone, Copy, Debug)]
pub enum RunPhase {
    /// The parameters are being checked.
    Validating,
    /// A snapshot was reported; termination is to be checked.
    AwaitingCheck,
    /// A step was asked for; its iteration is awaited.
    AwaitingStep,
    /// The run is over.
    Done,
}

/// What happened since the last actions.
#[derive(PartialEq, Eq, Debug)]
pub enum RunEvent {
    /// The parameter check's verdict.
    Validated(Result<(), String>),
    /// The termination criteria were evaluated on the last snapshot.
    TerminationChecked(bool),
    /// A step was taken; the snapshot after it is at `iteration`.
    Stepped { iteration: usize },
}

/// What the caller is to do, in order.
#[derive(PartialEq, Eq, Debug)]
pub enum RunAction {
    /// Stop with this error, before any event reaches the observers.
    Fail(String),
    /// Build the current snapshot and report it to the observers.
    ReportSnapshot,
    /// Persist a checkpoint of the current state.
    WriteCheckpoint,
    /// Take one step of the algorithm.
    Step,
    /// Remove the checkpoint of a run that completed.
    DeleteCheckpoint,
    /// Turn the state into the solution set.
    Finalize,
    /// Give the observers back to the algorithm.
    RestoreObservers,
    /// Keep the solution set as the algorithm's last result.
    StoreSolutionSet,
}

/// A checkpoint is due after the step that reaches `iteration`.
pub open spec fn checkpoint_due(iteration: usize, checkpoint_every: usize) -> bool {
    checkpoint_every > 0 && iteration % checkpoint_every == 0
}

/// The lifecycle's transitions: a failed check ends the run with its error;
/// a passed one writes the initial checkpoint and reports the initial
/// snapshot; a termination check either ends the run (removing its
/// checkpoint, finalizing, giving the observers back and storing the
/// result) or asks for a step; a step writes a checkpoint when one is due
/// and reports its snapshot. Any other event leaves the run as it is.
pub open spec fn run_step(phase: RunPhase, event: RunEvent, checkpoint_every: usize) -> (RunPhase, Seq<RunAction>) {
    match (phase, event) {
        (RunPhase::Validating, RunEvent::Validated(Err(e))) => (RunPhase::Done, seq![RunAction::Fail(e)]),
        (RunPhase::Validating, RunEvent::Validated(Ok(()))) => (
            RunPhase::AwaitingCheck,
            seq![RunAction::WriteCheckpoint, RunAction::ReportSnapshot],
        ),
        (RunPhase::AwaitingCheck, RunEvent::TerminationChecked(true)) => (
            RunPhase::Done,
            seq![
                RunAction::DeleteCheckpoint,
                RunAction::Finalize,
                RunAction::RestoreObservers,
                RunAction::StoreSolutionSet,
            ],
        ),
        (RunPhase::AwaitingCheck, RunEvent::TerminationChecked(false)) => (
            RunPhase::AwaitingStep,
            seq![RunAction::Step],
        ),
        (RunPhase::AwaitingStep, RunEvent::Stepped { iteration }) => (
            RunPhase::AwaitingCheck,
            if checkpoint_due(iteration, checkpoint_every) {
                seq![RunAction::WriteCheckpoint, RunAction::ReportSnapshot]
            } else {
                seq![RunAction::ReportSnapshot]
            },
        ),
        (p, _) => (p, Seq::empty()),
    }
}

/// One transition of the run lifecycle (see [`run_step`]).
pub fn run_transition(phase: RunPhase, event: RunEvent, checkpoint_every: usize) -> (r: (RunPhase, Vec<RunAction>))
    ensures
        r.0 == run_step(phase, event, checkpoint_every).0,
        r.1@ == run_step(phase, event, checkpoint_every).1,
{
    let mut actions: Vec<RunAction> = Vec::new();
    match (phase, event) {
        (RunPhase::Validating, RunEvent::Validated(Err(e))) => {
            actions.push(RunAction::Fail(e));
            assert(actions@ =~= run_step(phase, event, checkpoint_every).1);
            (RunPhase::Done, actions)
        },
        (RunPhase::Validating, RunEvent::Validated(Ok(()))) => {
            actions.push(RunAction::WriteCheckpoint);
            actions.push(RunAction::ReportSnapshot);
            assert(actions@ =~= run_step(phase, event, checkpoint_every).1);
            (RunPhase::AwaitingCheck, actions)
        },
        (RunPhase::AwaitingCheck, RunEvent::TerminationChecked(terminate)) => {
            if terminate {
                actions.push(RunAction::DeleteCheckpoint);
                actions.push(RunAction::Finalize);
                actions.push(RunAction::RestoreObservers);
                actions.push(RunAction::StoreSolutionSet);
                assert(actions@ =~= run_step(phase, event, checkpoint_every).1);
                (RunPhase::Done, actions)
            } else {
                actions.push(RunAction::Step);
                assert(actions@ =~= run_step(phase, event, checkpoint_every).1);
                (RunPhase::AwaitingStep, actions)
            }
        },
        (RunPhase::AwaitingStep, RunEvent::Stepped { iteration }) => {
            if checkpoint_every > 0 && iteration % checkpoint_every == 0 {
                actions.push(RunAction::WriteCheckpoint);
            }
            actions.push(RunAction::ReportSnapshot);
            assert(actions@ =~= run_step(phase, event, checkpoint_every).1);
            (RunPhase::AwaitingCheck, actions)
        },
        (p, _) => {
            assert(actions@ =~= run_step(phase, event, checkpoint_every).1);
            (p, actions)
        },
    }
}

/// A failed parameter check is the first and only thing that happens: no
/// snapshot is reported and the observers are never involved.
pub proof fn lemma_failed_validation_stops_at_once(e: String, checkpoint_every: usize)
    ensures
        run_step(RunPhase::Validating, RunEvent::Validated(Err(e)), checkpoint_every) == (
            RunPhase::Done,
            seq![RunAction::Fail(e)],
        ),
{
}

/// A finished run stays finished: no event leads to any further action.
pub proof fn lemma_done_is_final(event: RunEvent, checkpoint_every: usize)
    ensures
        run_step(RunPhase::Done, event, checkpoint_every) == (RunPhase::Done, Seq::<RunAction>::empty()),
{
}

/// Every step is followed by a report of its snapshot, and then by a
/// termination check: the run never steps twice without reporting.
pub proof fn lemma_step_is_reported(iteration: usize, checkpoint_every: usize)
    ensures
        ({
            let (next, actions) = run_step(RunPhase::AwaitingStep, RunEvent::Stepped { iteration }, checkpoint_every);
            &&& next == RunPhase::AwaitingCheck
            &&& actions.last() == RunAction::ReportSnapshot
            &&& actions.len() >= 1
        }),
{
}

/// A checkpoint is written after a step exactly when one is due: the
/// period is positive and divides the step's iteration.
pub proof fn lemma_checkpoint_iff_due(iteration: usize, checkpoint_every: usize)
    ensures
        run_step(RunPhase::AwaitingStep, RunEvent::Stepped { iteration }, checkpoint_every).1.contains(
            RunAction::WriteCheckpoint,
        ) <==> (checkpoint_every > 0 && iteration % checkpoint_every == 0),
{
    let actions = run_step(RunPhase::AwaitingStep, RunEvent::Stepped { iteration }, checkpoint_every).1;
    if checkpoint_due(iteration, checkpoint_every) {
        assert(actions[0] == RunAction::WriteCheckpoint);
    } else {
        assert(actions =~= seq![RunAction::ReportSnapshot]);
        if actions.contains(RunAction::WriteCheckpoint) {
            let k = choose|k: int| 0 <= k < actions.len() && actions[k] == RunAction::WriteCheckpoint;
            assert(actions[k] == RunAction::ReportSnapshot);
        }
    }
}

/// A run that terminates hands its result back only after finalizing it,
/// and gives the observers back before storing the solution set; nothing
/// follows.
pub proof fn lemma_termination_finalizes_then_stores(checkpoint_every: usize, event: RunEvent)
    ensures
        ({
            let (next, actions) = run_step(RunPhase::AwaitingCheck, RunEvent::TerminationChecked(true), checkpoint_every);
            &&& next == RunPhase::Done
            &&& actions.len() == 4
            &&& actions[1] == RunAction::Finalize
            &&& actions[2] == RunAction::RestoreObservers
            &&& actions[3] == RunAction::StoreSolutionSet
            &&& run_step(next, event, checkpoint_every).1.len() == 0
        }),
{
}

} // verus!
