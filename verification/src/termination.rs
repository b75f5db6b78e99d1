//! Progress counters behind the stopping criteria of the search algorithms.
//!
//! The counters track iterations, evaluations and improvements of the best
//! quality; whether a new best quality improves on the previous one is
//! decided by the problem's scalar preference and handed in as a verdict.
use vstd::prelude::*;

verus! {

/// A stopping criterion judged on the progress counters alone.
#[derive(PartialEq, Eq, Structural, Clone, Copy, Debug)]
pub enum CounterCriterion {
    /// Stop once the iteration count reaches the bound.
    MaxIterations(usize),
    /// Stop once the evaluation count reaches the bound.
    MaxEvaluations(usize),
    /// Stop once `patience` iterations have passed since the last
    /// improvement of the best quality.
    NoImprovement { patience: usize },
}

/// Progress counters of a run.
pub struct TerminationCounters {
    current_iterations: usize,
    current_evaluations: usize,
    observed_qualities: usize,
    last_improvement_iteration: usize,
}

impl TerminationCounters {
    /// Current iteration count.
    pub closed spec fn iterations(&self) -> usize {
        self.current_iterations
    }

    /// Current evaluation count.
    pub closed spec fn evaluations(&self) -> usize {
        self.current_evaluations
    }

    /// Number of best qualities observed so far.
    pub closed spec fn observed(&self) -> usize {
        self.observed_qualities
    }

    /// Iteration of the last improvement of the best quality (zero before
    /// any).
    pub closed spec fn last_improvement(&self) -> usize {
        self.last_improvement_iteration
    }

    /// Counters at the start of a run: everything zero.
    pub fn new() -> (r: Self)
        ensures
            r.iterations() == 0,
            r.evaluations() == 0,
            r.observed() == 0,
            r.last_improvement() == 0,
    {
        TerminationCounters {
            current_iterations: 0,
            current_evaluations: 0,
            observed_qualities: 0,
            last_improvement_iteration: 0,
        }
    }

    /// Records the current iteration count.
    pub fn on_iteration(&mut self, iteration: usize)
        ensures
            final(self).iterations() == iteration,
            final(self).evaluations() == old(self).evaluations(),
            final(self).observed() == old(self).observed(),
            final(self).last_improvement() == old(self).last_improvement(),
    {
        self.current_iterations = iteration;
    }

    /// Records the current evaluation count.
    pub fn on_evaluations(&mut self, evaluations: usize)
        ensures
            final(self).evaluations() == evaluations,
            final(self).iterations() == old(self).iterations(),
            final(self).observed() == old(self).observed(),
            final(self).last_improvement() == old(self).last_improvement(),
    {
        self.current_evaluations = evaluations;
    }

    /// Records a newly observed best quality at `iteration`; `improved` tells
    /// whether it is better than the previously observed one (it is ignored
    /// for the first observation, which has no predecessor).
    pub fn on_best_quality(&mut self, improved: bool, iteration: usize)
        requires
            old(self).observed() < usize::MAX,
        ensures
            final(self).observed() == old(self).observed() + 1,
            final(self).last_improvement() == if old(self).observed() >= 1 && improved {
                iteration
            } else {
                old(self).last_improvement()
            },
            final(self).iterations() == old(self).iterations(),
            final(self).evaluations() == old(self).evaluations(),
    {
        self.observed_qualities = self.observed_qualities + 1;
        if self.observed_qualities > 1 && improved {
            self.last_improvement_iteration = iteration;
        }
    }

    /// Records a progress snapshot: iteration, evaluations and best quality.
    pub fn on_snapshot(&mut self, iteration: usize, evaluations: usize, improved: bool)
        requires
            old(self).observed() < usize::MAX,
        ensures
            final(self).iterations() == iteration,
            final(self).evaluations() == evaluations,
            final(self).observed() == old(self).observed() + 1,
            final(self).last_improvement() == if old(self).observed() >= 1 && improved {
                iteration
            } else {
                old(self).last_improvement()
            },
    {
        self.on_iteration(iteration);
        self.on_evaluations(evaluations);
        self.on_best_quality(improved, iteration);
    }

    /// Whether `criterion` is met by the counters.
    pub fn is_met(&self, criterion: CounterCriterion) -> (b: bool)
        ensures
            b == counter_criterion_met(
                criterion,
                self.iterations(),
                self.evaluations(),
                self.last_improvement(),
            ),
    {
        match criterion {
            CounterCriterion::MaxIterations(max) => self.current_iterations >= max,
            CounterCriterion::MaxEvaluations(max) => self.current_evaluations >= max,
            CounterCriterion::NoImprovement { patience } => {
                let since = if self.current_iterations >= self.last_improvement_iteration {
                    self.current_iterations - self.last_improvement_iteration
                } else {
                    0
                };
                since >= patience
            },
        }
    }
}

/// Whether `criterion` is met by the given counters; the iterations since
/// the last improvement saturate at zero.
pub open spec fn counter_criterion_met(
    criterion: CounterCriterion,
    iterations: usize,
    evaluations: usize,
    last_improvement: usize,
) -> bool {
    match criterion {
        CounterCriterion::MaxIterations(max) => iterations >= max,
        CounterCriterion::MaxEvaluations(max) => evaluations >= max,
        CounterCriterion::NoImprovement { patience } => (if iterations >= last_improvement {
            iterations - last_improvement
        } else {
            0
        }) >= patience,
    }
}

/// The criterion that stops a run: the first one met, in configured order.
pub fn first_met(verdicts: &[bool]) -> (r: Option<usize>)
    ensures
        r matches Some(i) ==> i < verdicts@.len() && verdicts@[i as int] && forall|k: int| 0 <= k < i ==> !verdicts@[k],
        r is None ==> forall|k: int| 0 <= k < verdicts@.len() ==> !verdicts@[k],
{
    let mut i: usize = 0;
    while i < verdicts.len()
        invariant
            i <= verdicts@.len(),
            forall|k: int| 0 <= k < i ==> !verdicts@[k],
        decreases verdicts@.len() - i,
    {
        if verdicts[i] {
            return Some(i);
        }
        i = i + 1;
    }
    None
}

/// Bounds only tighten their hold: once an iteration or evaluation bound is
/// met, it stays met as the counts grow.
pub proof fn lemma_bounds_stay_met(
    criterion: CounterCriterion,
    iterations: usize,
    evaluations: usize,
    more_iterations: usize,
    more_evaluations: usize,
    last_improvement: usize,
)
    requires
        iterations <= more_iterations,
        evaluations <= more_evaluations,
        !(criterion is NoImprovement),
        counter_criterion_met(criterion, iterations, evaluations, last_improvement),
    ensures
        counter_criterion_met(criterion, more_iterations, more_evaluations, last_improvement),
{
}

/// An improvement resets the no-improvement clock: right after it, a
/// positive patience is not yet exhausted.
pub proof fn lemma_improvement_resets_patience(iteration: usize, patience: usize, evaluations: usize)
    requires
        patience > 0,
    ensures
        !counter_criterion_met(CounterCriterion::NoImprovement { patience }, iteration, evaluations, iteration),
{
}

} // verus!
