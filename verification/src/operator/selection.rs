//! Tournament selection operators.
use vstd::prelude::*;
use crate::operator::Operator;
use crate::solution::Solution;

verus! {

/// Binary tournament selection: two distinct individuals are drawn and the
/// second wins only when it dominates the first.
pub struct BinaryTournamentSelection {}

impl BinaryTournamentSelection {
    /// Creates the operator.
    pub fn new() -> Self {
        BinaryTournamentSelection {}
    }

    /// Runs one tournament.
    ///
    /// The population must not be empty. With one individual, that individual
    /// is returned and no draw is made. Otherwise `index1` and `index2` are the
    /// drawn contestants (the second draw repeated until it differs from the
    /// first), and `dominates(a, b)` decides whether `a` beats `b`.
    pub fn execute<'a, T, Q, F: Fn(&Solution<T, Q>, &Solution<T, Q>) -> bool>(
        &self,
        population: &'a [Solution<T, Q>],
        index1: usize,
        index2: usize,
        dominates: F,
    ) -> (r: &'a Solution<T, Q>)
        requires
            population@.len() > 0,
            population@.len() > 1 ==> {
                &&& index1 < population@.len()
                &&& index2 < population@.len()
                &&& index1 != index2
                &&& dominates.requires((&population@[index2 as int], &population@[index1 as int]))
            },
        ensures
            population@.len() == 1 ==> *r == population@[0],
            population@.len() > 1 ==> {
                ||| *r == population@[index2 as int] && dominates.ensures(
                    (&population@[index2 as int], &population@[index1 as int]),
                    true,
                )
                ||| *r == population@[index1 as int] && dominates.ensures(
                    (&population@[index2 as int], &population@[index1 as int]),
                    false,
                )
            },
    {
        if population.len() == 1 {
            return &population[0];
        }
        let individual1 = &population[index1];
        let individual2 = &population[index2];
        if dominates(individual2, individual1) {
            individual2
        } else {
            individual1
        }
    }
}

impl Operator for BinaryTournamentSelection {
    fn name(&self) -> (r: &str)
        ensures
            r@ == "BinaryTournamentSelection"@,
    {
        "BinaryTournamentSelection"
    }
}

impl Default for BinaryTournamentSelection {
    fn default() -> Self {
        Self::new()
    }
}

/// One of the two contestants of a tournament.
#[derive(PartialEq, Eq, Structural, Clone, Copy, Debug)]
pub enum Contestant {
    First,
    Second,
}

/// Preference of the multi-objective tournament, when it is decided without
/// a coin toss: lower rank (a missing rank counting as `usize::MAX`), then
/// larger crowding distance, then Pareto dominance.
pub open spec fn multi_objective_preference(
    rank1: Option<usize>,
    rank2: Option<usize>,
    larger_crowding: Option<Contestant>,
    first_dominates: bool,
    second_dominates: bool,
) -> Option<Contestant> {
    let r1 = match rank1 {
        Some(r) => r,
        None => usize::MAX,
    };
    let r2 = match rank2 {
        Some(r) => r,
        None => usize::MAX,
    };
    if r1 < r2 {
        Some(Contestant::First)
    } else if r2 < r1 {
        Some(Contestant::Second)
    } else if larger_crowding is Some {
        larger_crowding
    } else if first_dominates {
        Some(Contestant::First)
    } else if second_dominates {
        Some(Contestant::Second)
    } else {
        None
    }
}

/// Binary tournament for multi-objective populations annotated with Pareto
/// rank and crowding distance.
pub struct MultiObjectiveTournamentSelection {}

impl MultiObjectiveTournamentSelection {
    /// Creates the operator.
    pub fn new() -> Self {
        MultiObjectiveTournamentSelection {}
    }

    /// Decides a tournament between two drawn contestants.
    ///
    /// `larger_crowding` names the contestant whose crowding distance (a
    /// missing one counting as zero) is strictly larger, if any;
    /// `first_dominates` and `second_dominates` are the Pareto-dominance
    /// verdicts. `None` means the contestants are incomparable on all three
    /// and the winner is left to a fair coin.
    pub fn preference(
        &self,
        rank1: Option<usize>,
        rank2: Option<usize>,
        larger_crowding: Option<Contestant>,
        first_dominates: bool,
        second_dominates: bool,
    ) -> (r: Option<Contestant>)
        ensures
            r == multi_objective_preference(rank1, rank2, larger_crowding, first_dominates, second_dominates),
    {
        let r1 = match rank1 {
            Some(r) => r,
            None => usize::MAX,
        };
        let r2 = match rank2 {
            Some(r) => r,
            None => usize::MAX,
        };
        if r1 < r2 {
            Some(Contestant::First)
        } else if r2 < r1 {
            Some(Contestant::Second)
        } else if larger_crowding.is_some() {
            larger_crowding
        } else if first_dominates {
            Some(Contestant::First)
        } else if second_dominates {
            Some(Contestant::Second)
        } else {
            None
        }
    }
}

impl Operator for MultiObjectiveTournamentSelection {
    fn name(&self) -> (r: &str)
        ensures
            r@ == "Multi-Objective Tournament Selection"@,
    {
        "Multi-Objective Tournament Selection"
    }
}

impl Default for MultiObjectiveTournamentSelection {
    fn default() -> Self {
        Self::new()
    }
}

/// Between contestants of equal rank (a missing rank counting as
/// `usize::MAX`), on any front, the one with the strictly larger crowding
/// distance wins; without one, a dominating contestant wins; otherwise the
/// tournament is left to chance.
pub proof fn lemma_rank_ties_broken_by_crowding_then_dominance(
    rank1: Option<usize>,
    rank2: Option<usize>,
    larger_crowding: Option<Contestant>,
    first_dominates: bool,
    second_dominates: bool,
)
    requires
        (match rank1 {
            Some(r) => r,
            None => usize::MAX,
        }) == (match rank2 {
            Some(r) => r,
            None => usize::MAX,
        }),
    ensures
        larger_crowding is Some ==> multi_objective_preference(
            rank1,
            rank2,
            larger_crowding,
            first_dominates,
            second_dominates,
        ) == larger_crowding,
        larger_crowding is None && first_dominates ==> multi_objective_preference(
            rank1,
            rank2,
            larger_crowding,
            first_dominates,
            second_dominates,
        ) == Some(Contestant::First),
        larger_crowding is None && !first_dominates && second_dominates ==> multi_objective_preference(
            rank1,
            rank2,
            larger_crowding,
            first_dominates,
            second_dominates,
        ) == Some(Contestant::Second),
        larger_crowding is None && !first_dominates && !second_dominates ==> multi_objective_preference(
            rank1,
            rank2,
            larger_crowding,
            first_dominates,
            second_dominates,
        ) is None,
{
}

/// A better Pareto rank always wins the multi-objective tournament, whatever
/// the crowding distances and dominance verdicts.
pub proof fn lemma_lower_rank_wins(
    rank1: usize,
    rank2: usize,
    larger_crowding: Option<Contestant>,
    first_dominates: bool,
    second_dominates: bool,
)
    requires
        rank1 < rank2,
    ensures
        multi_objective_preference(Some(rank1), Some(rank2), larger_crowding, first_dominates, second_dominates)
            == Some(Contestant::First),
        multi_objective_preference(Some(rank2), Some(rank1), larger_crowding, second_dominates, first_dominates)
            == Some(Contestant::Second),
{
}

/// The multi-objective tournament treats its contestants symmetrically:
/// exchanging them exchanges the winner.
pub proof fn lemma_preference_symmetric(
    rank1: Option<usize>,
    rank2: Option<usize>,
    larger_crowding: Option<Contestant>,
    first_dominates: bool,
    second_dominates: bool,
)
    requires
        !(first_dominates && second_dominates),
    ensures
        ({
            let swapped_crowding = match larger_crowding {
                Some(Contestant::First) => Some(Contestant::Second),
                Some(Contestant::Second) => Some(Contestant::First),
                None => None,
            };
            let forward = multi_objective_preference(rank1, rank2, larger_crowding, first_dominates, second_dominates);
            let backward = multi_objective_preference(rank2, rank1, swapped_crowding, second_dominates, first_dominates);
            match forward {
                Some(Contestant::First) => backward == Some(Contestant::Second),
                Some(Contestant::Second) => backward == Some(Contestant::First),
                None => backward is None,
            }
        }),
{
}

} // verus!
