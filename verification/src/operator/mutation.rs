//! Mutation operators: bit flips for binary strings and swaps for
//! permutations.
use vstd::prelude::*;
use crate::operator::Operator;
use crate::permutation::{is_permutation_of, lemma_swap_is_permutation, swapped};
use crate::solution::Solution;

verus! {

/// `bits` with every position whose mask entry is `true` flipped.
pub open spec fn flipped_by_mask(bits: Seq<bool>, mask: Seq<bool>) -> Seq<bool> {
    Seq::new(bits.len(), |i: int| if mask[i] { !bits[i] } else { bits[i] })
}

/// Bit-flip mutation for binary solutions: each bit is flipped on its own
/// draw against the mutation probability.
pub struct BitFlipMutation {}

impl BitFlipMutation {
    /// Creates the operator.
    pub fn new() -> Self {
        BitFlipMutation {}
    }

    /// Applies the mutation.
    ///
    /// `flips` is `None` when the mutation probability is not positive: the
    /// solution is then left untouched, quality included. Otherwise it holds,
    /// for every bit, whether that bit's draw fell below the probability; the
    /// marked bits are flipped and the quality is cleared.
    pub fn execute<Q>(&self, solution: &mut Solution<bool, Q>, flips: Option<&[bool]>)
        requires
            flips matches Some(mask) ==> mask@.len() == old(solution).spec_variables().len(),
        ensures
            flips is None ==> *final(solution) == *old(solution),
            flips matches Some(mask) ==> {
                &&& final(solution).spec_variables() == flipped_by_mask(old(solution).spec_variables(), mask@)
                &&& final(solution).spec_quality() is None
            },
    {
        match flips {
            None => {},
            Some(mask) => {
                let variables = solution.variables_mut();
                let ghost initial = variables@;
                let mut i: usize = 0;
                while i < variables.len()
                    invariant
                        i <= variables@.len(),
                        variables@.len() == initial.len(),
                        mask@.len() == initial.len(),
                        forall|k: int| 0 <= k < i ==> variables@[k] == (if mask@[k] { !initial[k] } else { initial[k] }),
                        forall|k: int| i <= k < variables@.len() ==> variables@[k] == initial[k],
                    decreases variables@.len() - i,
                {
                    if mask[i] {
                        let flipped = !variables[i];
                        variables[i] = flipped;
                    }
                    i = i + 1;
                }
                assert(variables@ =~= flipped_by_mask(initial, mask@));
            },
        }
    }
}

impl Operator for BitFlipMutation {
    fn name(&self) -> (r: &str)
        ensures
            r@ == "BitFlipMutation"@,
    {
        "BitFlipMutation"
    }
}

impl Default for BitFlipMutation {
    fn default() -> Self {
        Self::new()
    }
}

/// Second position of a swap: the drawn `j`, moved one step (cyclically) when
/// it equals `i`.
pub open spec fn distinct_partner(i: int, j: int, n: int) -> int {
    if j != i {
        j
    } else if j + 1 == n {
        0
    } else {
        j + 1
    }
}

/// Computes [`distinct_partner`].
pub fn distinct_partner_of(i: usize, j: usize, n: usize) -> (r: usize)
    requires
        i < n,
        j < n,
    ensures
        r == distinct_partner(i as int, j as int, n as int),
        r < n,
        n > 1 ==> r != i,
{
    if j == i {
        if j + 1 == n { 0 } else { j + 1 }
    } else {
        j
    }
}

/// Swap mutation for permutation solutions: exchanges two distinct positions.
pub struct SwapMutation {}

impl SwapMutation {
    /// Creates the operator.
    pub fn new() -> Self {
        SwapMutation {}
    }

    /// Applies the mutation.
    ///
    /// Solutions with fewer than two variables are left untouched and no draw
    /// is made. `positions` is `None` when the probability draw did not fall
    /// below the (clamped) mutation probability; the solution is then left
    /// untouched too. Otherwise it holds the two position draws `(i, j)`, both
    /// below the number of variables; `j` is replaced by its
    /// [`distinct_partner`], the two positions are swapped and the quality is
    /// cleared.
    pub fn execute<Q>(&self, solution: &mut Solution<usize, Q>, positions: Option<(usize, usize)>)
        requires
            old(solution).spec_variables().len() >= 2 ==> (positions matches Some((i, j)) ==> i
                < old(solution).spec_variables().len() && j < old(solution).spec_variables().len()),
        ensures
            old(solution).spec_variables().len() < 2 || positions is None ==> *final(solution) == *old(solution),
            old(solution).spec_variables().len() >= 2 ==> (positions matches Some((i, j)) ==> {
                let n = old(solution).spec_variables().len() as int;
                &&& final(solution).spec_variables() == swapped(
                    old(solution).spec_variables(),
                    i as int,
                    distinct_partner(i as int, j as int, n),
                )
                &&& final(solution).spec_quality() is None
            }),
            is_permutation_of(old(solution).spec_variables(), final(solution).spec_variables()),
    {
        let n = solution.num_variables();
        if n < 2 {
            return;
        }
        match positions {
            None => {},
            Some((i, j)) => {
                let j = distinct_partner_of(i, j, n);
                proof {
                    lemma_swap_is_permutation(solution.spec_variables(), i as int, j as int);
                }
                let _ = solution.swap_variables(i, j);
            },
        }
    }
}

impl Operator for SwapMutation {
    fn name(&self) -> (r: &str)
        ensures
            r@ == "SwapMutation"@,
    {
        "SwapMutation"
    }
}

impl Default for SwapMutation {
    fn default() -> Self {
        Self::new()
    }
}

} // verus!
