//! Variation, neighborhood, selection and memory operators.
//!
//! Every operator here is deterministic: the random draws that the search
//! algorithms make (cut points, positions, coin flips) are arguments, and each
//! contract states the result for every admissible draw.
use vstd::prelude::*;

pub mod crossover;
pub mod mutation;
pub mod neighborhood;
pub mod selection;
pub mod tabu;

verus! {

/// Base trait for all operators.
pub trait Operator {
    /// Name of the operator, for logs and reports.
    fn name(&self) -> (r: &str);
}

} // verus!
