//! Problem-owned comparison results and the scalar comparison rule shared by
//! scalar problems.
use vstd::prelude::*;
use std::cmp::Ordering;

verus! {

/// Optimization direction of a scalar objective.
#[derive(PartialEq, Eq, Structural, Clone, Copy, Debug)]
pub enum ImprovementDirection {
    Maximize,
    Minimize,
}

/// Result of comparing two candidates under a problem's domain rules.
///
/// `Incomparable` is distinct from `Equivalent`: Pareto candidates can be
/// mutually non-dominating without being equal.
#[derive(PartialEq, Eq, Structural, Clone, Copy, Debug)]
pub enum SolutionComparison {
    Better,
    Worse,
    Equivalent,
    Incomparable,
}

impl SolutionComparison {
    /// Ordering for scalar consumers: `Better` sorts first, `Worse` last, and
    /// neither `Equivalent` nor `Incomparable` invents a preference.
    pub fn scalar_ordering(self) -> (r: Ordering)
        ensures
            self == SolutionComparison::Better ==> r == Ordering::Less,
            self == SolutionComparison::Worse ==> r == Ordering::Greater,
            self == SolutionComparison::Equivalent || self == SolutionComparison::Incomparable ==> r
                == Ordering::Equal,
    {
        match self {
            SolutionComparison::Better => Ordering::Less,
            SolutionComparison::Worse => Ordering::Greater,
            SolutionComparison::Equivalent => Ordering::Equal,
            SolutionComparison::Incomparable => Ordering::Equal,
        }
    }

    /// Whether the comparison found the left candidate better.
    pub fn is_better(self) -> (r: bool)
        ensures
            r == (self == SolutionComparison::Better),
    {
        match self {
            SolutionComparison::Better => true,
            _ => false,
        }
    }
}

/// Compares two optional scalar qualities under the preference rule
/// `prefers(a, b)` ("`a` is preferred to `b`").
///
/// Two present qualities give `Better` when the left is preferred, else
/// `Worse` when the right is preferred, else `Equivalent`; a present quality
/// beats a missing one, and two missing ones are `Equivalent`. The rule is
/// asked about the left first and about the right only when the left is not
/// preferred.
pub fn compare_scalar_qualities<Q: Copy, F: Fn(Q, Q) -> bool>(left: Option<Q>, right: Option<Q>, prefers: F) -> (r:
    SolutionComparison)
    requires
        left is Some && right is Some ==> prefers.requires((left->0, right->0)) && prefers.requires(
            (right->0, left->0),
        ),
    ensures
        left is None && right is None ==> r == SolutionComparison::Equivalent,
        left is Some && right is None ==> r == SolutionComparison::Better,
        left is None && right is Some ==> r == SolutionComparison::Worse,
        left is Some && right is Some ==> {
            let (a, b) = (left->0, right->0);
            ||| r == SolutionComparison::Better && prefers.ensures((a, b), true)
            ||| r == SolutionComparison::Worse && prefers.ensures((a, b), false) && prefers.ensures((b, a), true)
            ||| r == SolutionComparison::Equivalent && prefers.ensures((a, b), false) && prefers.ensures(
                (b, a),
                false,
            )
        },
{
    match (left, right) {
        (Some(a), Some(b)) => {
            if prefers(a, b) {
                SolutionComparison::Better
            } else if prefers(b, a) {
                SolutionComparison::Worse
            } else {
                SolutionComparison::Equivalent
            }
        },
        (None, None) => SolutionComparison::Equivalent,
        (Some(_), None) => SolutionComparison::Better,
        (None, Some(_)) => SolutionComparison::Worse,
    }
}

} // verus!
