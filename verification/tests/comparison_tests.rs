use roma::comparison::{compare_scalar_qualities, ImprovementDirection, SolutionComparison};
use std::cmp::Ordering;

#[test]
fn scalar_ordering_maps_each_variant() {
    assert_eq!(SolutionComparison::Better.scalar_ordering(), Ordering::Less);
    assert_eq!(SolutionComparison::Worse.scalar_ordering(), Ordering::Greater);
    assert_eq!(SolutionComparison::Equivalent.scalar_ordering(), Ordering::Equal);
    assert_eq!(SolutionComparison::Incomparable.scalar_ordering(), Ordering::Equal);
}

#[test]
fn is_better_only_for_better() {
    assert!(SolutionComparison::Better.is_better());
    assert!(!SolutionComparison::Worse.is_better());
    assert!(!SolutionComparison::Equivalent.is_better());
    assert!(!SolutionComparison::Incomparable.is_better());
}

#[test]
fn compare_scalar_qualities_follows_preference() {
    let maximize = |a: f64, b: f64| a > b;
    assert_eq!(compare_scalar_qualities(Some(2.0), Some(1.0), maximize), SolutionComparison::Better);
    assert_eq!(compare_scalar_qualities(Some(1.0), Some(2.0), maximize), SolutionComparison::Worse);
    assert_eq!(compare_scalar_qualities(Some(1.0), Some(1.0), maximize), SolutionComparison::Equivalent);
    assert_eq!(compare_scalar_qualities(Some(1.0), None, maximize), SolutionComparison::Better);
    assert_eq!(compare_scalar_qualities(None, Some(1.0), maximize), SolutionComparison::Worse);
    assert_eq!(compare_scalar_qualities::<f64, _>(None, None, maximize), SolutionComparison::Equivalent);
}

#[test]
fn improvement_directions_are_distinct() {
    assert_ne!(ImprovementDirection::Maximize, ImprovementDirection::Minimize);
}
