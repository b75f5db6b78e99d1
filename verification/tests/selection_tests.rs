use roma::operator::selection::{BinaryTournamentSelection, Contestant, MultiObjectiveTournamentSelection};
use roma::operator::Operator;
use roma::solution::Solution;

fn quality_of(solution: &Solution<bool, f64>) -> f64 {
    *solution.quality().unwrap()
}

fn maximizing(a: &Solution<bool, f64>, b: &Solution<bool, f64>) -> bool {
    quality_of(a) > quality_of(b)
}

fn minimizing(a: &Solution<bool, f64>, b: &Solution<bool, f64>) -> bool {
    quality_of(a) < quality_of(b)
}

fn with_quality(bits: Vec<bool>, quality: f64) -> Solution<bool, f64> {
    let mut s = Solution::new(bits);
    s.set_quality(quality);
    s
}

#[test]
fn test_binary_tournament_name() {
    let selection = BinaryTournamentSelection::new();
    assert_eq!(selection.name(), "BinaryTournamentSelection");
}

#[test]
fn test_binary_tournament_selection() {
    let selection = BinaryTournamentSelection::new();
    let population = vec![with_quality(vec![false; 5], 10.0), with_quality(vec![true; 5], 5.0)];

    for (i, j) in [(0, 1), (1, 0)] {
        let selected = selection.execute(&population, i, j, maximizing);
        assert_eq!(quality_of(selected), 10.0);
    }
}

#[test]
fn test_binary_tournament_selection_with_only_one() {
    let selection = BinaryTournamentSelection::new();
    let fitness = 10.0;
    let population = vec![with_quality(vec![false; 5], fitness)];

    let selected = selection.execute(&population, 0, 0, maximizing);

    assert_eq!(quality_of(selected), fitness);
}

#[test]
fn test_binary_tournament_selection_minimization() {
    let selection = BinaryTournamentSelection::new();
    let population = vec![with_quality(vec![false; 5], 10.0), with_quality(vec![true; 5], 5.0)];

    for (i, j) in [(0, 1), (1, 0)] {
        let selected = selection.execute(&population, i, j, minimizing);
        assert_eq!(quality_of(selected), 5.0);
    }
}

#[test]
fn binary_tournament_keeps_first_contestant_on_ties() {
    let selection = BinaryTournamentSelection::default();
    let population = vec![with_quality(vec![false], 1.0), with_quality(vec![true], 1.0)];
    let selected = selection.execute(&population, 1, 0, maximizing);
    assert_eq!(selected.variables(), &[true]);
}

#[test]
fn multi_objective_tournament_selection_name_is_exposed() {
    let selection = MultiObjectiveTournamentSelection::new();
    assert_eq!(selection.name(), "Multi-Objective Tournament Selection");
}

#[test]
fn prefers_lower_rank() {
    let selection = MultiObjectiveTournamentSelection::new();
    assert_eq!(selection.preference(Some(0), Some(1), None, true, false), Some(Contestant::First));
    assert_eq!(selection.preference(Some(1), Some(0), None, false, true), Some(Contestant::Second));
}

#[test]
fn uses_crowding_distance_when_rank_ties() {
    let selection = MultiObjectiveTournamentSelection::new();
    assert_eq!(
        selection.preference(Some(0), Some(0), Some(Contestant::First), false, false),
        Some(Contestant::First)
    );
    assert_eq!(
        selection.preference(Some(0), Some(0), Some(Contestant::Second), true, false),
        Some(Contestant::Second)
    );
}

#[test]
fn falls_back_to_dominance_when_rank_and_crowding_are_missing() {
    let selection = MultiObjectiveTournamentSelection::new();
    assert_eq!(selection.preference(None, None, None, true, false), Some(Contestant::First));
    assert_eq!(selection.preference(None, None, None, false, true), Some(Contestant::Second));
}

#[test]
fn missing_rank_counts_as_worst() {
    let selection = MultiObjectiveTournamentSelection::new();
    assert_eq!(selection.preference(None, Some(7), None, true, false), Some(Contestant::Second));
}

#[test]
fn breaks_non_dominated_ties_without_bias_to_second() {
    let selection = MultiObjectiveTournamentSelection::new();
    assert_eq!(selection.preference(Some(0), Some(0), None, false, false), None);
}

#[test]
fn preference_does_not_depend_on_contestant_order() {
    let selection = MultiObjectiveTournamentSelection::new();
    let swap = |c: Option<Contestant>| match c {
        Some(Contestant::First) => Some(Contestant::Second),
        Some(Contestant::Second) => Some(Contestant::First),
        None => None,
    };
    let cases = [
        (Some(0), Some(2), None, false, false),
        (Some(1), Some(1), Some(Contestant::Second), false, true),
        (None, None, None, true, false),
        (Some(3), Some(3), None, false, false),
    ];
    for (r1, r2, crowd, d1, d2) in cases {
        let forward = selection.preference(r1, r2, crowd, d1, d2);
        let backward = selection.preference(r2, r1, swap(crowd), d2, d1);
        assert_eq!(forward, swap(backward));
    }
}
