use roma::nsga2::{annotate_ranks, front_ranks, non_dominated_sort};

fn pareto_dominates(a: &[f64], b: &[f64]) -> bool {
    a.iter().zip(b).all(|(x, y)| x <= y) && a.iter().zip(b).any(|(x, y)| x < y)
}

fn dominance_matrix(objectives: &[Vec<f64>]) -> Vec<Vec<bool>> {
    objectives
        .iter()
        .map(|a| objectives.iter().map(|b| pareto_dominates(a, b)).collect())
        .collect()
}

fn sorted(values: &[usize]) -> Vec<usize> {
    let mut v = values.to_vec();
    v.sort_unstable();
    v
}

#[test]
fn annotate_population_assigns_expected_ranks() {
    let objectives = vec![vec![0.2, 0.2], vec![0.3, 0.4], vec![0.4, 0.3], vec![0.1, 0.5]];
    let dominance = dominance_matrix(&objectives);

    let (fronts, ranks) = annotate_ranks(&dominance);

    assert_eq!(fronts, vec![vec![0, 3], vec![1, 2]]);
    assert_eq!(ranks[0], Some(0));
    assert_eq!(ranks[3], Some(0));
    assert_eq!(ranks[1], Some(1));
    assert_eq!(ranks[2], Some(1));
}

#[test]
fn non_dominated_sort_splits_into_fronts() {
    let objectives = vec![
        vec![1.0, 1.0],
        vec![2.0, 2.0],
        vec![3.0, 3.0],
        vec![0.5, 4.0],
        vec![2.5, 1.5],
    ];
    let fronts = non_dominated_sort(&dominance_matrix(&objectives));

    assert_eq!(fronts.len(), 3);
    assert_eq!(sorted(&fronts[0]), vec![0, 3]);
    assert_eq!(sorted(&fronts[1]), vec![1, 4]);
    assert_eq!(sorted(&fronts[2]), vec![2]);
}

#[test]
fn non_dominated_sort_of_empty_population() {
    let fronts = non_dominated_sort(&Vec::new());
    assert!(fronts.is_empty());
    let (fronts, ranks) = annotate_ranks(&Vec::new());
    assert!(fronts.is_empty());
    assert!(ranks.is_empty());
}

#[test]
fn mutually_non_dominated_population_is_one_front() {
    let objectives = vec![vec![0.1, 0.9], vec![0.5, 0.5], vec![0.9, 0.1]];
    let (fronts, ranks) = annotate_ranks(&dominance_matrix(&objectives));
    assert_eq!(fronts.len(), 1);
    assert_eq!(sorted(&fronts[0]), vec![0, 1, 2]);
    assert_eq!(ranks, vec![Some(0), Some(0), Some(0)]);
}

#[test]
fn individuals_on_a_dominance_cycle_are_unranked() {
    // 0 beats 1, 1 beats 2, 2 beats 0; 3 is beaten by nobody
    let dominance = vec![
        vec![false, true, false, false],
        vec![false, false, true, false],
        vec![true, false, false, false],
        vec![false, false, false, false],
    ];
    let (fronts, ranks) = annotate_ranks(&dominance);
    assert_eq!(fronts, vec![vec![3]]);
    assert_eq!(ranks, vec![None, None, None, Some(0)]);
}

#[test]
fn front_ranks_uses_last_front_holding_an_index() {
    let fronts = vec![vec![2, 0], vec![1], vec![0]];
    assert_eq!(front_ranks(&fronts, 4), vec![Some(2), Some(1), Some(0), None]);
}

use roma::nsga2::survivor_plan;

#[test]
fn survivor_plan_takes_whole_fronts_then_part_of_the_next() {
    let fronts = vec![vec![0, 1], vec![2, 3, 4], vec![5]];
    assert_eq!(survivor_plan(&fronts, 4), (1, 2));
    assert_eq!(survivor_plan(&fronts, 5), (2, 0));
    assert_eq!(survivor_plan(&fronts, 6), (3, 0));
    assert_eq!(survivor_plan(&fronts, 10), (3, 0));
    assert_eq!(survivor_plan(&fronts, 1), (0, 1));
    assert_eq!(survivor_plan(&fronts, 0), (0, 0));
    assert_eq!(survivor_plan(&Vec::new(), 3), (0, 0));
}

#[test]
fn later_fronts_follow_discovery_order() {
    // 0 and 1 are undominated; 0 dominates 3 and 1 dominates 2, so walking
    // the first front meets 3 before 2.
    let mut dominance = vec![vec![false; 4]; 4];
    dominance[0][3] = true;
    dominance[1][2] = true;
    let fronts = non_dominated_sort(&dominance);
    assert_eq!(fronts, vec![vec![0, 1], vec![3, 2]]);
}

#[test]
fn first_front_lists_indices_in_increasing_order() {
    let mut dominance = vec![vec![false; 5]; 5];
    dominance[2][0] = true;
    dominance[4][1] = true;
    let fronts = non_dominated_sort(&dominance);
    assert_eq!(fronts, vec![vec![2, 3, 4], vec![0, 1]]);
}
