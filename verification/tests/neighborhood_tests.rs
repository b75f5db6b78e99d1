use roma::operator::neighborhood::{
    BitFlipNeighborhood, InsertionNeighborhood, PermutationSwapNeighborhood, TwoOptNeighborhood,
};
use roma::operator::Operator;
use roma::solution::Solution;

fn sorted(values: &[usize]) -> Vec<usize> {
    let mut v = values.to_vec();
    v.sort_unstable();
    v
}

#[test]
fn neighborhood_size_equals_number_of_variables() {
    let solution: Solution<bool, f64> = Solution::new(vec![true, false, true, false, true]);
    let neighborhood = BitFlipNeighborhood::new();
    assert_eq!(neighborhood.neighborhood_size(&solution), Some(5));
}

#[test]
fn random_neighbor_differs_by_exactly_one_bit() {
    let solution: Solution<bool, f64> = Solution::new(vec![true, false, true, false]);
    let neighborhood = BitFlipNeighborhood::new();

    let neighbor = neighborhood.random_neighbor(&solution, 2);
    let differences: usize = solution
        .variables()
        .iter()
        .zip(neighbor.variables().iter())
        .filter(|(a, b)| a != b)
        .count();

    assert_eq!(differences, 1);
    assert_eq!(neighbor.variables(), &[true, false, false, false]);
}

#[test]
fn all_neighbors_flip_each_bit_once() {
    let solution: Solution<bool, f64> = Solution::new(vec![true, false, true]);
    let neighborhood = BitFlipNeighborhood::new();

    let neighbors = neighborhood.all_neighbors(&solution).unwrap();
    assert_eq!(neighbors.len(), 3);

    let expected = [
        vec![false, false, true],
        vec![true, true, true],
        vec![true, false, false],
    ];

    let actual: Vec<Vec<bool>> = neighbors
        .iter()
        .map(|neighbor| neighbor.variables().to_vec())
        .collect();
    assert_eq!(actual, expected);
}

#[test]
fn empty_solution_returns_clone() {
    let solution: Solution<bool, f64> = Solution::new(vec![]);
    let neighborhood = BitFlipNeighborhood::new();

    let neighbor = neighborhood.random_neighbor(&solution, 0);
    assert_eq!(neighbor.num_variables(), 0);
}

#[test]
fn bit_flip_neighborhood_name_is_exposed() {
    assert_eq!(BitFlipNeighborhood::new().name(), "BitFlipNeighborhood");
}

#[test]
fn insertion_neighborhood_name_is_exposed() {
    let op = InsertionNeighborhood::new();
    assert_eq!(op.name(), "InsertionNeighborhood");
}

#[test]
fn insertion_neighborhood_preserves_permutation_membership() {
    let op = InsertionNeighborhood::new();
    let solution: Solution<usize, f64> = Solution::new(vec![0, 1, 2, 3, 4, 5]);

    for from in 0..6 {
        for to in 0..6 {
            let neighbor = op.random_neighbor(&solution, from, to);
            assert_eq!(sorted(neighbor.variables()), vec![0, 1, 2, 3, 4, 5]);
        }
    }
}

#[test]
fn single_element_returns_clone() {
    let op = InsertionNeighborhood::new();
    let solution: Solution<usize, f64> = Solution::new(vec![0]);
    let neighbor = op.random_neighbor(&solution, 0, 0);
    assert_eq!(neighbor.variables(), &[0]);
}

#[test]
fn generates_different_neighbor() {
    let op = InsertionNeighborhood::new();
    let source: Solution<usize, f64> = Solution::new(vec![0, 1, 2, 3, 4, 5, 6, 7]);

    for from in 0..8 {
        for to in 0..8 {
            let neighbor = op.random_neighbor(&source, from, to);
            assert_ne!(neighbor.variables(), source.variables());
        }
    }
}

#[test]
fn insertion_neighborhood_moves_element_forward_and_backward() {
    let op = InsertionNeighborhood::new();
    let source: Solution<usize, f64> = Solution::new(vec![0, 1, 2, 3, 4, 5]);

    assert_eq!(op.random_neighbor(&source, 1, 4).variables(), &[0, 2, 3, 4, 1, 5]);
    assert_eq!(op.random_neighbor(&source, 4, 1).variables(), &[0, 4, 1, 2, 3, 5]);
    assert_eq!(op.random_neighbor(&source, 5, 5).variables(), &[5, 0, 1, 2, 3, 4]);
}

#[test]
fn insertion_neighborhood_neighborhood_size_is_correct() {
    let op = InsertionNeighborhood::new();
    let solution: Solution<usize, f64> = Solution::new(vec![0, 1, 2, 3]);
    assert_eq!(op.neighborhood_size(&solution), Some(12));
}

#[test]
fn keeps_permutation_membership() {
    let operator = PermutationSwapNeighborhood::new(2);
    let solution: Solution<usize, f64> = Solution::new(vec![0, 1, 2, 3, 4]);

    let neighbor = operator.generate_neighbor(&solution, &vec![(0, 4), (2, 2)]);

    assert_eq!(sorted(neighbor.variables()), vec![0, 1, 2, 3, 4]);
    assert_eq!(neighbor.variables(), &[4, 1, 3, 2, 0]);
    assert_eq!(operator.swap_count(), 2);
}

#[test]
fn handles_short_permutations() {
    let operator = PermutationSwapNeighborhood::new(1);
    let solution: Solution<usize, f64> = Solution::new(vec![0]);

    let neighbor = operator.generate_neighbor(&solution, &vec![]);

    assert_eq!(neighbor.variables(), &[0]);
}

#[test]
fn two_opt_neighborhood_name_is_exposed() {
    let op = TwoOptNeighborhood::new();
    assert_eq!(op.name(), "TwoOptNeighborhood");
}

#[test]
fn two_opt_neighborhood_preserves_permutation_membership() {
    let op = TwoOptNeighborhood::new();
    let solution: Solution<usize, f64> = Solution::new(vec![0, 1, 2, 3, 4, 5, 6]);

    for i in 0..7 {
        for j in 0..7 {
            let neighbor = op.random_neighbor(&solution, i, j);
            assert_eq!(sorted(neighbor.variables()), vec![0, 1, 2, 3, 4, 5, 6]);
        }
    }
}

#[test]
fn two_opt_random_neighbor_reverses_the_inner_segment() {
    let op = TwoOptNeighborhood::new();
    let solution: Solution<usize, f64> = Solution::new(vec![0, 1, 2, 3, 4, 5, 6]);

    assert_eq!(op.random_neighbor(&solution, 1, 4).variables(), &[0, 1, 4, 3, 2, 5, 6]);
    assert_eq!(op.random_neighbor(&solution, 4, 1).variables(), &[0, 1, 4, 3, 2, 5, 6]);
    assert_eq!(op.random_neighbor(&solution, 3, 3).variables(), &[0, 1, 2, 3, 5, 4, 6]);
    assert_eq!(op.random_neighbor(&solution, 6, 6).variables(), &[0, 1, 2, 3, 4, 6, 5]);
}

#[test]
fn random_neighbor_does_not_modify_source() {
    let op = TwoOptNeighborhood::new();
    let source: Solution<usize, f64> = Solution::new(vec![0, 1, 2, 3, 4]);
    let before = source.variables().to_vec();

    let _neighbor = op.random_neighbor(&source, 0, 3);
    assert_eq!(source.variables(), &before[..]);
}

#[test]
fn small_solution_returns_clone() {
    let op = TwoOptNeighborhood::new();
    let solution: Solution<usize, f64> = Solution::new(vec![0, 1]);
    let neighbor = op.random_neighbor(&solution, 0, 1);
    assert_eq!(neighbor.variables(), &[0, 1]);
}

#[test]
fn two_opt_neighborhood_neighborhood_size_is_correct() {
    let op = TwoOptNeighborhood::new();
    let solution: Solution<usize, f64> = Solution::new(vec![0, 1, 2, 3, 4]);
    assert_eq!(op.neighborhood_size(&solution), Some(6));
}

#[test]
fn all_neighbors_enumerates_correctly() {
    let op = TwoOptNeighborhood::new();
    let solution: Solution<usize, f64> = Solution::new(vec![0, 1, 2, 3, 4]);
    let neighbors = op.all_neighbors(&solution).unwrap();
    assert_eq!(neighbors.len(), op.neighborhood_size(&solution).unwrap());
    assert_eq!(neighbors[0].variables(), &[0, 2, 1, 3, 4]);
    assert_eq!(neighbors[2].variables(), &[0, 4, 3, 2, 1]);
    assert_eq!(neighbors[5].variables(), &[0, 1, 2, 4, 3]);
}

#[test]
fn two_opt_all_neighbors_skips_large_solutions() {
    let op = TwoOptNeighborhood::new();
    let large: Solution<usize, f64> = Solution::new((0..51).collect());
    assert!(op.all_neighbors(&large).is_none());
    let tiny: Solution<usize, f64> = Solution::new(vec![0, 1]);
    assert_eq!(op.all_neighbors(&tiny).unwrap().len(), 0);
}
