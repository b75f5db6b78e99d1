use roma::operator::mutation::{distinct_partner_of, BitFlipMutation, SwapMutation};
use roma::operator::Operator;
use roma::solution::Solution;

#[test]
fn bit_flip_mutation_name_is_exposed() {
    let mutation = BitFlipMutation::new();
    assert_eq!(mutation.name(), "BitFlipMutation");
}

#[test]
fn probability_one_flips_every_bit() {
    let mutation = BitFlipMutation::new();
    let mut solution: Solution<bool, f64> = Solution::new(vec![false; 10]);
    let every_draw_hits = vec![true; 10];

    mutation.execute(&mut solution, Some(every_draw_hits.as_slice()));

    assert!(solution.variables().iter().all(|&value| value));
}

#[test]
fn bit_flip_mutation_zero_probability_leaves_solution_unchanged() {
    let mutation = BitFlipMutation::new();
    let mut solution: Solution<bool, f64> = Solution::new(vec![false; 10]);

    mutation.execute(&mut solution, None);

    let number_ones = solution.variables().iter().filter(|&&x| x).count();
    assert_eq!(number_ones, 0, "No one should be flipped");
}

#[test]
fn negative_probability_leaves_solution_unchanged() {
    let mutation = BitFlipMutation::new();
    let mut solution: Solution<bool, f64> = Solution::new(vec![false; 15]);
    solution.set_quality(2.5);

    mutation.execute(&mut solution, None);

    let number_ones = solution.variables().iter().filter(|&&x| x).count();
    assert_eq!(number_ones, 0, "No one should be flipped");
    assert_eq!(solution.quality().copied(), Some(2.5));
}

#[test]
fn probability_greater_than_one_flips_every_bit() {
    let mutation = BitFlipMutation::new();
    let size = 15;
    let mut solution: Solution<bool, f64> = Solution::new(vec![false; size]);
    let every_draw_hits = vec![true; size];

    mutation.execute(&mut solution, Some(every_draw_hits.as_slice()));

    assert_eq!(solution.variables(), vec![true; size].as_slice());
}

#[test]
fn bit_flip_mutation_flips_marked_bits_and_clears_quality() {
    let mutation = BitFlipMutation::new();
    let mut solution: Solution<bool, f64> = Solution::new(vec![true, false, true, false]);
    solution.set_quality(1.0);

    mutation.execute(&mut solution, Some(&[true, false, false, true][..]));

    assert_eq!(solution.variables(), &[false, false, true, true]);
    assert!(!solution.has_quality());
}

#[test]
fn swap_mutation_name_is_exposed() {
    let mutation = SwapMutation::new();
    assert_eq!(mutation.name(), "SwapMutation");
}

#[test]
fn keeps_same_length() {
    let mutation = SwapMutation::new();
    let mut solution: Solution<usize, f64> = Solution::new(vec![0, 1, 2, 3, 4]);

    mutation.execute(&mut solution, Some((3, 0)));
    assert_eq!(solution.num_variables(), 5);
}

#[test]
fn swap_mutation_zero_probability_leaves_solution_unchanged() {
    let mutation = SwapMutation::new();
    let mut solution: Solution<usize, f64> = Solution::new(vec![0, 1, 2, 3, 4]);
    let before = solution.variables().to_vec();

    mutation.execute(&mut solution, None);

    assert_eq!(solution.variables(), before.as_slice());
}

#[test]
fn one_mutation_preserves_permutation_membership() {
    let mutation = SwapMutation::new();
    let mut solution: Solution<usize, f64> = Solution::new(vec![0, 1, 2, 3, 4]);

    mutation.execute(&mut solution, Some((1, 3)));

    let mut genes = solution.variables().to_vec();
    genes.sort_unstable();
    assert_eq!(genes, vec![0, 1, 2, 3, 4]);
}

#[test]
fn swap_mutation_swaps_the_drawn_positions() {
    let mutation = SwapMutation::new();
    let mut solution: Solution<usize, f64> = Solution::new(vec![0, 1, 2, 3, 4]);
    solution.set_quality(7.0);

    mutation.execute(&mut solution, Some((1, 3)));

    assert_eq!(solution.variables(), &[0, 3, 2, 1, 4]);
    assert!(!solution.has_quality());
}

#[test]
fn swap_mutation_moves_equal_draw_to_next_position() {
    let mutation = SwapMutation::new();
    let mut solution: Solution<usize, f64> = Solution::new(vec![0, 1, 2, 3, 4]);
    mutation.execute(&mut solution, Some((4, 4)));
    assert_eq!(solution.variables(), &[4, 1, 2, 3, 0]);

    let mut solution: Solution<usize, f64> = Solution::new(vec![0, 1, 2, 3, 4]);
    mutation.execute(&mut solution, Some((2, 2)));
    assert_eq!(solution.variables(), &[0, 1, 3, 2, 4]);
}

#[test]
fn swap_mutation_leaves_single_element_untouched() {
    let mutation = SwapMutation::default();
    let mut solution: Solution<usize, f64> = Solution::new(vec![0]);
    mutation.execute(&mut solution, Some((0, 0)));
    assert_eq!(solution.variables(), &[0]);
}

#[test]
fn distinct_partner_wraps_around() {
    assert_eq!(distinct_partner_of(1, 3, 5), 3);
    assert_eq!(distinct_partner_of(2, 2, 5), 3);
    assert_eq!(distinct_partner_of(4, 4, 5), 0);
}
