use roma::operator::crossover::{execute_several, OrderCrossover, SinglePointCrossover};
use roma::operator::Operator;
use roma::solution::Solution;

fn sorted(values: &[usize]) -> Vec<usize> {
    let mut v = values.to_vec();
    v.sort_unstable();
    v
}

#[test]
fn order_crossover_name_is_exposed() {
    let crossover = OrderCrossover::new();
    assert_eq!(crossover.name(), "OrderCrossover");
}

#[test]
fn order_crossover_preserves_permutation_membership() {
    let crossover = OrderCrossover::new();
    let parent1: Solution<usize, f64> = Solution::new(vec![0, 1, 2, 3, 4, 5]);
    let parent2: Solution<usize, f64> = Solution::new(vec![2, 4, 1, 5, 3, 0]);

    let offspring = crossover.execute(&parent1, &parent2, 1, 4);

    assert_eq!(offspring.len(), 2);
    for child in offspring {
        assert_eq!(sorted(child.variables()), vec![0, 1, 2, 3, 4, 5]);
    }
}

#[test]
fn order_crossover_builds_expected_children() {
    let crossover = OrderCrossover::new();
    let parent1: Solution<usize, f64> = Solution::new(vec![0, 1, 2, 3, 4, 5]);
    let parent2: Solution<usize, f64> = Solution::new(vec![2, 4, 1, 5, 3, 0]);

    let offspring = crossover.execute(&parent1, &parent2, 1, 4);

    assert_eq!(offspring[0].variables(), &[5, 1, 2, 3, 0, 4]);
    assert_eq!(offspring[1].variables(), &[3, 4, 1, 5, 0, 2]);
    assert!(!offspring[0].has_quality());
    assert!(!offspring[1].has_quality());
}

#[test]
fn order_crossover_with_one_offspring_builds_only_the_first_child() {
    let crossover = OrderCrossover::with_one_offspring();
    assert_eq!(crossover.number_of_offspring(), 1);
    let parent1: Solution<usize, f64> = Solution::new(vec![0, 1, 2, 3]);
    let parent2: Solution<usize, f64> = Solution::new(vec![3, 2, 1, 0]);

    let offspring = crossover.execute(&parent1, &parent2, 0, 2);

    assert_eq!(offspring.len(), 1);
    assert_eq!(offspring[0].variables(), &[0, 1, 3, 2]);
}

#[test]
fn order_crossover_returns_parent_clones_for_short_parents() {
    let crossover = OrderCrossover::new();
    let mut parent1: Solution<usize, f64> = Solution::new(vec![0]);
    parent1.set_quality(3.0);
    let parent2: Solution<usize, f64> = Solution::new(vec![0, 1, 2]);

    let offspring = crossover.execute(&parent1, &parent2, 0, 0);

    assert_eq!(offspring.len(), 2);
    assert_eq!(offspring[0].variables(), &[0]);
    assert_eq!(offspring[0].quality().copied(), Some(3.0));
    assert_eq!(offspring[1].variables(), &[0, 1, 2]);
}

#[test]
fn order_crossover_default_produces_two_offspring() {
    assert_eq!(OrderCrossover::default().number_of_offspring(), 2);
}

#[test]
fn test_single_point_crossover_name() {
    let crossover = SinglePointCrossover::new();
    assert_eq!(crossover.name(), "SinglePointCrossover");
}

#[test]
fn test_single_point_crossover() {
    let crossover = SinglePointCrossover::new();
    let parent1: Solution<bool, f64> = Solution::new(vec![false; 10]);
    let parent2: Solution<bool, f64> = Solution::new(vec![true; 10]);

    let offspring = crossover.execute(&parent1, &parent2, 4);

    assert_eq!(offspring.len(), 2);
    assert_eq!(offspring[0].num_variables(), 10);
    assert_eq!(offspring[1].num_variables(), 10);
}

#[test]
fn single_point_crossover_exchanges_tails() {
    let crossover = SinglePointCrossover::new();
    let parent1: Solution<bool, f64> = Solution::new(vec![false; 6]);
    let parent2: Solution<bool, f64> = Solution::new(vec![true; 6]);

    let offspring = crossover.execute(&parent1, &parent2, 4);

    assert_eq!(offspring[0].variables(), &[false, false, false, false, true, true]);
    assert_eq!(offspring[1].variables(), &[true, true, true, true, false, false]);
}

#[test]
fn single_point_crossover_keeps_each_parent_length() {
    let crossover = SinglePointCrossover::with_one_offspring();
    let parent1: Solution<bool, f64> = Solution::new(vec![false; 5]);
    let parent2: Solution<bool, f64> = Solution::new(vec![true; 3]);

    let offspring = crossover.execute(&parent1, &parent2, 1);

    assert_eq!(offspring.len(), 1);
    assert_eq!(offspring[0].variables(), &[false, true, true, false, false]);
}

#[test]
fn execute_several_clones_all_but_first_parent() {
    let parents: Vec<Solution<usize, f64>> = vec![
        Solution::new(vec![0]),
        Solution::new(vec![1]),
        Solution::new(vec![2]),
    ];
    let offspring = execute_several(&parents);
    assert_eq!(offspring.len(), 2);
    assert_eq!(offspring[0].variables(), &[1]);
    assert_eq!(offspring[1].variables(), &[2]);
    let none: Vec<Solution<usize, f64>> = Vec::new();
    assert!(execute_several(&none).is_empty());
}
