use roma::operator::tabu::SignatureTable;
use roma::search::{
    elitism_plan, evaluation_limit, evaluations_allowed, tabu_search_step, validate_beam_search,
    validate_hill_climbing, validate_tabu_search, validate_vns, vns_step_decision,
};
use roma::termination::CounterCriterion;
use roma::search::offspring_shares;
use roma::search::{validate_differential_evolution, validate_genetic_algorithm, validate_nsga2, validate_pso};

fn better_matrix(qualities: &[f64]) -> Vec<Vec<bool>> {
    qualities
        .iter()
        .map(|a| qualities.iter().map(|b| a < b).collect())
        .collect()
}

fn sigs(texts: &[&str]) -> Vec<String> {
    texts.iter().map(|t| t.to_string()).collect()
}

#[test]
fn tabu_search_rejects_zero_tenure() {
    assert_eq!(validate_tabu_search(5, 0, 1), Err("tabu_tenure must be > 0".to_string()));
}

#[test]
fn tabu_search_validation_reports_first_problem() {
    assert_eq!(validate_tabu_search(0, 0, 0), Err("neighborhood_size must be > 0".to_string()));
    assert_eq!(
        validate_tabu_search(3, 2, 0),
        Err("termination_criteria must not be empty".to_string())
    );
    assert_eq!(validate_tabu_search(3, 2, 1), Ok(()));
}

#[test]
fn vns_rejects_empty_neighborhoods() {
    assert_eq!(validate_vns(0, 5, 1), Err("neighborhoods must not be empty".to_string()));
    assert_eq!(validate_vns(2, 0, 1), Err("local_search_trials must be > 0".to_string()));
    assert_eq!(validate_vns(2, 3, 0), Err("termination_criteria must not be empty".to_string()));
    assert_eq!(validate_vns(2, 3, 1), Ok(()));
}

#[test]
fn rejects_zero_beam_width() {
    assert_eq!(validate_beam_search(0, 2, 1), Err("beam_width must be > 0".to_string()));
}

#[test]
fn rejects_zero_fallback_candidate_count() {
    assert_eq!(validate_beam_search(2, 0, 1), Err("candidates_per_solution must be > 0".to_string()));
}

#[test]
fn rejects_empty_termination_criteria() {
    assert_eq!(validate_beam_search(2, 2, 0), Err("termination_criteria must not be empty".to_string()));
    assert_eq!(validate_hill_climbing(0), Err("termination_criteria must not be empty".to_string()));
    assert_eq!(validate_hill_climbing(1), Ok(()));
    assert_eq!(validate_beam_search(2, 2, 1), Ok(()));
}

#[test]
fn tabu_step_picks_best_admissible_candidate() {
    let mut memory = SignatureTable::new();
    memory.insert("b".to_string(), 10);
    memory.insert("old".to_string(), 4);
    // minimization: candidate b (quality 1.0) is best but tabu
    let qualities = [3.0, 1.0, 2.0];
    let selected = tabu_search_step(
        &mut memory,
        5,
        3,
        &sigs(&["a", "b", "c"]),
        &better_matrix(&qualities),
        &vec![false, false, false],
        true,
    );
    assert_eq!(selected, Some(2));
    assert_eq!(memory.get(&"c".to_string()), Some(8));
    assert_eq!(memory.get(&"b".to_string()), Some(10));
    assert_eq!(memory.get(&"old".to_string()), None);
    assert_eq!(memory.len(), 2);
}

#[test]
fn tabu_step_aspiration_overrides_tabu() {
    let mut memory = SignatureTable::new();
    memory.insert("b".to_string(), 10);
    let qualities = [3.0, 1.0, 2.0];
    let selected = tabu_search_step(
        &mut memory,
        5,
        3,
        &sigs(&["a", "b", "c"]),
        &better_matrix(&qualities),
        &vec![false, true, false],
        true,
    );
    assert_eq!(selected, Some(1));
    assert_eq!(memory.get(&"b".to_string()), Some(8));
}

#[test]
fn tabu_step_without_aspiration_keeps_tabu() {
    let mut memory = SignatureTable::new();
    memory.insert("b".to_string(), 10);
    let qualities = [3.0, 1.0, 2.0];
    let selected = tabu_search_step(
        &mut memory,
        5,
        3,
        &sigs(&["a", "b", "c"]),
        &better_matrix(&qualities),
        &vec![false, true, false],
        false,
    );
    assert_eq!(selected, Some(2));
}

#[test]
fn tabu_step_falls_back_to_best_when_all_tabu() {
    let mut memory = SignatureTable::new();
    memory.insert("a".to_string(), 9);
    memory.insert("b".to_string(), 9);
    let qualities = [2.0, 1.0];
    let selected = tabu_search_step(
        &mut memory,
        1,
        4,
        &sigs(&["a", "b"]),
        &better_matrix(&qualities),
        &vec![false, false],
        true,
    );
    assert_eq!(selected, Some(1));
    assert_eq!(memory.get(&"b".to_string()), Some(5));
}

#[test]
fn tabu_step_keeps_first_among_equals() {
    let mut memory = SignatureTable::new();
    let qualities = [1.0, 1.0];
    let selected = tabu_search_step(
        &mut memory,
        0,
        1,
        &sigs(&["x", "y"]),
        &better_matrix(&qualities),
        &vec![false, false],
        false,
    );
    assert_eq!(selected, Some(0));
}

#[test]
fn tabu_step_without_candidates_only_purges() {
    let mut memory = SignatureTable::new();
    memory.insert("gone".to_string(), 2);
    let selected = tabu_search_step(&mut memory, 2, 3, &Vec::new(), &Vec::new(), &Vec::new(), true);
    assert_eq!(selected, None);
    assert!(memory.is_empty());
}

#[test]
fn vns_moves_back_to_first_neighborhood_after_improvement() {
    let d = vns_step_decision(true, true, 2, 3);
    assert!(d.move_to_local && d.update_best);
    assert_eq!(d.next_neighborhood, 0);

    let d = vns_step_decision(true, false, 1, 3);
    assert!(d.move_to_local && !d.update_best);

    let d = vns_step_decision(false, true, 2, 3);
    assert!(!d.move_to_local && !d.update_best);
    assert_eq!(d.next_neighborhood, 0);

    let d = vns_step_decision(false, false, 0, 3);
    assert_eq!(d.next_neighborhood, 1);
}

#[test]
fn step_does_not_overshoot_max_evaluations() {
    let limit = evaluation_limit(&[CounterCriterion::MaxIterations(9), CounterCriterion::MaxEvaluations(3)]);
    assert_eq!(limit, 3);
    assert_eq!(evaluations_allowed(2, limit, 5), 1);
    assert_eq!(evaluations_allowed(3, limit, 5), 0);
    assert_eq!(evaluations_allowed(0, limit, 2), 2);
}

#[test]
fn evaluation_limit_takes_smallest_bound() {
    assert_eq!(
        evaluation_limit(&[CounterCriterion::MaxEvaluations(7), CounterCriterion::MaxEvaluations(4)]),
        4
    );
    assert_eq!(evaluation_limit(&[CounterCriterion::NoImprovement { patience: 2 }]), usize::MAX);
    assert_eq!(evaluation_limit(&[]), usize::MAX);
}

#[test]
fn elitism_plan_bounds_the_elite() {
    assert_eq!(elitism_plan(0, 10, 10), None);
    assert_eq!(elitism_plan(2, 10, 0), None);
    assert_eq!(elitism_plan(2, 10, 10), Some((2, 8)));
    assert_eq!(elitism_plan(12, 10, 10), Some((10, 0)));
    assert_eq!(elitism_plan(5, 10, 3), Some((3, 7)));
}

use roma::search::{resolve_num_threads, DistinctIndexSampler};

#[test]
fn resolve_num_threads_prefers_request() {
    assert_eq!(resolve_num_threads(Some(4), Some(16)), 4);
    assert_eq!(resolve_num_threads(Some(0), Some(16)), 1);
    assert_eq!(resolve_num_threads(None, Some(16)), 16);
    assert_eq!(resolve_num_threads(None, None), 1);
}

#[test]
fn distinct_sampler_rejects_target_and_repeats() {
    let mut sampler = DistinctIndexSampler::new(2);
    let draws = [2, 0, 0, 3, 2, 1, 4];
    let mut accepted = Vec::new();
    for &d in draws.iter() {
        if sampler.is_complete() {
            break;
        }
        accepted.push(sampler.offer(d));
    }
    assert_eq!(accepted, vec![false, true, false, true, false, true]);
    assert!(sampler.is_complete());
    assert_eq!(sampler.indices(), [0, 3, 1]);
}

#[test]
fn offspring_shares_split_the_generation_in_worker_order() {
    assert_eq!(offspring_shares(10, 3), vec![(0, 3), (3, 6), (6, 10)]);
    assert_eq!(offspring_shares(2, 4), vec![(0, 0), (0, 1), (1, 1), (1, 2)]);
    assert_eq!(offspring_shares(0, 2), vec![(0, 0), (0, 0)]);
    let shares = offspring_shares(7, 7);
    assert!(shares.iter().all(|&(start, end)| end - start == 1));
}

#[test]
fn genetic_algorithm_parameter_checks_in_order() {
    assert_eq!(validate_genetic_algorithm(0, 0, false, false, 9), Err("population_size must be > 0".to_string()));
    assert_eq!(validate_genetic_algorithm(10, 0, false, false, 9), Err("termination_criteria must not be empty".to_string()));
    assert_eq!(validate_genetic_algorithm(10, 1, false, false, 11), Err("crossover_probability must be in [0,1]".to_string()));
    assert_eq!(validate_genetic_algorithm(10, 1, true, false, 11), Err("mutation_probability must be in [0,1]".to_string()));
    assert_eq!(validate_genetic_algorithm(10, 1, true, true, 11), Err("elite_size must be <= population_size".to_string()));
    assert_eq!(validate_genetic_algorithm(10, 1, true, true, 10), Ok(()));
}

#[test]
fn nsga2_parameter_checks_in_order() {
    assert_eq!(validate_nsga2(0, 1, true, true), Err("population_size must be > 0".to_string()));
    assert_eq!(validate_nsga2(4, 0, true, true), Err("termination_criteria must not be empty".to_string()));
    assert_eq!(validate_nsga2(4, 1, false, true), Err("crossover_probability must be in [0,1]".to_string()));
    assert_eq!(validate_nsga2(4, 1, true, false), Err("mutation_probability must be in [0,1]".to_string()));
    assert_eq!(validate_nsga2(4, 1, true, true), Ok(()));
}

#[test]
fn differential_evolution_parameter_checks_in_order() {
    assert_eq!(validate_differential_evolution(3, 1, true, true), Err("population_size must be >= 4".to_string()));
    assert_eq!(validate_differential_evolution(4, 0, true, true), Err("termination_criteria must not be empty".to_string()));
    assert_eq!(validate_differential_evolution(4, 1, false, true), Err("crossover_rate must be in [0,1]".to_string()));
    assert_eq!(validate_differential_evolution(4, 1, true, false), Err("differential_weight must be > 0".to_string()));
    assert_eq!(validate_differential_evolution(4, 1, true, true), Ok(()));
}

#[test]
fn pso_parameter_checks_in_order() {
    assert_eq!(validate_pso(0, 1, true, true, true), Err("swarm_size must be > 0".to_string()));
    assert_eq!(validate_pso(5, 0, true, true, true), Err("termination_criteria must not be empty".to_string()));
    assert_eq!(validate_pso(5, 1, false, true, true), Err("inertia_weight must be finite".to_string()));
    assert_eq!(
        validate_pso(5, 1, true, false, true),
        Err("cognitive_coefficient and social_coefficient must be >= 0".to_string())
    );
    assert_eq!(validate_pso(5, 1, true, true, false), Err("velocity_clamp must be > 0 and finite".to_string()));
    assert_eq!(validate_pso(5, 1, true, true, true), Ok(()));
}

#[test]
fn de_rejects_too_small_population() {
    // population 3, crossover rate 0.9, differential weight 0.7, one criterion
    let crossover_rate: f64 = 0.9;
    let differential_weight: f64 = 0.7;
    assert_eq!(
        validate_differential_evolution(3, 1, (0.0..=1.0).contains(&crossover_rate), differential_weight > 0.0),
        Err("population_size must be >= 4".to_string())
    );
}

#[test]
fn pso_rejects_non_positive_velocity_clamp() {
    // swarm of 10, inertia 0.72, coefficients 1.49, velocity clamp 0.0, one criterion
    let inertia: f64 = 0.72;
    let (cognitive, social): (f64, f64) = (1.49, 1.49);
    let velocity_clamp: f64 = 0.0;
    let error = match validate_pso(
        10,
        1,
        inertia.is_finite(),
        cognitive >= 0.0 && social >= 0.0,
        velocity_clamp > 0.0 && velocity_clamp.is_finite(),
    ) {
        Ok(()) => panic!("PSO with non-positive velocity clamp should fail validation"),
        Err(message) => message,
    };
    assert!(error.contains("velocity_clamp"));
}
