use roma::operator::tabu::{AttributeTabuMemory, FrequencyTabuMemory, SignatureTable, SolutionTabuMemory};
use roma::operator::Operator;
use roma::solution::Solution;

fn sig(text: &str) -> String {
    text.to_string()
}

#[test]
fn swap_signature_is_normalized() {
    assert_eq!(
        AttributeTabuMemory::swap_signature(3, 1),
        AttributeTabuMemory::swap_signature(1, 3)
    );
    assert_eq!(AttributeTabuMemory::swap_signature(2, 5), "swap:2:5");
}

#[test]
fn swap_signature_writes_multi_digit_positions() {
    assert_eq!(AttributeTabuMemory::swap_signature(120, 7), "swap:7:120");
    assert_eq!(AttributeTabuMemory::swap_signature(0, 0), "swap:0:0");
}

#[test]
fn detects_swap_move() {
    let from: Solution<usize, f64> = Solution::new(vec![0, 1, 2, 3, 4]);
    let mut to = from.clone();
    to.swap_variables(1, 3);

    let signature = AttributeTabuMemory::detect_move_signature(&from, &to, sig("0,3,2,1,4"));
    assert_eq!(signature, "swap:1:3");
}

#[test]
fn falls_back_to_full_signature_for_non_swap() {
    let from: Solution<usize, f64> = Solution::new(vec![0, 1, 2, 3, 4]);
    let to: Solution<usize, f64> = Solution::new(vec![4, 3, 2, 1, 0]);

    let signature = AttributeTabuMemory::detect_move_signature(&from, &to, sig("4,3,2,1,0"));
    assert_eq!(signature, "4,3,2,1,0");
}

#[test]
fn falls_back_to_full_signature_for_different_lengths() {
    let from: Solution<usize, f64> = Solution::new(vec![0, 1]);
    let to: Solution<usize, f64> = Solution::new(vec![1, 0, 2]);
    let signature = AttributeTabuMemory::detect_move_signature(&from, &to, sig("1,0,2"));
    assert_eq!(signature, "1,0,2");
}

#[test]
fn remember_move_and_check_tabu() {
    let mem = AttributeTabuMemory::new();
    let mut tabu = SignatureTable::new();

    let from: Solution<usize, f64> = Solution::new(vec![0, 1, 2, 3]);
    let mut to = from.clone();
    to.swap_variables(0, 2);

    mem.remember_move(&mut tabu, &from, &to, sig("2,1,0,3"), 5, 3);

    assert!(mem.is_move_tabu(&tabu, &from, &to, sig("2,1,0,3"), 7));
    assert!(!mem.is_move_tabu(&tabu, &from, &to, sig("2,1,0,3"), 8));
    assert_eq!(tabu.get(&sig("swap:0:2")), Some(8));
}

#[test]
fn empty_initial_memory() {
    let mem = AttributeTabuMemory::new();
    let memory = mem.initialize_memory();
    assert!(memory.is_empty());
}

#[test]
fn attribute_memory_remembers_full_signatures() {
    let mem = AttributeTabuMemory::default();
    let mut memory = mem.initialize_memory();
    mem.remember(&mut memory, sig("0,1,2"), 2, 4);
    assert!(mem.is_tabu(&memory, &sig("0,1,2"), 5));
    assert!(!mem.is_tabu(&memory, &sig("0,1,2"), 6));
    assert!(!mem.is_tabu(&memory, &sig("2,1,0"), 0));
    assert_eq!(mem.name(), "AttributeTabuMemory");
}

#[test]
fn solution_memory_starts_with_initial_solution() {
    let mem = SolutionTabuMemory::new();
    let memory = mem.initialize_memory(sig("1,0"), 0, 5);
    assert_eq!(memory.len(), 1);
    assert!(mem.is_tabu(&memory, &sig("1,0"), 4));
    assert!(!mem.is_tabu(&memory, &sig("1,0"), 5));
    assert_eq!(mem.name(), "SolutionTabuMemory");
}

#[test]
fn solution_memory_purges_expired_entries() {
    let mem = SolutionTabuMemory::default();
    let mut memory = mem.initialize_memory(sig("a"), 0, 2);
    mem.remember(&mut memory, sig("b"), 1, 5);
    mem.remember(&mut memory, sig("c"), 2, 1);

    mem.purge_expired(&mut memory, 3);

    assert_eq!(memory.len(), 1);
    assert_eq!(memory.get(&sig("a")), None);
    assert_eq!(memory.get(&sig("b")), Some(6));
    assert_eq!(memory.get(&sig("c")), None);
}

#[test]
fn remembering_again_replaces_the_expiration() {
    let mut memory = SignatureTable::new();
    memory.insert(sig("x"), 10);
    memory.insert(sig("x"), 3);
    assert_eq!(memory.len(), 1);
    assert_eq!(memory.get(&sig("x")), Some(3));
    assert!(!memory.is_tabu(&sig("x"), 3));
    assert!(memory.is_tabu(&sig("x"), 2));
}

#[test]
fn records_and_counts_visits() {
    let mut mem = FrequencyTabuMemory::new();
    let solution = sig("0,1,2");

    assert_eq!(mem.visit_count(&solution), 0);
    mem.record_visit(solution.clone());
    assert_eq!(mem.visit_count(&solution), 1);
    mem.record_visit(solution.clone());
    assert_eq!(mem.visit_count(&solution), 2);
}

#[test]
fn different_solutions_have_independent_counts() {
    let mut mem = FrequencyTabuMemory::new();
    let sol_a = sig("0,1,2");
    let sol_b = sig("2,1,0");

    mem.record_visit(sol_a.clone());
    mem.record_visit(sol_a.clone());
    mem.record_visit(sol_b.clone());

    assert_eq!(mem.visit_count(&sol_a), 2);
    assert_eq!(mem.visit_count(&sol_b), 1);
}

#[test]
fn reset_clears_frequency() {
    let mut mem = FrequencyTabuMemory::new();
    let solution = sig("0,1");

    mem.record_visit(solution.clone());
    assert_eq!(mem.distinct_visits(), 1);

    mem.reset();
    assert_eq!(mem.distinct_visits(), 0);
    assert_eq!(mem.visit_count(&solution), 0);
}

#[test]
fn tabu_memory_trait_works() {
    let mem = FrequencyTabuMemory::default();
    let solution = sig("0,1,2");

    let tabu = mem.initialize_memory(solution.clone(), 0, 5);
    assert!(mem.is_tabu(&tabu, &solution, 3));
    assert!(!mem.is_tabu(&tabu, &solution, 5));
    assert_eq!(mem.name(), "FrequencyTabuMemory");
}

#[test]
fn frequency_memory_remember_sets_expiration() {
    let mem = FrequencyTabuMemory::new();
    let mut tabu = SignatureTable::new();
    mem.remember(&mut tabu, sig("s"), 4, 2);
    assert_eq!(tabu.get(&sig("s")), Some(6));
}

#[test]
fn purging_keeps_tabu_verdicts() {
    let mut memory = SignatureTable::new();
    memory.insert(sig("a"), 3);
    memory.insert(sig("b"), 9);
    let before: Vec<bool> = ["a", "b", "c"].iter().map(|s| memory.is_tabu(&sig(s), 4)).collect();
    memory.purge_expired(4);
    let after: Vec<bool> = ["a", "b", "c"].iter().map(|s| memory.is_tabu(&sig(s), 4)).collect();
    assert_eq!(before, after);
    assert_eq!(memory.len(), 1);
}

#[test]
fn distinct_visits_count_visited_signatures() {
    let mut mem = FrequencyTabuMemory::new();
    for s in ["a", "b", "a", "c", "a"] {
        mem.record_visit(sig(s));
    }
    assert_eq!(mem.visit_count(&sig("a")), 3);
    assert_eq!(mem.visit_count(&sig("b")), 1);
    assert_eq!(mem.visit_count(&sig("z")), 0);
    assert_eq!(mem.distinct_visits(), 3);
}
