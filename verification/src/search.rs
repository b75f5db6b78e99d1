//! Decisions taken by the single-solution searches (tabu search, variable
//! neighborhood search, beam search, hill climbing), the genetic algorithm's
//! elitism and differential evolution's donor draws, apart from generating
//! and evaluating candidates: parameter checks, candidate selection,
//! bookkeeping, and the number of worker threads.
//!
//! Whether one candidate is better than another is the problem's verdict
//! on floating-point qualities; it is handed in as a boolean matrix.
use vstd::prelude::*;
use crate::operator::tabu::SignatureTable;
use crate::nsga2::{is_square, matrix_view};
use crate::termination::CounterCriterion;

verus! {

/// Parameter check of the tabu search: a positive neighborhood size, a
/// positive tenure and at least one termination criterion, checked in that
/// order.
pub fn validate_tabu_search(neighborhood_size: usize, tabu_tenure: usize, criteria_count: usize) -> (r: Result<(), String>)
    ensures
        neighborhood_size == 0 ==> (r matches Err(e) && e@ == "neighborhood_size must be > 0"@),
        neighborhood_size > 0 && tabu_tenure == 0 ==> (r matches Err(e) && e@ == "tabu_tenure must be > 0"@),
        neighborhood_size > 0 && tabu_tenure > 0 && criteria_count == 0 ==> (r matches Err(e) && e@
            == "termination_criteria must not be empty"@),
        r is Ok <==> (neighborhood_size > 0 && tabu_tenure > 0 && criteria_count > 0),
{
    if neighborhood_size == 0 {
        return Err("neighborhood_size must be > 0".to_owned());
    }
    if tabu_tenure == 0 {
        return Err("tabu_tenure must be > 0".to_owned());
    }
    if criteria_count == 0 {
        return Err("termination_criteria must not be empty".to_owned());
    }
    Ok(())
}

/// Parameter check of the variable neighborhood search: at least one
/// neighborhood, a positive number of local search trials and at least one
/// termination criterion, checked in that order.
pub fn validate_vns(neighborhood_count: usize, local_search_trials: usize, criteria_count: usize) -> (r: Result<(), String>)
    ensures
        neighborhood_count == 0 ==> (r matches Err(e) && e@ == "neighborhoods must not be empty"@),
        neighborhood_count > 0 && local_search_trials == 0 ==> (r matches Err(e) && e@
            == "local_search_trials must be > 0"@),
        neighborhood_count > 0 && local_search_trials > 0 && criteria_count == 0 ==> (r matches Err(e) && e@
            == "termination_criteria must not be empty"@),
        r is Ok <==> (neighborhood_count > 0 && local_search_trials > 0 && criteria_count > 0),
{
    if neighborhood_count == 0 {
        return Err("neighborhoods must not be empty".to_owned());
    }
    if local_search_trials == 0 {
        return Err("local_search_trials must be > 0".to_owned());
    }
    if criteria_count == 0 {
        return Err("termination_criteria must not be empty".to_owned());
    }
    Ok(())
}

/// Parameter check of the beam search: a positive beam width, a positive
/// number of candidates per beam member and at least one termination
/// criterion, checked in that order.
pub fn validate_beam_search(beam_width: usize, candidates_per_solution: usize, criteria_count: usize) -> (r: Result<(), String>)
    ensures
        beam_width == 0 ==> (r matches Err(e) && e@ == "beam_width must be > 0"@),
        beam_width > 0 && candidates_per_solution == 0 ==> (r matches Err(e) && e@
            == "candidates_per_solution must be > 0"@),
        beam_width > 0 && candidates_per_solution > 0 && criteria_count == 0 ==> (r matches Err(e) && e@
            == "termination_criteria must not be empty"@),
        r is Ok <==> (beam_width > 0 && candidates_per_solution > 0 && criteria_count > 0),
{
    if beam_width == 0 {
        return Err("beam_width must be > 0".to_owned());
    }
    if candidates_per_solution == 0 {
        return Err("candidates_per_solution must be > 0".to_owned());
    }
    if criteria_count == 0 {
        return Err("termination_criteria must not be empty".to_owned());
    }
    Ok(())
}

/// Parameter check of hill climbing: at least one termination criterion.
pub fn validate_hill_climbing(criteria_count: usize) -> (r: Result<(), String>)
    ensures
        criteria_count == 0 ==> (r matches Err(e) && e@ == "termination_criteria must not be empty"@),
        r is Ok <==> criteria_count > 0,
{
    if criteria_count == 0 {
        return Err("termination_criteria must not be empty".to_owned());
    }
    Ok(())
}


/// Parameter check of the genetic algorithm, in this order: a positive
/// population size, at least one termination criterion, a crossover and a
/// mutation probability in `[0, 1]` (the verdicts on the `f64`
/// probabilities are arguments), and an elite no larger than the
/// population.
pub fn validate_genetic_algorithm(
    population_size: usize,
    criteria_count: usize,
    crossover_probability_in_unit: bool,
    mutation_probability_in_unit: bool,
    elite_size: usize,
) -> (r: Result<(), String>)
    ensures
        population_size == 0 ==> (r matches Err(e) && e@ == "population_size must be > 0"@),
        population_size > 0 && criteria_count == 0 ==> (r matches Err(e) && e@
            == "termination_criteria must not be empty"@),
        population_size > 0 && criteria_count > 0 && !crossover_probability_in_unit ==> (r matches Err(e) && e@
            == "crossover_probability must be in [0,1]"@),
        population_size > 0 && criteria_count > 0 && crossover_probability_in_unit && !mutation_probability_in_unit
            ==> (r matches Err(e) && e@ == "mutation_probability must be in [0,1]"@),
        population_size > 0 && criteria_count > 0 && crossover_probability_in_unit && mutation_probability_in_unit
            && elite_size > population_size ==> (r matches Err(e) && e@ == "elite_size must be <= population_size"@),
        r is Ok <==> (population_size > 0 && criteria_count > 0 && crossover_probability_in_unit
            && mutation_probability_in_unit && elite_size <= population_size),
{
    if let Err(e) = validate_nsga2(
        population_size,
        criteria_count,
        crossover_probability_in_unit,
        mutation_probability_in_unit,
    ) {
        return Err(e);
    }
    if elite_size > population_size {
        return Err("elite_size must be <= population_size".to_owned());
    }
    Ok(())
}

/// Parameter check of NSGA-II, in this order: a positive population size,
/// at least one termination criterion, and a crossover and a mutation
/// probability in `[0, 1]` (the verdicts on the `f64` probabilities are
/// arguments).
pub fn validate_nsga2(
    population_size: usize,
    criteria_count: usize,
    crossover_probability_in_unit: bool,
    mutation_probability_in_unit: bool,
) -> (r: Result<(), String>)
    ensures
        population_size == 0 ==> (r matches Err(e) && e@ == "population_size must be > 0"@),
        population_size > 0 && criteria_count == 0 ==> (r matches Err(e) && e@
            == "termination_criteria must not be empty"@),
        population_size > 0 && criteria_count > 0 && !crossover_probability_in_unit ==> (r matches Err(e) && e@
            == "crossover_probability must be in [0,1]"@),
        population_size > 0 && criteria_count > 0 && crossover_probability_in_unit && !mutation_probability_in_unit
            ==> (r matches Err(e) && e@ == "mutation_probability must be in [0,1]"@),
        r is Ok <==> (population_size > 0 && criteria_count > 0 && crossover_probability_in_unit
            && mutation_probability_in_unit),
{
    if population_size == 0 {
        return Err("population_size must be > 0".to_owned());
    }
    if criteria_count == 0 {
        return Err("termination_criteria must not be empty".to_owned());
    }
    if !crossover_probability_in_unit {
        return Err("crossover_probability must be in [0,1]".to_owned());
    }
    if !mutation_probability_in_unit {
        return Err("mutation_probability must be in [0,1]".to_owned());
    }
    Ok(())
}

/// Parameter check of differential evolution, in this order: a population
/// of at least four, at least one termination criterion, a crossover rate
/// in `[0, 1]` and a positive differential weight (the verdicts on the
/// `f64` parameters are arguments).
pub fn validate_differential_evolution(
    population_size: usize,
    criteria_count: usize,
    crossover_rate_in_unit: bool,
    differential_weight_positive: bool,
) -> (r: Result<(), String>)
    ensures
        population_size < 4 ==> (r matches Err(e) && e@ == "population_size must be >= 4"@),
        population_size >= 4 && criteria_count == 0 ==> (r matches Err(e) && e@
            == "termination_criteria must not be empty"@),
        population_size >= 4 && criteria_count > 0 && !crossover_rate_in_unit ==> (r matches Err(e) && e@
            == "crossover_rate must be in [0,1]"@),
        population_size >= 4 && criteria_count > 0 && crossover_rate_in_unit && !differential_weight_positive
            ==> (r matches Err(e) && e@ == "differential_weight must be > 0"@),
        r is Ok <==> (population_size >= 4 && criteria_count > 0 && crossover_rate_in_unit
            && differential_weight_positive),
{
    if population_size < 4 {
        return Err("population_size must be >= 4".to_owned());
    }
    if criteria_count == 0 {
        return Err("termination_criteria must not be empty".to_owned());
    }
    if !crossover_rate_in_unit {
        return Err("crossover_rate must be in [0,1]".to_owned());
    }
    if !differential_weight_positive {
        return Err("differential_weight must be > 0".to_owned());
    }
    Ok(())
}

/// Parameter check of the binary particle swarm, in this order: a positive
/// swarm size, at least one termination criterion, a finite inertia
/// weight, non-negative cognitive and social coefficients, and a positive
/// finite velocity clamp (the verdicts on the `f64` parameters are
/// arguments).
pub fn validate_pso(
    swarm_size: usize,
    criteria_count: usize,
    inertia_weight_finite: bool,
    coefficients_non_negative: bool,
    velocity_clamp_positive_finite: bool,
) -> (r: Result<(), String>)
    ensures
        swarm_size == 0 ==> (r matches Err(e) && e@ == "swarm_size must be > 0"@),
        swarm_size > 0 && criteria_count == 0 ==> (r matches Err(e) && e@
            == "termination_criteria must not be empty"@),
        swarm_size > 0 && criteria_count > 0 && !inertia_weight_finite ==> (r matches Err(e) && e@
            == "inertia_weight must be finite"@),
        swarm_size > 0 && criteria_count > 0 && inertia_weight_finite && !coefficients_non_negative ==> (r matches Err(
            e,
        ) && e@ == "cognitive_coefficient and social_coefficient must be >= 0"@),
        swarm_size > 0 && criteria_count > 0 && inertia_weight_finite && coefficients_non_negative
            && !velocity_clamp_positive_finite ==> (r matches Err(e) && e@
            == "velocity_clamp must be > 0 and finite"@),
        r is Ok <==> (swarm_size > 0 && criteria_count > 0 && inertia_weight_finite && coefficients_non_negative
            && velocity_clamp_positive_finite),
{
    if swarm_size == 0 {
        return Err("swarm_size must be > 0".to_owned());
    }
    if criteria_count == 0 {
        return Err("termination_criteria must not be empty".to_owned());
    }
    if !inertia_weight_finite {
        return Err("inertia_weight must be finite".to_owned());
    }
    if !coefficients_non_negative {
        return Err("cognitive_coefficient and social_coefficient must be >= 0".to_owned());
    }
    if !velocity_clamp_positive_finite {
        return Err("velocity_clamp must be > 0 and finite".to_owned());
    }
    Ok(())
}

/// Left-to-right scan over candidates `0..k`: the first eligible candidate
/// is kept, and a later eligible one replaces the kept one when it is
/// better than it (`better[i][j]`: candidate `i` is better than `j`).
pub open spec fn scan_best(better: Seq<Seq<bool>>, eligible: Seq<bool>, k: nat) -> Option<usize>
    decreases k,
{
    if k == 0 {
        None
    } else {
        let prev = scan_best(better, eligible, (k - 1) as nat);
        if eligible[k - 1] && (prev is None || better[k - 1][prev->0 as int]) {
            Some((k - 1) as usize)
        } else {
            prev
        }
    }
}

proof fn lemma_scan_best_range(better: Seq<Seq<bool>>, eligible: Seq<bool>, k: nat)
    requires
        k <= usize::MAX,
    ensures
        scan_best(better, eligible, k) matches Some(i) ==> i < k && eligible[i as int],
        scan_best(better, eligible, k) is None <==> forall|i: int| 0 <= i < k ==> !eligible[i],
    decreases k,
{
    if k > 0 {
        lemma_scan_best_range(better, eligible, (k - 1) as nat);
    }
}

/// The candidate kept by [`scan_best`] over all of `eligible`.
fn best_eligible(better: &Vec<Vec<bool>>, eligible: &Vec<bool>) -> (r: Option<usize>)
    requires
        eligible@.len() == better@.len(),
        forall|i: int| 0 <= i < better@.len() ==> (#[trigger] better@[i])@.len() == better@.len(),
    ensures
        r == scan_best(matrix_view(better), eligible@, eligible@.len()),
{
    let ghost m = matrix_view(better);
    let n = eligible.len();
    let mut kept: Option<usize> = None;
    let mut i: usize = 0;
    while i < n
        invariant
            i <= n,
            n == eligible@.len(),
            n == better@.len(),
            m == matrix_view(better),
            forall|a: int| 0 <= a < n ==> (#[trigger] better@[a])@.len() == n,
            kept == scan_best(m, eligible@, i as nat),
            kept matches Some(j) ==> j < i,
        decreases n - i,
    {
        if eligible[i] {
            match kept {
                None => {
                    kept = Some(i);
                },
                Some(j) => {
                    assert(better@[i as int]@ == m[i as int]);
                    if better[i][j] {
                        kept = Some(i);
                    }
                },
            }
        }
        i = i + 1;
    }
    kept
}

/// `better` is a strict order on its `n` candidates: no candidate is better
/// than itself, and being better is transitive.
pub open spec fn is_strict_order(better: Seq<Seq<bool>>) -> bool {
    &&& forall|i: int| 0 <= i < better.len() ==> !#[trigger] better[i][i]
    &&& forall|i: int, j: int, k: int|
        0 <= i < better.len() && 0 <= j < better.len() && 0 <= k < better.len() && #[trigger] better[i][j]
            && #[trigger] better[j][k] ==> better[i][k]
}

/// The left-to-right scan keeps a best eligible candidate among the first
/// `k`: one that is eligible and that no eligible candidate before `k` beats;
/// it keeps none exactly when none of them is eligible.
proof fn lemma_scan_best_is_best(better: Seq<Seq<bool>>, eligible: Seq<bool>, k: nat)
    requires
        is_square(better),
        is_strict_order(better),
        eligible.len() == better.len(),
        k <= eligible.len(),
        eligible.len() <= usize::MAX,
    ensures
        scan_best(better, eligible, k) matches Some(r) ==> {
            &&& r < k
            &&& eligible[r as int]
            &&& forall|i: int| 0 <= i < k && eligible[i] ==> !better[i][r as int]
        },
        scan_best(better, eligible, k) is None ==> forall|i: int| 0 <= i < k ==> !eligible[i],
    decreases k,
{
    if k > 0 {
        lemma_scan_best_is_best(better, eligible, (k - 1) as nat);
        let prev = scan_best(better, eligible, (k - 1) as nat);
        let c = (k - 1) as int;
        if eligible[c] && (prev is None || better[c][prev->0 as int]) {
            assert(!better[c][c]);
            if prev is Some {
                let p = prev->0 as int;
                assert(p < c);
                assert forall|i: int| 0 <= i < k && eligible[i] implies !better[i][c] by {
                    if i < c && better[i][c] {
                        assert(better[c][p]);
                        assert(better[i][p]);
                    }
                }
            }
            assert(scan_best(better, eligible, k) == Some(c as usize));
        } else {
            assert(scan_best(better, eligible, k) == prev);
            if prev is Some {
                let p = prev->0 as int;
                assert forall|i: int| 0 <= i < k && eligible[i] implies !better[i][p] by {
                    if i == c {
                        assert(!better[c][p]);
                    }
                }
            }
        }
    }
}

/// The candidate a tabu search step moves to is a best admissible one: it
/// is admissible and no admissible candidate is better than it. When no
/// candidate is admissible it is a best candidate overall. There is one
/// exactly when there are candidates. `better` is the problem's strict
/// preference among the candidates.
pub proof fn lemma_tabu_choice_is_best(better: Seq<Seq<bool>>, admissible: Seq<bool>)
    requires
        is_square(better),
        is_strict_order(better),
        admissible.len() == better.len(),
        admissible.len() <= usize::MAX,
    ensures
        tabu_choice(better, admissible) is None <==> admissible.len() == 0,
        tabu_choice(better, admissible) matches Some(s) ==> s < admissible.len(),
        (exists|i: int| 0 <= i < admissible.len() && admissible[i]) ==> (tabu_choice(better, admissible) matches Some(s)
            && admissible[s as int] && forall|i: int|
            0 <= i < admissible.len() && admissible[i] ==> !better[i][s as int]),
        (forall|i: int| 0 <= i < admissible.len() ==> !admissible[i]) ==> (tabu_choice(better, admissible) matches Some(
            s,
        ) ==> forall|i: int| 0 <= i < admissible.len() ==> !better[i][s as int]),
{
    let n = admissible.len();
    let all = Seq::new(n, |i: int| true);
    lemma_scan_best_is_best(better, admissible, n);
    lemma_scan_best_is_best(better, all, n);
    if n > 0 {
        assert(all[0]);
    }
    if tabu_choice(better, admissible) is Some && forall|i: int| 0 <= i < n ==> !admissible[i] {
        let s = tabu_choice(better, admissible)->0 as int;
        assert(scan_best(better, admissible, n) is None);
        assert forall|i: int| 0 <= i < n implies !better[i][s] by {
            assert(all[i]);
        }
    }
}

/// Signature `signature` is tabu at `iteration` in the memory `memory`.
pub open spec fn tabu_at(memory: Map<Seq<char>, usize>, signature: Seq<char>, iteration: usize) -> bool {
    memory.contains_key(signature) && memory[signature] > iteration
}

/// Which of the candidates may be chosen: those not tabu, and, when
/// aspiration is enabled, those better than the best solution so far.
pub open spec fn admissible_candidates(
    memory: Map<Seq<char>, usize>,
    signatures: Seq<String>,
    iteration: usize,
    improves_best: Seq<bool>,
    aspiration_enabled: bool,
) -> Seq<bool> {
    Seq::new(
        signatures.len(),
        |i: int| !tabu_at(memory, signatures[i]@, iteration) || (aspiration_enabled && improves_best[i]),
    )
}

/// The candidate a tabu search step moves to: the best admissible one, or
/// the best one overall when none is admissible.
pub open spec fn tabu_choice(better: Seq<Seq<bool>>, admissible: Seq<bool>) -> Option<usize> {
    let n = admissible.len();
    if scan_best(better, admissible, n) is Some {
        scan_best(better, admissible, n)
    } else {
        scan_best(better, Seq::new(n, |i: int| true), n)
    }
}

/// The decisions of a tabu search step at `iteration` once its candidates
/// are generated and evaluated: forgets the entries that expired, picks the
/// candidate to move to ([`tabu_choice`]; tabu status is that of the memory
/// before the purge, which the purge does not change) and makes its
/// signature tabu until `iteration + tabu_tenure`. `better[i][j]` tells
/// whether candidate `i` is better than candidate `j`, `improves_best[i]`
/// whether it is better than the best solution so far. `None` only when
/// there is no candidate.
pub fn tabu_search_step(
    memory: &mut SignatureTable,
    iteration: usize,
    tabu_tenure: usize,
    signatures: &Vec<String>,
    better: &Vec<Vec<bool>>,
    improves_best: &Vec<bool>,
    aspiration_enabled: bool,
) -> (selected: Option<usize>)
    requires
        old(memory).wf(),
        signatures@.len() == better@.len(),
        improves_best@.len() == better@.len(),
        is_square(matrix_view(better)),
        iteration + tabu_tenure <= usize::MAX,
    ensures
        final(memory).wf(),
        selected == tabu_choice(
            matrix_view(better),
            admissible_candidates(old(memory).view(), signatures@, iteration, improves_best@, aspiration_enabled),
        ),
        selected is None <==> signatures@.len() == 0,
        ({
            let purged = old(memory).view().restrict(
                old(memory).view().dom().filter(|k: Seq<char>| old(memory).view()[k] > iteration),
            );
            match selected {
                Some(s) => s < signatures@.len() && final(memory).view() == purged.insert(
                    signatures@[s as int]@,
                    (iteration + tabu_tenure) as usize,
                ),
                None => final(memory).view() == purged,
            }
        }),
{
    let ghost before = memory.view();
    let ghost m = matrix_view(better);
    memory.purge_expired(iteration);
    let n = signatures.len();
    assert(forall|i: int| 0 <= i < n ==> (#[trigger] better@[i])@.len() == n) by {
        assert forall|i: int| 0 <= i < n implies (#[trigger] better@[i])@.len() == n by {
            assert(m[i] == better@[i]@);
        }
    }
    let ghost admissible = admissible_candidates(before, signatures@, iteration, improves_best@, aspiration_enabled);
    let mut eligible: Vec<bool> = Vec::new();
    let mut everyone: Vec<bool> = Vec::new();
    let mut i: usize = 0;
    while i < n
        invariant
            i <= n,
            n == signatures@.len(),
            n == improves_best@.len(),
            memory.wf(),
            memory.view() == before.restrict(before.dom().filter(|k: Seq<char>| before[k] > iteration)),
            admissible == admissible_candidates(before, signatures@, iteration, improves_best@, aspiration_enabled),
            eligible@ == admissible.take(i as int),
            everyone@ == Seq::new(i as nat, |j: int| true),
        decreases n - i,
    {
        let tabu = memory.is_tabu(&signatures[i], iteration);
        let ok = !tabu || (aspiration_enabled && improves_best[i]);
        assert(ok == admissible[i as int]);
        eligible.push(ok);
        everyone.push(true);
        assert(eligible@ =~= admissible.take(i + 1));
        assert(everyone@ =~= Seq::new((i + 1) as nat, |j: int| true));
        i = i + 1;
    }
    assert(eligible@ =~= admissible);
    let chosen = match best_eligible(better, &eligible) {
        Some(c) => Some(c),
        None => best_eligible(better, &everyone),
    };
    proof {
        lemma_scan_best_range(m, admissible, n as nat);
        lemma_scan_best_range(m, Seq::new(n as nat, |j: int| true), n as nat);
        if n > 0 {
            assert(Seq::new(n as nat, |j: int| true)[0]);
        }
    }
    match chosen {
        Some(c) => {
            let sig = signatures[c].clone();
            memory.insert(sig, iteration + tabu_tenure);
        },
        None => {},
    }
    chosen
}


/// What a variable neighborhood search step does once the local search
/// around the shaken candidate is over.
#[derive(PartialEq, Eq, Structural, Clone, Copy, Debug)]
pub struct VnsDecision {
    /// The local optimum found replaces the current solution.
    pub move_to_local: bool,
    /// It also replaces the best solution so far.
    pub update_best: bool,
    /// Neighborhood of the next step.
    pub next_neighborhood: usize,
}

/// The decisions of a variable neighborhood search step: when the local
/// optimum is better than the current solution the search moves there,
/// records it as the best if it is better than the best so far, and goes
/// back to the first neighborhood; otherwise it keeps its solution and
/// turns to the next neighborhood, cyclically.
pub fn vns_step_decision(
    local_improves_current: bool,
    local_improves_best: bool,
    neighborhood_index: usize,
    neighborhood_count: usize,
) -> (r: VnsDecision)
    requires
        neighborhood_index < neighborhood_count,
    ensures
        r.move_to_local == local_improves_current,
        r.update_best == (local_improves_current && local_improves_best),
        r.next_neighborhood == if local_improves_current {
            0
        } else {
            (neighborhood_index + 1) % (neighborhood_count as int)
        },
        r.next_neighborhood < neighborhood_count,
{
    if local_improves_current {
        VnsDecision { move_to_local: true, update_best: local_improves_best, next_neighborhood: 0 }
    } else {
        VnsDecision {
            move_to_local: false,
            update_best: false,
            next_neighborhood: (neighborhood_index + 1) % neighborhood_count,
        }
    }
}

/// The evaluation bound of a beam search step: the smallest bound among the
/// evaluation criteria, or `usize::MAX` when there is none.
pub fn evaluation_limit(criteria: &[CounterCriterion]) -> (r: usize)
    ensures
        forall|i: int| 0 <= i < criteria@.len() ==> ((#[trigger] criteria@[i]) matches CounterCriterion::MaxEvaluations(b) ==> r <= b),
        r == usize::MAX || exists|i: int| 0 <= i < criteria@.len() && (#[trigger] criteria@[i]) == CounterCriterion::MaxEvaluations(r),
{
    let mut limit: usize = usize::MAX;
    let mut i: usize = 0;
    while i < criteria.len()
        invariant
            i <= criteria@.len(),
            forall|k: int| 0 <= k < i ==> ((#[trigger] criteria@[k]) matches CounterCriterion::MaxEvaluations(b) ==> limit <= b),
            limit == usize::MAX || exists|k: int| 0 <= k < i && (#[trigger] criteria@[k]) == CounterCriterion::MaxEvaluations(limit),
        decreases criteria@.len() - i,
    {
        match criteria[i] {
            CounterCriterion::MaxEvaluations(b) => {
                if b < limit {
                    limit = b;
                }
            },
            _ => {},
        }
        i = i + 1;
    }
    limit
}

/// How many of `available` successors a beam search step may still
/// evaluate, `evaluations` being spent of `limit`: successors are evaluated
/// in order until the limit is reached.
pub fn evaluations_allowed(evaluations: usize, limit: usize, available: usize) -> (r: usize)
    ensures
        r == if evaluations >= limit {
            0
        } else if available <= limit - evaluations {
            available as int
        } else {
            limit - evaluations
        },
        r <= available,
        evaluations + r <= limit || r == 0,
{
    if evaluations >= limit {
        0
    } else if available <= limit - evaluations {
        available
    } else {
        limit - evaluations
    }
}

/// Size of the elite a genetic algorithm carries over, and how many
/// offspring it keeps beside it; `None` when no elitism applies (no elite
/// requested, or no current population).
pub fn elitism_plan(elite_size: usize, population_size: usize, current_len: usize) -> (r: Option<(usize, usize)>)
    ensures
        r is None <==> (elite_size == 0 || current_len == 0),
        r matches Some((elite, survivors)) ==> {
            &&& elite <= elite_size && elite <= population_size && elite <= current_len
            &&& (elite == elite_size || elite == population_size || elite == current_len)
            &&& survivors == population_size - elite
        },
{
    if elite_size == 0 || current_len == 0 {
        return None;
    }
    let mut elite = elite_size;
    if population_size < elite {
        elite = population_size;
    }
    if current_len < elite {
        elite = current_len;
    }
    Some((elite, population_size - elite))
}


/// Number of worker threads: the requested count (at least one), or, when
/// none is requested, the parallelism the machine reports (one when it
/// reports none).
pub fn resolve_num_threads(requested: Option<usize>, available: Option<usize>) -> (r: usize)
    ensures
        r == match requested {
            Some(v) => if v >= 1 { v } else { 1 },
            None => match available {
                Some(a) => a,
                None => 1,
            },
        },
{
    match requested {
        Some(v) => if v >= 1 { v } else { 1 },
        None => match available {
            Some(a) => a,
            None => 1,
        },
    }
}

/// Where worker `w` of `threads` starts in the offspring of one generation
/// of `target` children: `w * target / threads`.
pub open spec fn share_start(w: int, target: int, threads: int) -> int {
    w * target / threads
}

/// How the genetic algorithm splits the `target` offspring of a generation
/// among `threads` workers: worker `w` produces the children from
/// `w * target / threads` up to `(w + 1) * target / threads`.
pub fn offspring_shares(target: usize, threads: usize) -> (r: Vec<(usize, usize)>)
    requires
        threads > 0,
        threads * target <= usize::MAX,
    ensures
        r.len() == threads,
        forall|w: int|
            0 <= w < threads ==> #[trigger] r@[w] == (
                share_start(w, target as int, threads as int) as usize,
                share_start(w + 1, target as int, threads as int) as usize,
            ),
{
    let mut r: Vec<(usize, usize)> = Vec::new();
    let mut w: usize = 0;
    while w < threads
        invariant
            w <= threads,
            threads > 0,
            threads * target <= usize::MAX,
            r.len() == w,
            forall|k: int|
                0 <= k < w ==> #[trigger] r@[k] == (
                    share_start(k, target as int, threads as int) as usize,
                    share_start(k + 1, target as int, threads as int) as usize,
                ),
        decreases threads - w,
    {
        assert(w * target <= threads * target) by (nonlinear_arith)
            requires w < threads;
        assert((w + 1) * target <= threads * target) by (nonlinear_arith)
            requires w < threads;
        let start = w * target / threads;
        let end = (w + 1) * target / threads;
        r.push((start, end));
        w = w + 1;
    }
    r
}

/// The shares of [`offspring_shares`] cover the generation once, in worker
/// order: the first starts at zero, each ends where the next starts, none
/// ends before it starts, and the last ends at `target`.
pub proof fn lemma_offspring_shares_partition(target: nat, threads: nat, w: nat)
    requires
        threads > 0,
        w < threads,
    ensures
        share_start(0, target as int, threads as int) == 0,
        share_start(w as int, target as int, threads as int) <= share_start(w as int + 1, target as int, threads as int),
        share_start(threads as int, target as int, threads as int) == target,
        0 <= share_start(w as int, target as int, threads as int),
        share_start(w as int + 1, target as int, threads as int) <= target,
{
    let t = target as int;
    let n = threads as int;
    let a = w as int;
    assert(a * t <= (a + 1) * t) by (nonlinear_arith)
        requires t >= 0;
    assert((a * t) / n <= ((a + 1) * t) / n) by (nonlinear_arith)
        requires a * t <= (a + 1) * t, n > 0;
    assert((n * t) / n == t) by (nonlinear_arith)
        requires n > 0;
    assert(0 <= (a * t) / n) by (nonlinear_arith)
        requires a >= 0, t >= 0, n > 0;
    assert((a + 1) * t <= n * t) by (nonlinear_arith)
        requires a + 1 <= n, t >= 0;
    assert(((a + 1) * t) / n <= (n * t) / n) by (nonlinear_arith)
        requires (a + 1) * t <= n * t, n > 0;
    assert(0 * t / n == 0) by (nonlinear_arith)
        requires n > 0;
}

/// Draws of three distinct population indices, all different from a
/// target index, as differential evolution picks its donors: every draw
/// that is the target or repeats an accepted index is rejected.
pub struct DistinctIndexSampler {
    target: usize,
    chosen: Vec<usize>,
}

impl DistinctIndexSampler {
    /// The index the donors must differ from.
    pub closed spec fn spec_target(&self) -> usize {
        self.target
    }

    /// The indices accepted so far, in order.
    pub closed spec fn spec_chosen(&self) -> Seq<usize> {
        self.chosen@
    }

    /// Internal consistency: at most three accepted indices, distinct and
    /// different from the target.
    pub open spec fn wf(&self) -> bool {
        &&& self.spec_chosen().len() <= 3
        &&& self.spec_chosen().no_duplicates()
        &&& !self.spec_chosen().contains(self.spec_target())
    }

    /// A sampler with nothing accepted yet.
    pub fn new(target: usize) -> (r: Self)
        ensures
            r.wf(),
            r.spec_target() == target,
            r.spec_chosen() == Seq::<usize>::empty(),
    {
        DistinctIndexSampler { target, chosen: Vec::new() }
    }

    /// Whether three indices were accepted.
    pub fn is_complete(&self) -> (b: bool)
        ensures
            b == (self.spec_chosen().len() == 3),
    {
        self.chosen.len() == 3
    }

    /// Offers a drawn index; returns whether it was accepted.
    pub fn offer(&mut self, candidate: usize) -> (accepted: bool)
        requires
            old(self).wf(),
            old(self).spec_chosen().len() < 3,
        ensures
            final(self).wf(),
            final(self).spec_target() == old(self).spec_target(),
            accepted == (candidate != old(self).spec_target() && !old(self).spec_chosen().contains(candidate)),
            final(self).spec_chosen() == if accepted {
                old(self).spec_chosen().push(candidate)
            } else {
                old(self).spec_chosen()
            },
    {
        if candidate == self.target {
            return false;
        }
        let mut i: usize = 0;
        while i < self.chosen.len()
            invariant
                *self == *old(self),
                old(self).wf(),
                old(self).spec_chosen().len() < 3,
                candidate != self.target,
                i <= self.chosen@.len(),
                forall|k: int| 0 <= k < i ==> self.chosen@[k] != candidate,
            decreases self.chosen@.len() - i,
        {
            if self.chosen[i] == candidate {
                return false;
            }
            i = i + 1;
        }
        let ghost before = self.chosen@;
        self.chosen.push(candidate);
        proof {
            assert(!before.contains(candidate));
            assert forall|a: int, b: int| 0 <= a < b < self.chosen@.len() implies self.chosen@[a] != self.chosen@[b] by {
                if b == before.len() {
                    assert(before[a] == self.chosen@[a]);
                }
            }
            if self.chosen@.contains(self.target) {
                let k = choose|k: int| 0 <= k < self.chosen@.len() && self.chosen@[k] == self.target;
                if k < before.len() {
                    assert(before[k] == self.target);
                }
            }
        }
        true
    }

    /// The three accepted indices, in the order they were drawn.
    pub fn indices(&self) -> (r: [usize; 3])
        requires
            self.spec_chosen().len() == 3,
        ensures
            r@ == self.spec_chosen(),
    {
        let r = [self.chosen[0], self.chosen[1], self.chosen[2]];
        assert(r@ =~= self.chosen@);
        r
    }
}

} // verus!
