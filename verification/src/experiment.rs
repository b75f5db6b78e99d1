//! Experiment bookkeeping: cases, their parameters and failed runs.
use vstd::prelude::*;
use crate::text::{decimal, push_decimal, push_str, string_from_chars};
use crate::comparison::ImprovementDirection;

verus! {

/// Key/value parameter describing an experiment case.
pub struct CaseParameter {
    pub key: String,
    pub value: String,
}

/// Text of a parameter: `key=value`.
pub open spec fn parameter_text(key: Seq<char>, value: Seq<char>) -> Seq<char> {
    key + "="@ + value
}

/// Parameters as one line: their texts joined by `, `.
pub open spec fn parameters_text(params: Seq<(Seq<char>, Seq<char>)>) -> Seq<char>
    decreases params.len(),
{
    if params.len() == 0 {
        Seq::empty()
    } else if params.len() == 1 {
        parameter_text(params[0].0, params[0].1)
    } else {
        parameters_text(params.drop_last()) + ", "@ + parameter_text(params.last().0, params.last().1)
    }
}

/// The key and value texts of a parameter list.
pub open spec fn parameter_views(params: Seq<CaseParameter>) -> Seq<(Seq<char>, Seq<char>)> {
    params.map_values(|p: CaseParameter| (p.key@, p.value@))
}

impl CaseParameter {
    /// Creates a parameter.
    pub fn new(key: String, value: String) -> (r: Self)
        ensures
            r.key == key,
            r.value == value,
    {
        CaseParameter { key, value }
    }

    /// Text of the parameter, `key=value`.
    pub fn to_text(&self) -> (r: String)
        ensures
            r@ == parameter_text(self.key@, self.value@),
    {
        let mut chars: Vec<char> = Vec::new();
        push_str(&mut chars, self.key.as_str());
        push_str(&mut chars, "=");
        push_str(&mut chars, self.value.as_str());
        string_from_chars(&chars)
    }
}

/// All parameters on one line, joined by `, `.
pub fn parameters_as_text(params: &Vec<CaseParameter>) -> (r: String)
    ensures
        r@ == parameters_text(parameter_views(params@)),
{
    let mut chars: Vec<char> = Vec::new();
    let mut i: usize = 0;
    while i < params.len()
        invariant
            i <= params@.len(),
            chars@ == parameters_text(parameter_views(params@.take(i as int))),
        decreases params@.len() - i,
    {
        if i > 0 {
            push_str(&mut chars, ", ");
        }
        push_str(&mut chars, params[i].key.as_str());
        push_str(&mut chars, "=");
        push_str(&mut chars, params[i].value.as_str());
        proof {
            let taken = parameter_views(params@.take(i + 1));
            assert(taken.drop_last() =~= parameter_views(params@.take(i as int)));
            assert(taken.last() == (params@[i as int].key@, params@[i as int].value@));
            if i == 0 {
                assert(chars@ =~= parameter_text(taken[0].0, taken[0].1));
            } else {
                assert(chars@ =~= parameters_text(taken.drop_last()) + ", "@ + parameter_text(taken.last().0, taken.last().1));
            }
        }
        i = i + 1;
    }
    assert(params@.take(params@.len() as int) =~= params@);
    string_from_chars(&chars)
}

/// A run of an experiment case that failed, with its error message.
pub struct ExperimentFailure {
    pub algorithm_name: String,
    pub case_name: String,
    pub run_index: usize,
    pub error: String,
}


/// One experiment case: an algorithm in a concrete configuration, described
/// for reports. Running it is left to the code that owns the problem.
pub trait ExperimentalCase {
    /// The algorithm's name, as text.
    spec fn spec_algorithm_name(&self) -> Seq<char>;

    /// The configuration's parameters.
    spec fn spec_parameters(&self) -> Seq<CaseParameter>;

    /// Name of the algorithm the case runs.
    fn algorithm_name(&self) -> (r: &str)
        ensures
            r@ == self.spec_algorithm_name(),
    ;

    /// Identifier of this configuration; by default the algorithm's name.
    fn case_name(&self) -> (r: String)
        default_ensures
            r@ == self.spec_algorithm_name(),
    {
        self.algorithm_name().to_owned()
    }

    /// The configuration as key/value parameters.
    fn parameters(&self) -> (r: Vec<CaseParameter>)
        ensures
            r@ == self.spec_parameters(),
    ;

    /// The parameters on one line, as [`parameters_as_text`] writes them.
    fn parameters_as_text(&self) -> (r: String)
        default_ensures
            r@ == parameters_text(parameter_views(self.spec_parameters())),
    {
        parameters_as_text(&self.parameters())
    }
}


impl ExperimentFailure {
    /// The failure's line in a text report: `- <case> | run=<index> | <error>`.
    pub fn to_text(&self) -> (r: String)
        ensures
            r@ == "- "@ + self.case_name@ + " | run="@ + decimal(self.run_index as nat) + " | "@ + self.error@,
    {
        let mut chars: Vec<char> = Vec::new();
        push_str(&mut chars, "- ");
        push_str(&mut chars, self.case_name.as_str());
        push_str(&mut chars, " | run=");
        push_decimal(&mut chars, self.run_index);
        push_str(&mut chars, " | ");
        push_str(&mut chars, self.error.as_str());
        string_from_chars(&chars)
    }
}

/// How an experiment runs its cases: runs per case (at least one), worker
/// threads (`None` for the machine's parallelism) and the direction in
/// which its summaries rank best values.
pub struct ExperimentSettings {
    runs_per_case: usize,
    parallel_threads: Option<usize>,
    objective: ImprovementDirection,
}

impl ExperimentSettings {
    /// Runs per case.
    pub closed spec fn spec_runs_per_case(&self) -> usize {
        self.runs_per_case
    }

    /// Requested worker threads.
    pub closed spec fn spec_parallel_threads(&self) -> Option<usize> {
        self.parallel_threads
    }

    /// Direction of the summaries' ranking.
    pub closed spec fn spec_objective(&self) -> ImprovementDirection {
        self.objective
    }

    /// Defaults: thirty runs per case, automatic parallelism, maximization.
    pub fn new() -> (r: Self)
        ensures
            r.spec_runs_per_case() == 30,
            r.spec_parallel_threads() is None,
            r.spec_objective() == ImprovementDirection::Maximize,
    {
        ExperimentSettings { runs_per_case: 30, parallel_threads: None, objective: ImprovementDirection::Maximize }
    }

    /// Sets the direction of the summaries' ranking.
    pub fn with_objective(self, objective: ImprovementDirection) -> (r: Self)
        ensures
            r.spec_objective() == objective,
            r.spec_runs_per_case() == self.spec_runs_per_case(),
            r.spec_parallel_threads() == self.spec_parallel_threads(),
    {
        ExperimentSettings { runs_per_case: self.runs_per_case, parallel_threads: self.parallel_threads, objective }
    }

    /// Direction of the summaries' ranking.
    pub fn objective(&self) -> (r: ImprovementDirection)
        ensures
            r == self.spec_objective(),
    {
        self.objective
    }

    /// Sets the runs per case, at least one.
    pub fn with_runs(self, runs: usize) -> (r: Self)
        ensures
            r.spec_runs_per_case() == if runs >= 1 { runs } else { 1 },
            r.spec_parallel_threads() == self.spec_parallel_threads(),
            r.spec_objective() == self.spec_objective(),
    {
        ExperimentSettings {
            runs_per_case: if runs >= 1 { runs } else { 1 },
            parallel_threads: self.parallel_threads,
            objective: self.objective,
        }
    }

    /// Requests a number of worker threads, at least one.
    pub fn with_threads(self, threads: usize) -> (r: Self)
        ensures
            r.spec_parallel_threads() == Some(if threads >= 1 { threads } else { 1 }),
            r.spec_runs_per_case() == self.spec_runs_per_case(),
            r.spec_objective() == self.spec_objective(),
    {
        ExperimentSettings {
            runs_per_case: self.runs_per_case,
            parallel_threads: Some(if threads >= 1 { threads } else { 1 }),
            objective: self.objective,
        }
    }

    /// Runs the jobs one after the other.
    pub fn sequential(self) -> (r: Self)
        ensures
            r.spec_parallel_threads() == Some(1usize),
            r.spec_runs_per_case() == self.spec_runs_per_case(),
            r.spec_objective() == self.spec_objective(),
    {
        ExperimentSettings { runs_per_case: self.runs_per_case, parallel_threads: Some(1), objective: self.objective }
    }

    /// Uses the machine's parallelism.
    pub fn with_parallel(self) -> (r: Self)
        ensures
            r.spec_parallel_threads() is None,
            r.spec_runs_per_case() == self.spec_runs_per_case(),
            r.spec_objective() == self.spec_objective(),
    {
        ExperimentSettings { runs_per_case: self.runs_per_case, parallel_threads: None, objective: self.objective }
    }

    /// Runs per case.
    pub fn runs_per_case(&self) -> (r: usize)
        ensures
            r == self.spec_runs_per_case(),
    {
        self.runs_per_case
    }

    /// Requested worker threads.
    pub fn parallel_threads(&self) -> (r: Option<usize>)
        ensures
            r == self.spec_parallel_threads(),
    {
        self.parallel_threads
    }
}

/// An experiment needs at least one case.
pub fn validate_experiment(case_count: usize) -> (r: Result<(), String>)
    ensures
        case_count == 0 ==> (r matches Err(e) && e@ == "experiment has no algorithms/configurations to execute"@),
        r is Ok <==> case_count > 0,
{
    if case_count == 0 {
        return Err("experiment has no algorithms/configurations to execute".to_owned());
    }
    Ok(())
}

/// Number of jobs, one per case and run, saturating at `usize::MAX`.
pub fn total_jobs(case_count: usize, runs_per_case: usize) -> (r: usize)
    ensures
        r == if case_count * runs_per_case <= usize::MAX { case_count * runs_per_case } else { usize::MAX as int },
{
    match case_count.checked_mul(runs_per_case) {
        Some(product) => product,
        None => usize::MAX,
    }
}

/// Case and run of the job at position `flat_index`, jobs being laid out
/// case by case.
pub fn job_coordinates(flat_index: usize, runs_per_case: usize) -> (r: (usize, usize))
    requires
        runs_per_case > 0,
    ensures
        r.0 == flat_index / runs_per_case,
        r.1 == flat_index % runs_per_case,
{
    (flat_index / runs_per_case, flat_index % runs_per_case)
}

/// Every run of every case is one job: the job at `case * runs + run` is
/// exactly that case's run, and it lies below the number of jobs.
pub proof fn lemma_jobs_cover_each_run_once(case_count: int, runs_per_case: int, case: int, run: int)
    requires
        0 <= case < case_count,
        0 <= run < runs_per_case,
    ensures
        0 <= case * runs_per_case + run < case_count * runs_per_case,
        (case * runs_per_case + run) / runs_per_case == case,
        (case * runs_per_case + run) % runs_per_case == run,
{
    vstd::arithmetic::div_mod::lemma_fundamental_div_mod_converse(case * runs_per_case + run, runs_per_case, case, run);
    vstd::arithmetic::mul::lemma_mul_inequality(case + 1, case_count, runs_per_case);
    vstd::arithmetic::mul::lemma_mul_is_distributive_add_other_way(runs_per_case, case, 1);
    vstd::arithmetic::mul::lemma_mul_nonnegative(case, runs_per_case);
}


/// The outcome of one run of a case: its best value, or the failure to
/// report when the run failed or found no solution.
pub fn classify_run<V>(algorithm_name: String, case_name: String, run_index: usize, outcome: Result<Option<V>, String>) -> (r:
    Result<V, ExperimentFailure>)
    ensures
        match outcome {
            Ok(Some(v)) => r == Ok::<V, ExperimentFailure>(v),
            Ok(None) => r matches Err(f) && f.algorithm_name == algorithm_name && f.case_name == case_name
                && f.run_index == run_index && f.error@ == "algorithm returned an empty solution set"@,
            Err(e) => r matches Err(f) && f.algorithm_name == algorithm_name && f.case_name == case_name
                && f.run_index == run_index && f.error == e,
        },
{
    match outcome {
        Ok(Some(v)) => Ok(v),
        Ok(None) => Err(
            ExperimentFailure {
                algorithm_name,
                case_name,
                run_index,
                error: "algorithm returned an empty solution set".to_owned(),
            },
        ),
        Err(error) => Err(ExperimentFailure { algorithm_name, case_name, run_index, error }),
    }
}

} // verus!
