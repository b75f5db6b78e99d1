use roma::comparison::ImprovementDirection;
use roma::experiment::{
    job_coordinates, parameters_as_text, total_jobs, validate_experiment, CaseParameter, ExperimentSettings,
    ExperimentFailure,
};

#[test]
fn case_parameter_text_is_key_equals_value() {
    let p = CaseParameter::new("seed".to_string(), "42".to_string());
    assert_eq!(p.key, "seed");
    assert_eq!(p.value, "42");
    assert_eq!(p.to_text(), "seed=42");
}

#[test]
fn parameters_are_joined_with_commas() {
    let params = vec![
        CaseParameter::new("a".to_string(), "1".to_string()),
        CaseParameter::new("b".to_string(), "2".to_string()),
        CaseParameter::new("c".to_string(), "".to_string()),
    ];
    assert_eq!(parameters_as_text(&params), "a=1, b=2, c=");
    assert_eq!(parameters_as_text(&Vec::new()), "");
}

#[test]
fn experiment_failure_keeps_its_fields() {
    let failure = ExperimentFailure {
        algorithm_name: "VNS".to_string(),
        case_name: "vns-small".to_string(),
        run_index: 3,
        error: "boom".to_string(),
    };
    assert_eq!(failure.run_index, 3);
    assert_eq!(failure.error, "boom");
}

#[test]
fn experiment_failure_line() {
    let failure = ExperimentFailure {
        algorithm_name: "GA".to_string(),
        case_name: "ga-small".to_string(),
        run_index: 12,
        error: "algorithm returned an empty solution set".to_string(),
    };
    assert_eq!(failure.to_text(), "- ga-small | run=12 | algorithm returned an empty solution set");
}

#[test]
fn experiment_settings_builders() {
    let settings = ExperimentSettings::new();
    assert_eq!(settings.runs_per_case(), 30);
    assert_eq!(settings.parallel_threads(), None);
    let settings = settings.with_runs(0).with_threads(0);
    assert_eq!(settings.runs_per_case(), 1);
    assert_eq!(settings.parallel_threads(), Some(1));
    let settings = settings.with_runs(5).with_threads(8);
    assert_eq!(settings.runs_per_case(), 5);
    assert_eq!(settings.parallel_threads(), Some(8));
    let settings = settings.sequential();
    assert_eq!(settings.parallel_threads(), Some(1));
    let settings = settings.with_parallel();
    assert_eq!(settings.parallel_threads(), None);
    assert_eq!(settings.runs_per_case(), 5);
}

#[test]
fn experiment_needs_a_case() {
    assert_eq!(
        validate_experiment(0),
        Err("experiment has no algorithms/configurations to execute".to_string())
    );
    assert_eq!(validate_experiment(2), Ok(()));
}

#[test]
fn jobs_are_laid_out_case_by_case() {
    assert_eq!(total_jobs(3, 4), 12);
    assert_eq!(total_jobs(usize::MAX, 2), usize::MAX);
    let coords: Vec<(usize, usize)> = (0..total_jobs(2, 3)).map(|i| job_coordinates(i, 3)).collect();
    assert_eq!(coords, vec![(0, 0), (0, 1), (0, 2), (1, 0), (1, 1), (1, 2)]);
}

use roma::experiment::classify_run;

#[test]
fn classify_run_reports_failures() {
    assert_eq!(classify_run("GA".to_string(), "ga".to_string(), 0, Ok(Some(2.5))).ok(), Some(2.5));
    let f = classify_run::<f64>("GA".to_string(), "ga".to_string(), 3, Ok(None)).err().unwrap();
    assert_eq!(f.error, "algorithm returned an empty solution set");
    assert_eq!(f.run_index, 3);
    let f = classify_run::<f64>("GA".to_string(), "ga".to_string(), 1, Err("boom".to_string())).err().unwrap();
    assert_eq!(f.error, "boom");
}

#[test]
fn experiment_settings_rank_by_maximization_unless_told_otherwise() {
    let settings = ExperimentSettings::new();
    assert_eq!(settings.objective(), ImprovementDirection::Maximize);
    let settings = settings.with_runs(5).with_objective(ImprovementDirection::Minimize).sequential();
    assert_eq!(settings.objective(), ImprovementDirection::Minimize);
    assert_eq!(settings.runs_per_case(), 5);
    assert_eq!(settings.parallel_threads(), Some(1));
}
