use roma::observer::{escape_html, sanitize_folder_component, truncate_preview, ConsoleObserver, HOW_ITERATIONS_TO_PRINT};

#[test]
fn console_observer_prints_every_snapshot_when_verbose() {
    let mut observer = ConsoleObserver::new(true);
    assert_eq!(observer.name(), "ConsoleObserver");
    observer.on_start();
    assert!(observer.on_state(0, 0));
    assert!(observer.on_state(1, 1));
    assert!(observer.on_state(2, 7));
}

#[test]
fn console_observer_prints_every_interval_when_quiet() {
    let mut observer = ConsoleObserver::new(false);
    observer.on_start();
    assert!(observer.on_state(0, 0));
    assert!(!observer.on_state(1, 1));
    assert!(!observer.on_state(2, HOW_ITERATIONS_TO_PRINT - 1));
    assert!(observer.on_state(3, HOW_ITERATIONS_TO_PRINT));
    assert!(observer.on_state(4, 2 * HOW_ITERATIONS_TO_PRINT));
}

#[test]
fn console_observer_ignores_replayed_snapshots() {
    let mut observer = ConsoleObserver::new(true);
    assert!(observer.on_state(5, 10));
    assert!(!observer.on_state(5, 10));
    assert!(!observer.on_state(3, 11));
    assert!(observer.on_state(6, 12));
    observer.on_start();
    assert!(observer.on_state(1, 0));
}

#[test]
fn escape_html_escapes_markup_characters() {
    assert_eq!(escape_html("a<b>&\"c'"), "a&lt;b&gt;&amp;&quot;c&#39;");
    assert_eq!(escape_html("plain"), "plain");
    assert_eq!(escape_html(""), "");
}

#[test]
fn truncate_preview_marks_cut_text() {
    assert_eq!(truncate_preview("abcdef", 3), "abc\u{2026}");
    assert_eq!(truncate_preview("abc", 3), "abc");
    assert_eq!(truncate_preview("abc", 0), "\u{2026}");
    assert_eq!(truncate_preview("", 0), "");
}

#[test]
fn sanitize_folder_component_normalizes_names() {
    assert_eq!(sanitize_folder_component("Genetic Algorithm (GA)"), "genetic_algorithm_ga");
    assert_eq!(sanitize_folder_component("  NSGA-II  "), "nsga_ii");
    assert_eq!(sanitize_folder_component("***"), "algorithm");
    assert_eq!(sanitize_folder_component(""), "algorithm");
    assert_eq!(sanitize_folder_component("Tabu2"), "tabu2");
}

use roma::observer::{status_class, status_text, ReportProgress, RunStatus};

#[test]
fn report_shows_failed_status_when_failure_event_is_received() {
    let mut progress = ReportProgress::new();
    progress.on_start("FailureAlgorithm".to_string());
    assert!(progress.on_state(0, 2, 10));
    progress.on_failed(2, 10, "synthetic failure".to_string());

    let status = progress.status();
    assert_eq!(status, RunStatus::Failed);
    assert_eq!(status_class(status), "status-error");
    assert_eq!(status_text(status), "Failed");
    assert_eq!(progress.status_message(), Some("synthetic failure".to_string()));
    assert_eq!(progress.summary_totals(), (2, 10));
}

#[test]
fn report_shows_interrupted_status_when_finalize_runs_without_end() {
    let mut progress = ReportProgress::new();
    progress.on_start("InterruptedAlgorithm".to_string());
    assert!(progress.on_state(0, 1, 5));

    let status = progress.status();
    assert_eq!(status, RunStatus::Interrupted);
    assert_eq!(status_text(status), "Interrupted");
    assert_eq!(status_class(status), "status-error");
    assert_eq!(
        progress.status_message(),
        Some("Run did not reach End event; report generated from partial snapshots.".to_string())
    );
    assert_eq!(progress.summary_totals(), (1, 5));
}

#[test]
fn report_shows_completed_status_after_end() {
    let mut progress = ReportProgress::new();
    assert_eq!(progress.display_name(), "Unknown");
    assert_eq!(progress.summary_totals(), (0, 0));
    progress.on_start("GA <fast>".to_string());
    assert!(progress.on_state(1, 0, 20));
    assert!(!progress.on_state(1, 3, 99));
    progress.on_end(1, 20);

    assert_eq!(progress.status(), RunStatus::Completed);
    assert_eq!(status_class(progress.status()), "status-completed");
    assert_eq!(progress.status_message(), None);
    assert_eq!(progress.display_name(), "GA &lt;fast&gt;");
    assert_eq!(progress.summary_totals(), (1, 20));
}

#[test]
fn report_start_forgets_previous_run() {
    let mut progress = ReportProgress::new();
    progress.on_start("A".to_string());
    progress.on_failed(1, 1, "x".to_string());
    progress.on_start("B".to_string());
    assert_eq!(progress.status(), RunStatus::Interrupted);
    assert!(progress.on_state(0, 0, 0));
}

use roma::observer::{newest_first, BEST_UPDATE_ROWS, RECENT_GENERATION_ROWS};

#[test]
fn formats_best_solution_line_with_problem_presentation() {
    let line = ConsoleObserver::format_best_solution_line("selected=2/3");
    assert_eq!(line.as_deref(), Some("Best solution: selected=2/3"));
}

#[test]
fn omits_blank_best_solution_presentations() {
    let line = ConsoleObserver::format_best_solution_line("   \n  ");
    assert_eq!(line, None);
}

#[test]
fn report_rows_are_newest_first() {
    assert_eq!(newest_first(4, RECENT_GENERATION_ROWS), vec![3, 2, 1, 0]);
    assert_eq!(newest_first(30, BEST_UPDATE_ROWS).len(), 20);
    assert_eq!(newest_first(30, 3), vec![29, 28, 27]);
    assert!(newest_first(0, 5).is_empty());
}

#[test]
fn report_progress_is_finished_after_end_or_failure() {
    let mut progress = ReportProgress::new();
    assert!(!progress.is_finished());
    progress.on_start("GA".to_string());
    assert!(!progress.is_finished());
    progress.on_failed(3, 30, "boom".to_string());
    assert!(progress.is_finished());
    let mut progress = ReportProgress::new();
    progress.on_start("GA".to_string());
    progress.on_end(4, 40);
    assert!(progress.is_finished());
}
