//! Tests for the run comparison state.

use trackio_tui::comparison::ComparisonState;
use trackio_tui::models::{Metric, MetricPoint, VALUE_SCALE};

fn make_metric(name: &str, values: &[f64]) -> Metric {
    Metric {
        name: name.to_string(),
        points: values
            .iter()
            .enumerate()
            .map(|(i, &v)| MetricPoint {
                step: i as i64,
                value: (v * VALUE_SCALE as f64) as i64,
                timestamp: None,
            })
            .collect(),
    }
}

fn marked_contains(state: &ComparisonState, id: &str) -> bool {
    state.marked_run_ids().iter().any(|m| m == id)
}

#[test]
fn comparison_test_toggle_run_adds_and_removes() {
    let mut state = ComparisonState::new();

    // Initially empty
    assert!(!state.is_marked("run-0"));
    assert!(state.marked_run_ids().is_empty());

    // Toggle on
    let added = state.toggle_run("run-0");
    assert!(added);
    assert!(state.is_marked("run-0"));
    assert!(marked_contains(&state, "run-0"));
    assert_eq!(state.marked_run_ids().len(), 1);

    // Toggle off
    let added = state.toggle_run("run-0");
    assert!(!added);
    assert!(!state.is_marked("run-0"));
    assert!(state.marked_run_ids().is_empty());
}

#[test]
fn comparison_test_multiple_runs_marked() {
    let mut state = ComparisonState::new();

    state.toggle_run("run-1");
    state.toggle_run("run-3");
    state.toggle_run("run-5");

    assert!(!state.is_marked("run-0"));
    assert!(state.is_marked("run-1"));
    assert!(!state.is_marked("run-2"));
    assert!(state.is_marked("run-3"));
    assert!(!state.is_marked("run-4"));
    assert!(state.is_marked("run-5"));
    assert_eq!(state.marked_run_ids().len(), 3);
}

#[test]
fn comparison_test_clear_removes_all() {
    let mut state = ComparisonState::new();

    state.toggle_run("run-0");
    state.toggle_run("run-1");
    state.cache_metrics("run-0", vec![make_metric("loss", &[1.0, 0.5])]);
    state.cache_metrics("run-1", vec![make_metric("loss", &[0.9, 0.4])]);

    assert!(state.has_comparisons());
    assert!(state.get_cached_metrics("run-0").is_some());

    state.clear();

    assert!(!state.has_comparisons());
    assert!(state.marked_run_ids().is_empty());
    assert!(state.get_cached_metrics("run-0").is_none());
    assert!(state.get_cached_metrics("run-1").is_none());
}

#[test]
fn comparison_test_get_comparison_metrics_excludes_selected() {
    let mut state = ComparisonState::new();

    // Mark runs 0, 1, 2
    state.toggle_run("run-0");
    state.toggle_run("run-1");
    state.toggle_run("run-2");

    state.cache_metrics("run-0", vec![make_metric("loss", &[1.0])]);
    state.cache_metrics("run-1", vec![make_metric("loss", &[0.9])]);
    state.cache_metrics("run-2", vec![make_metric("loss", &[0.8])]);

    // When selected_run is "run-1", we should get metrics for runs 0 and 2 only
    let comparison: Vec<(String, Metric)> = state.get_comparison_metrics("run-1");

    assert_eq!(comparison.len(), 2);
    assert!(comparison.iter().any(|(id, _)| id == "run-0"));
    assert!(comparison.iter().any(|(id, _)| id == "run-2"));
    assert!(!comparison.iter().any(|(id, _)| id == "run-1"));
}

#[test]
fn comparison_test_get_comparison_metrics_with_multiple_metrics_per_run() {
    let mut state = ComparisonState::new();

    state.toggle_run("run-0");
    state.cache_metrics(
        "run-0",
        vec![
            make_metric("loss", &[1.0, 0.5]),
            make_metric("accuracy", &[0.5, 0.8]),
        ],
    );

    // When selected is "run-1", we get all metrics from run-0
    let comparison: Vec<(String, Metric)> = state.get_comparison_metrics("run-1");

    assert_eq!(comparison.len(), 2);
    assert!(comparison.iter().all(|(id, _)| id == "run-0"));

    let names: Vec<&str> = comparison.iter().map(|(_, m)| m.name.as_str()).collect();
    assert!(names.contains(&"loss"));
    assert!(names.contains(&"accuracy"));
}

#[test]
fn comparison_test_prune_invalid_runs() {
    let mut state = ComparisonState::new();

    state.toggle_run("run-0");
    state.toggle_run("run-3");
    state.toggle_run("run-5");
    state.cache_metrics("run-0", vec![make_metric("loss", &[1.0])]);
    state.cache_metrics("run-3", vec![make_metric("loss", &[0.9])]);
    state.cache_metrics("run-5", vec![make_metric("loss", &[0.8])]);

    // Prune: only run-0 and run-3 are valid
    let valid_ids: Vec<String> = ["run-0", "run-3"].iter().map(|s| s.to_string()).collect();
    state.prune_invalid_runs(&valid_ids);

    assert!(state.is_marked("run-0"));
    assert!(state.is_marked("run-3"));
    assert!(!state.is_marked("run-5"));
    assert!(state.get_cached_metrics("run-0").is_some());
    assert!(state.get_cached_metrics("run-3").is_some());
    assert!(state.get_cached_metrics("run-5").is_none());
}

#[test]
fn comparison_test_toggle_removes_cached_metrics() {
    let mut state = ComparisonState::new();

    state.toggle_run("run-0");
    state.cache_metrics("run-0", vec![make_metric("loss", &[1.0])]);
    assert!(state.get_cached_metrics("run-0").is_some());

    // Toggle off should also remove cached metrics
    state.toggle_run("run-0");
    assert!(state.get_cached_metrics("run-0").is_none());
}

#[test]
fn comparison_test_has_comparisons() {
    let mut state = ComparisonState::new();

    assert!(!state.has_comparisons());

    state.toggle_run("run-0");
    assert!(state.has_comparisons());

    state.toggle_run("run-0");
    assert!(!state.has_comparisons());
}

#[test]
fn test_prune_keeps_cached_metrics_untouched() {
    // Pruning removes exactly the marked ids outside the valid set; the
    // survivors keep their cached metric data unchanged.
    let mut state = ComparisonState::new();
    state.toggle_run("a");
    state.toggle_run("b");
    state.cache_metrics("a", vec![make_metric("loss", &[1.0, 0.25])]);
    state.cache_metrics("b", vec![make_metric("loss", &[0.5])]);

    let valid: Vec<String> = vec!["a".to_string()];
    state.prune_invalid_runs(&valid);

    assert!(state.is_marked("a"));
    assert!(!state.is_marked("b"));
    let kept = state.get_cached_metrics("a").unwrap();
    assert_eq!(kept.len(), 1);
    assert_eq!(kept[0].name, "loss");
    assert_eq!(kept[0].points.len(), 2);
    assert_eq!(kept[0].points[0].value, VALUE_SCALE);
    assert_eq!(kept[0].points[1].value, VALUE_SCALE / 4);
}

#[test]
fn test_comparison_output_sorted_by_run_id() {
    let mut state = ComparisonState::new();
    state.toggle_run("zeta");
    state.toggle_run("alpha");
    state.toggle_run("mid");
    state.cache_metrics("zeta", vec![make_metric("loss", &[0.3])]);
    state.cache_metrics("alpha", vec![make_metric("loss", &[0.1])]);
    state.cache_metrics("mid", vec![make_metric("loss", &[0.2])]);

    let pairs = state.get_comparison_metrics("none-selected");
    let ids: Vec<&str> = pairs.iter().map(|(id, _)| id.as_str()).collect();
    assert_eq!(ids, vec!["alpha", "mid", "zeta"]);
}
