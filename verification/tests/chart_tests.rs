//! Tests for the chart pipeline: bounds, smoothing, styles and legend.

use trackio_tui::chart::{
    calculate_bounds, color_index, factorize_legend, gather_chart_series, marker_index,
    metric_index_by_name, smooth_metric, ChartSeries, COLOR_COUNT, MARKER_COUNT,
};
use trackio_tui::models::{Metric, MetricPoint, Run, VALUE_SCALE};

fn fx(v: f64) -> i64 {
    (v * VALUE_SCALE as f64) as i64
}

fn make_metric(name: &str, values: &[f64]) -> Metric {
    Metric {
        name: name.to_string(),
        points: values
            .iter()
            .enumerate()
            .map(|(i, &v)| MetricPoint { step: i as i64, value: fx(v), timestamp: None })
            .collect(),
    }
}

#[test]
fn test_calculate_bounds() {
    let data = vec![
        vec![(0, fx(1.0)), (5, fx(3.0))],
        vec![(2, fx(0.5)), (10, fx(2.0))],
    ];

    let (x_bounds, y_bounds) = calculate_bounds(&data);

    assert_eq!(x_bounds, (0, 10));
    assert_eq!(y_bounds, (fx(0.5), fx(3.0)));
}

#[test]
fn test_calculate_bounds_single_point() {
    let data = vec![vec![(5, fx(5.0))]];

    let (x_bounds, y_bounds) = calculate_bounds(&data);

    // Should expand to valid range
    assert_eq!(x_bounds, (5, 6));
    assert_eq!(y_bounds, (fx(5.0), fx(6.0)));
}

#[test]
fn test_calculate_bounds_empty_data() {
    // Completely empty
    let data: Vec<Vec<(i64, i64)>> = vec![];
    let (x_bounds, y_bounds) = calculate_bounds(&data);
    assert_eq!(x_bounds, (0, 1));
    assert_eq!(y_bounds, (0, VALUE_SCALE));

    // Empty inner vectors
    let data = vec![vec![], vec![]];
    let (x_bounds, y_bounds) = calculate_bounds(&data);
    assert_eq!(x_bounds, (0, 1));
    assert_eq!(y_bounds, (0, VALUE_SCALE));
}

#[test]
fn test_smoothing_factor_zero_is_identity() {
    let metric = make_metric("loss", &[1.0, 0.5, 0.25, 0.75]);
    let smoothed = smooth_metric(&metric.points, 0);
    assert_eq!(smoothed.len(), metric.points.len());
    for (a, b) in smoothed.iter().zip(metric.points.iter()) {
        assert_eq!(a.step, b.step);
        assert_eq!(a.value, b.value);
        assert_eq!(a.timestamp, b.timestamp);
    }
}

#[test]
fn test_smoothing_keeps_steps_and_damps_values() {
    let metric = make_metric("loss", &[1.0, 0.0, 0.0]);
    // factor 50 hundredths: s0 = 1.0, s1 = 0.5 * 0 + 0.5 * 1.0 = 0.5,
    // s2 = 0.5 * 0 + 0.5 * 0.5 = 0.25
    let smoothed = smooth_metric(&metric.points, 50);
    let values: Vec<i64> = smoothed.iter().map(|p| p.value).collect();
    assert_eq!(values, vec![fx(1.0), fx(0.5), fx(0.25)]);
    let steps: Vec<i64> = smoothed.iter().map(|p| p.step).collect();
    assert_eq!(steps, vec![0, 1, 2]);
}

#[test]
fn test_smoothing_factor_clamped_above_99() {
    let metric = make_metric("loss", &[1.0, 0.0]);
    let at_99 = smooth_metric(&metric.points, 99);
    let above = smooth_metric(&metric.points, 255);
    let v99: Vec<i64> = at_99.iter().map(|p| p.value).collect();
    let vab: Vec<i64> = above.iter().map(|p| p.value).collect();
    assert_eq!(v99, vab);
}

#[test]
fn test_style_indices_are_stable_and_in_range() {
    // Color depends on run identity alone; marker on metric identity alone.
    let c1 = color_index("run-a");
    let c2 = color_index("run-a");
    assert_eq!(c1, c2);
    assert!(c1 < COLOR_COUNT);
    let m1 = marker_index("loss");
    let m2 = marker_index("loss");
    assert_eq!(m1, m2);
    assert!(m1 < MARKER_COUNT);
    // Exact values of the identity code formula: the sum of the scalar
    // values modulo the palette size.
    // "run-a": 114 + 117 + 110 + 45 + 97 = 483, and 483 % 6 = 3.
    assert_eq!(c1, 3);
    // "loss": 108 + 111 + 115 + 115 = 449, and 449 % 4 = 1.
    assert_eq!(m1, 1);
}

#[test]
fn test_legend_factorizes_runs_and_metrics() {
    let series = vec![
        ChartSeries {
            label: "r1".to_string(),
            run_id: "run-1".to_string(),
            metric: make_metric("loss", &[1.0]),
        },
        ChartSeries {
            label: "r2".to_string(),
            run_id: "run-2".to_string(),
            metric: make_metric("loss", &[0.9]),
        },
        ChartSeries {
            label: "r1".to_string(),
            run_id: "run-1".to_string(),
            metric: make_metric("accuracy", &[0.5]),
        },
    ];
    let (runs, metrics) = factorize_legend(&series);
    // Two distinct runs and two distinct metrics, not one entry per series.
    assert_eq!(runs.len(), 2);
    assert_eq!(runs[0], ("r1".to_string(), "run-1".to_string()));
    assert_eq!(runs[1], ("r2".to_string(), "run-2".to_string()));
    assert_eq!(metrics, vec!["loss".to_string(), "accuracy".to_string()]);
}

#[test]
fn test_gather_chart_series_sorts_and_filters() {
    let runs = vec![
        Run::new("alpha".to_string(), "proj".to_string(), None, vec![]),
        Run::new("zeta".to_string(), "proj".to_string(), None, vec![]),
    ];
    // Comparison pairs sorted by run id, with one metric of another name.
    let comparison = vec![
        ("alpha".to_string(), make_metric("loss", &[0.1])),
        ("zeta".to_string(), make_metric("accuracy", &[0.9])),
        ("zeta".to_string(), make_metric("loss", &[0.2])),
    ];
    let current = Some(ChartSeries {
        label: "mid".to_string(),
        run_id: "mid".to_string(),
        metric: make_metric("loss", &[0.3]),
    });
    let out = gather_chart_series(current, &comparison, &runs, "loss");
    let ids: Vec<&str> = out.iter().map(|s| s.run_id.as_str()).collect();
    assert_eq!(ids, vec!["alpha", "mid", "zeta"]);
    assert!(out.iter().all(|s| s.metric.name == "loss"));
}

#[test]
fn test_metric_index_by_name() {
    let metrics = vec![make_metric("loss", &[0.1]), make_metric("accuracy", &[0.9])];
    assert_eq!(metric_index_by_name(&metrics, "accuracy"), Some(1));
    assert_eq!(metric_index_by_name(&metrics, "loss"), Some(0));
    assert_eq!(metric_index_by_name(&metrics, "missing"), None);
}
