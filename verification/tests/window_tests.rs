//! Tests for the metric slot selection state.

use trackio_tui::window::MetricSlotState;

#[test]
fn test_new_default_state() {
    let state = MetricSlotState::new();
    assert_eq!(state.selected_slot, 0);
    assert_eq!(state.window_start, 0);
}

#[test]
fn test_selected_metric_calculation() {
    let mut state = MetricSlotState::new();
    state.selected_slot = 2;
    state.window_start = 3;
    assert_eq!(state.selected_metric(12), 5); // (3 + 2) % 12 = 5

    // Test wrap-around
    state.window_start = 10;
    state.selected_slot = 4;
    assert_eq!(state.selected_metric(12), 2); // (10 + 4) % 12 = 2
}

#[test]
fn test_select_slot_basic() {
    let mut state = MetricSlotState::new();
    state.select_slot(4, 12);
    assert_eq!(state.selected_slot, 4);
}

#[test]
fn test_select_slot_out_of_range_ignored() {
    let mut state = MetricSlotState::new();
    state.selected_slot = 2;
    // Try to select slot 10 (out of range for 9 slots)
    state.select_slot(10, 12);
    assert_eq!(state.selected_slot, 2); // Unchanged

    // Try to select slot 5 when only 3 metrics exist
    state.select_slot(5, 3);
    assert_eq!(state.selected_slot, 2); // Unchanged
}

#[test]
fn test_select_slot_zero_metrics() {
    let mut state = MetricSlotState::new();
    state.select_slot(0, 0);
    assert_eq!(state.selected_slot, 0);
}

#[test]
fn test_shift_right_basic() {
    let mut state = MetricSlotState::new();
    state.shift_right(12);
    assert_eq!(state.window_start, 1);
    state.shift_right(12);
    assert_eq!(state.window_start, 2);
}

#[test]
fn test_shift_left_basic() {
    let mut state = MetricSlotState::new();
    state.window_start = 3;
    state.shift_left(12);
    assert_eq!(state.window_start, 2);
    state.shift_left(12);
    assert_eq!(state.window_start, 1);
}

#[test]
fn test_shift_right_circular() {
    let mut state = MetricSlotState::new();
    // Circular model: can start at any position
    state.window_start = 10;
    state.shift_right(12);
    assert_eq!(state.window_start, 11);
    state.shift_right(12);
    assert_eq!(state.window_start, 0); // Wrapped from 11 to 0
    state.shift_right(12);
    assert_eq!(state.window_start, 1);
}

#[test]
fn test_shift_left_circular() {
    let mut state = MetricSlotState::new();
    state.window_start = 1;
    state.shift_left(12);
    assert_eq!(state.window_start, 0);
    state.shift_left(12);
    assert_eq!(state.window_start, 11); // Wrapped from 0 to 11
    state.shift_left(12);
    assert_eq!(state.window_start, 10);
}

#[test]
fn test_fewer_than_9_metrics_no_shift() {
    let mut state = MetricSlotState::new();

    // With 5 metrics, shifting should do nothing
    state.shift_right(5);
    assert_eq!(state.window_start, 0);

    state.shift_left(5);
    assert_eq!(state.window_start, 0);
}

#[test]
fn test_exactly_9_metrics_no_shift() {
    let mut state = MetricSlotState::new();

    state.shift_right(9);
    assert_eq!(state.window_start, 0);

    state.shift_left(9);
    assert_eq!(state.window_start, 0);
}

#[test]
fn test_clamp_after_metrics_reduced() {
    let mut state = MetricSlotState::new();
    state.window_start = 5;
    state.selected_slot = 7;

    // Reduce to 6 metrics
    state.clamp(6);

    // window_start should be 5 % 6 = 5 (valid in circular model)
    assert_eq!(state.window_start, 5);
    // selected_slot should be clamped to 5 (max index for 6 slots)
    assert_eq!(state.selected_slot, 5);
}

#[test]
fn test_clamp_wraps_window_start() {
    let mut state = MetricSlotState::new();
    state.window_start = 15;
    state.selected_slot = 2;

    // 6 metrics: window_start wraps via modulo
    state.clamp(6);

    assert_eq!(state.window_start, 3); // 15 % 6 = 3
    assert_eq!(state.selected_slot, 2); // Still valid
}

#[test]
fn test_clamp_zero_metrics() {
    let mut state = MetricSlotState::new();
    state.window_start = 5;
    state.selected_slot = 3;

    state.clamp(0);

    assert_eq!(state.window_start, 0);
    assert_eq!(state.selected_slot, 0);
}

#[test]
fn test_clamp_preserves_valid_state() {
    let mut state = MetricSlotState::new();
    state.window_start = 2;
    state.selected_slot = 3;

    // 12 metrics - state is already valid
    state.clamp(12);

    assert_eq!(state.window_start, 2);
    assert_eq!(state.selected_slot, 3);
}

#[test]
fn test_num_visible_slots() {
    let state = MetricSlotState::new();

    assert_eq!(state.num_visible_slots(12), 9);
    assert_eq!(state.num_visible_slots(5), 5);
    assert_eq!(state.num_visible_slots(0), 0);
}

#[test]
fn test_has_more_circular() {
    let state = MetricSlotState::new();

    // With more metrics than slots, both directions are available (circular)
    assert!(state.has_more_left(12));
    assert!(state.has_more_right(12));

    // With exactly 9 metrics, no shifting possible
    assert!(!state.has_more_left(9));
    assert!(!state.has_more_right(9));

    // With fewer than 9 metrics, no shifting possible
    assert!(!state.has_more_left(5));
    assert!(!state.has_more_right(5));
}

#[test]
fn test_slot_selection_with_fewer_metrics() {
    let mut state = MetricSlotState::new();

    // With 3 metrics, can only select slots 0, 1, 2
    state.select_slot(2, 3);
    assert_eq!(state.selected_slot, 2);

    // Slot 3 is out of range
    state.select_slot(3, 3);
    assert_eq!(state.selected_slot, 2); // Unchanged
}

#[test]
fn test_integration_scenario() {
    // Simulate user interaction: 12 metrics (a-l)
    let mut state = MetricSlotState::new();
    let num_metrics = 12;

    // Initial: slot 0 selected, showing metric 0 (a)
    assert_eq!(state.selected_metric(num_metrics), 0);

    // Press "3" - select slot 2
    state.select_slot(2, num_metrics);
    assert_eq!(state.selected_slot, 2);
    assert_eq!(state.selected_metric(num_metrics), 2); // metric c

    // Press "]" - shift window right
    state.shift_right(num_metrics);
    assert_eq!(state.window_start, 1);
    assert_eq!(state.selected_slot, 2); // Still slot 2
    assert_eq!(state.selected_metric(num_metrics), 3); // metric d (1 + 2)

    // Press "]" again
    state.shift_right(num_metrics);
    assert_eq!(state.window_start, 2);
    assert_eq!(state.selected_metric(num_metrics), 4); // metric e (2 + 2)

    // Press "[" - shift back
    state.shift_left(num_metrics);
    assert_eq!(state.window_start, 1);
    assert_eq!(state.selected_metric(num_metrics), 3); // metric d
}

#[test]
fn test_circular_wrap_user_scenario() {
    // User scenario: 12 metrics, slot 5 selected, metric 12 in slot 5
    // Press "]" -> metric 1 should move into slot 5
    let mut state = MetricSlotState::new();
    let num_metrics = 12;

    // Let's set window_start = 7:
    // Slot 0 -> metric (7 + 0) % 12 = 7
    // Slot 4 -> metric (7 + 4) % 12 = 11 (metric "12" if 1-indexed)
    state.window_start = 7;
    state.selected_slot = 4;
    assert_eq!(state.selected_metric(num_metrics), 11); // "metric 12"

    // Press "]" - shift right by 1
    state.shift_right(num_metrics);
    assert_eq!(state.window_start, 8);
    assert_eq!(state.selected_slot, 4); // Still slot 4

    // Now slot 4 shows metric (8 + 4) % 12 = 0 (metric "1")
    assert_eq!(state.selected_metric(num_metrics), 0);
}

#[test]
fn test_shift_round_trip_restores_window() {
    // A right rotation followed by a left rotation restores window_start,
    // whatever the metric count.
    for n in [0usize, 1, 5, 9, 10, 12, 100] {
        let mut state = MetricSlotState::new();
        state.window_start = if n > 0 { (n - 1) / 2 } else { 0 };
        let before = state.window_start;
        state.shift_right(n);
        state.shift_left(n);
        assert_eq!(state.window_start, before);
    }
}

#[test]
fn test_selected_metric_always_in_range() {
    // (window_start + slot) % N stays in [0, N) for positive N.
    let cases = [(0usize, 0usize, 1usize), (7, 4, 12), (11, 8, 12), (3, 2, 4), (100, 8, 9)];
    for (ws, slot, n) in cases {
        let mut state = MetricSlotState::new();
        state.window_start = ws;
        state.selected_slot = slot;
        let idx = state.selected_metric(n);
        assert!(idx < n);
        assert_eq!(idx, (ws + slot) % n);
    }
}

#[test]
fn test_toggle_metric_round_trip() {
    let mut state = MetricSlotState::new();
    state.toggle_metric("loss");
    assert!(state.selected_metric_names().iter().any(|n| n == "loss"));
    state.toggle_metric("accuracy");
    assert_eq!(state.selected_metric_names().len(), 2);
    state.toggle_metric("loss");
    assert!(!state.selected_metric_names().iter().any(|n| n == "loss"));
    state.clear_selection();
    assert!(state.selected_metric_names().is_empty());
}
