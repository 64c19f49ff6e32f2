//! Tests for the navigation state machine and data models.

use trackio_tui::models::{Config, ConfigValue, Metric, MetricPoint, Project, Run, VALUE_SCALE};
use trackio_tui::nav::{Action, App, FocusedPanel, Key, StatusBar};

fn make_metric(name: &str, values: &[f64]) -> Metric {
    Metric {
        name: name.to_string(),
        points: values
            .iter()
            .enumerate()
            .map(|(i, &v)| MetricPoint {
                step: i as i64,
                value: (v * VALUE_SCALE as f64) as i64,
                timestamp: None,
            })
            .collect(),
    }
}

fn make_run(id: &str) -> Run {
    Run::new(
        id.to_string(),
        "proj".to_string(),
        None,
        vec![Config { key: "name".to_string(), value: ConfigValue::Str("Test".to_string()) }],
    )
}

fn make_project(name: &str) -> Project {
    Project { name: name.to_string(), run_count: 1, last_updated: None }
}

#[test]
fn test_run_display_name_truncated() {
    let long = Run::new("abcdefghijk".to_string(), "p".to_string(), None, vec![]);
    assert_eq!(long.display_name, "abcdefgh...");
    let short = Run::new("abc".to_string(), "p".to_string(), None, vec![]);
    assert_eq!(short.display_name, "abc");
}

#[test]
fn test_focus_cycles_through_panels() {
    assert_eq!(FocusedPanel::Projects.next(), FocusedPanel::Runs);
    assert_eq!(FocusedPanel::Runs.next(), FocusedPanel::Config);
    assert_eq!(FocusedPanel::Config.next(), FocusedPanel::Projects);
    assert_eq!(FocusedPanel::Projects.prev(), FocusedPanel::Config);
    assert_eq!(FocusedPanel::Runs.prev(), FocusedPanel::Projects);
    assert_eq!(FocusedPanel::Config.prev(), FocusedPanel::Runs);
}

#[test]
fn test_quit_key_sets_flag() {
    let mut app = App::new();
    let action = app.handle_input(Key::Char('q'));
    assert!(matches!(action, Action::Quit));
    assert!(app.should_quit);
}

#[test]
fn test_tab_cycles_focus() {
    let mut app = App::new();
    app.handle_input(Key::Tab);
    assert_eq!(app.focused, FocusedPanel::Runs);
    app.handle_input(Key::Tab);
    assert_eq!(app.focused, FocusedPanel::Config);
    app.handle_input(Key::BackTab);
    assert_eq!(app.focused, FocusedPanel::Runs);
}

#[test]
fn test_refresh_key_requests_refresh() {
    let mut app = App::new();
    let action = app.handle_input(Key::Char('r'));
    assert!(matches!(action, Action::Refresh));
}

#[test]
fn test_apply_projects_clamps_selection() {
    let mut app = App::new();
    app.apply_projects(vec![make_project("a"), make_project("b")]);
    assert_eq!(app.selected_project, 0);
    app.selected_project = 1;
    app.apply_projects(vec![make_project("a")]);
    assert_eq!(app.selected_project, 0);
    app.apply_projects(Vec::new());
    assert_eq!(app.selected_project, 0);
}

#[test]
fn test_select_project_ignores_out_of_range() {
    let mut app = App::new();
    app.apply_projects(vec![make_project("a"), make_project("b")]);
    app.select_project(1);
    assert_eq!(app.selected_project, 1);
    app.select_project(5);
    assert_eq!(app.selected_project, 1);
}

#[test]
fn test_apply_runs_prunes_comparison_on_refresh() {
    let mut app = App::new();
    app.apply_runs(vec![make_run("a"), make_run("b")], false);
    app.comparison.toggle_run("a");
    app.comparison.toggle_run("b");

    // Same-project refresh where run "b" disappeared: prune keeps "a" only.
    app.apply_runs(vec![make_run("a")], true);
    assert!(app.comparison.is_marked("a"));
    assert!(!app.comparison.is_marked("b"));
}

#[test]
fn test_apply_runs_clears_comparison_on_project_change() {
    let mut app = App::new();
    app.apply_runs(vec![make_run("a")], false);
    app.comparison.toggle_run("a");

    app.apply_runs(vec![make_run("a")], false);
    assert!(!app.comparison.is_marked("a"));
    assert!(!app.comparison.has_comparisons());
}

#[test]
fn test_apply_metrics_derives_names_and_clamps_window() {
    let mut app = App::new();
    app.slots.window_start = 15;
    app.slots.selected_slot = 7;
    app.apply_metrics(vec![make_metric("loss", &[1.0]), make_metric("acc", &[0.5])]);
    assert_eq!(app.metric_names, vec!["loss".to_string(), "acc".to_string()]);
    assert_eq!(app.slots.window_start, 1); // 15 % 2
    assert_eq!(app.slots.selected_slot, 1); // clamped to last visible slot
}

#[test]
fn test_toggle_comparison_via_key() {
    let mut app = App::new();
    app.apply_runs(vec![make_run("a"), make_run("b")], false);
    app.focused = FocusedPanel::Runs;
    let action = app.handle_input(Key::Char('s'));
    match action {
        Action::LoadComparison(id) => assert_eq!(id, "a"),
        _ => panic!("expected a comparison load for the marked run"),
    }
    assert!(app.comparison.is_marked("a"));

    // Toggling again unmarks and asks for nothing.
    let action = app.handle_input(Key::Char('s'));
    assert!(matches!(action, Action::Stay));
    assert!(!app.comparison.is_marked("a"));
}

#[test]
fn test_clear_all_comparisons_key() {
    let mut app = App::new();
    app.apply_runs(vec![make_run("a"), make_run("b")], false);
    app.comparison.toggle_run("a");
    app.comparison.toggle_run("b");
    app.handle_input(Key::Char('S'));
    assert!(!app.comparison.has_comparisons());
}

#[test]
fn test_digit_selects_slot() {
    let mut app = App::new();
    let metrics: Vec<Metric> = (0..12).map(|i| make_metric(&format!("m{}", i), &[0.1])).collect();
    app.apply_metrics(metrics);
    app.handle_input(Key::Char('3'));
    assert_eq!(app.slots.selected_slot, 2);
    // An out-of-range digit for the visible slots is ignored.
    app.apply_metrics(vec![make_metric("only", &[0.1])]);
    app.handle_input(Key::Char('9'));
    assert_eq!(app.slots.selected_slot, 0);
}

#[test]
fn test_bracket_keys_shift_window() {
    let mut app = App::new();
    let metrics: Vec<Metric> = (0..12).map(|i| make_metric(&format!("m{}", i), &[0.1])).collect();
    app.apply_metrics(metrics);
    app.handle_input(Key::Char(']'));
    assert_eq!(app.slots.window_start, 1);
    app.handle_input(Key::Char('['));
    assert_eq!(app.slots.window_start, 0);
}

#[test]
fn test_run_navigation_wraps_and_requests_metrics() {
    let mut app = App::new();
    app.apply_runs(vec![make_run("a"), make_run("b")], false);
    app.focused = FocusedPanel::Runs;
    let action = app.handle_input(Key::Down);
    assert!(matches!(action, Action::LoadMetrics));
    assert_eq!(app.selected_run, 1);
    app.handle_input(Key::Down);
    assert_eq!(app.selected_run, 0); // wrapped
    app.handle_input(Key::Up);
    assert_eq!(app.selected_run, 1); // wrapped backwards
}

#[test]
fn test_project_navigation_requests_runs() {
    let mut app = App::new();
    app.apply_projects(vec![make_project("a"), make_project("b")]);
    let action = app.handle_input(Key::Down);
    assert!(matches!(action, Action::LoadRuns));
    assert_eq!(app.selected_project, 1);
}

#[test]
fn test_search_entry_and_editing() {
    let mut app = App::new();
    app.apply_runs(vec![make_run("a")], false);
    app.focused = FocusedPanel::Config;
    app.handle_input(Key::Char('/'));
    assert!(app.config_panel.search_active);

    // Typing recomputes matches against the rendered config line "name: Test".
    app.handle_input(Key::Char('t'));
    app.handle_input(Key::Char('e'));
    assert_eq!(app.config_panel.search, "te");
    assert_eq!(app.config_panel.match_indices, vec![0]);

    // Backspace edits the query.
    app.handle_input(Key::Backspace);
    assert_eq!(app.config_panel.search, "t");

    // Enter leaves search entry and jumps to the first match.
    app.handle_input(Key::Enter);
    assert!(!app.config_panel.search_active);
    assert_eq!(app.config_panel.current_match, 0);
}

#[test]
fn test_escape_clears_search_then_leaves_panel() {
    let mut app = App::new();
    app.apply_runs(vec![make_run("a")], false);
    app.focused = FocusedPanel::Config;
    app.handle_input(Key::Char('/'));
    app.handle_input(Key::Char('t'));
    app.handle_input(Key::Esc); // leaves search entry
    assert!(!app.config_panel.search_active);
    app.handle_input(Key::Esc); // first: clears the query
    assert!(app.config_panel.search.is_empty());
    app.handle_input(Key::Esc); // second: returns focus to runs
    assert_eq!(app.focused, FocusedPanel::Runs);
}

#[test]
fn test_error_message_set_and_cleared() {
    let mut app = App::new();
    app.set_error("boom".to_string());
    assert_eq!(app.error_message.as_deref(), Some("boom"));
    app.clear_error();
    assert!(app.error_message.is_none());
}

#[test]
fn test_status_text_variants() {
    let bar = StatusBar::new(Some("proj"), None);
    assert_eq!(bar.status_text(), "trackio-tui: proj | [h] Help [q] Quit");
    let bar = StatusBar::new(None, None);
    assert_eq!(bar.status_text(), "trackio-tui | [h] Help [q] Quit");
    let bar = StatusBar::new(Some("proj"), Some("db missing"));
    assert_eq!(bar.status_text(), "Error: db missing");
}

#[test]
fn test_help_toggle_and_escape() {
    let mut app = App::new();
    app.handle_input(Key::Char('?'));
    assert!(app.show_help);
    app.handle_input(Key::Esc);
    assert!(!app.show_help);
    app.handle_input(Key::Char('h'));
    assert!(app.show_help);
    app.handle_input(Key::F1);
    assert!(!app.show_help);
}

#[test]
fn test_config_scrolling() {
    let mut app = App::new();
    let config: Vec<Config> = (0..5)
        .map(|i| Config { key: format!("k{}", i), value: ConfigValue::Int(i) })
        .collect();
    app.apply_runs(
        vec![Run::new("a".to_string(), "p".to_string(), None, config)],
        false,
    );
    app.focused = FocusedPanel::Config;
    app.handle_input(Key::Down);
    app.handle_input(Key::Down);
    assert_eq!(app.config_panel.scroll_v, 2);
    app.handle_input(Key::Up);
    assert_eq!(app.config_panel.scroll_v, 1);
    app.handle_input(Key::Right);
    assert_eq!(app.config_panel.scroll_h, 4);
    app.handle_input(Key::Left);
    assert_eq!(app.config_panel.scroll_h, 0);
    // Scrolling down stops at the last line.
    for _ in 0..20 {
        app.handle_input(Key::Down);
    }
    assert_eq!(app.config_panel.scroll_v, 4);
}
