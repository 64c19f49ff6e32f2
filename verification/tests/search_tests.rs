//! Tests for the Unicode-correct configuration search.

use trackio_tui::search::{case_insensitive_byte_ranges, ConfigPanelState};

#[test]
fn test_search_case_insensitive_match_indices() {
    // Search over the rendered lines with a lowercase query matching an
    // uppercase original: only the second line matches.
    let lines = vec!["epochs: 10".to_string(), "name: Test".to_string()];
    let mut panel = ConfigPanelState::new();
    panel.search = "te".to_string();
    panel.update_config_search_matches(&lines);
    assert_eq!(panel.match_indices, vec![1]);

    // next_match with only one match wraps to the same entry.
    panel.next_config_match();
    assert_eq!(panel.current_match, 0);
}

#[test]
fn test_search_clear_resets_state() {
    let lines = vec!["epochs: 10".to_string(), "name: Test".to_string()];
    let mut panel = ConfigPanelState::new();
    panel.search = "te".to_string();
    panel.update_config_search_matches(&lines);
    assert_eq!(panel.match_indices.len(), 1);

    panel.search = String::new();
    panel.match_indices = Vec::new();
    panel.current_match = 0;
    panel.update_config_search_matches(&lines);
    assert!(panel.match_indices.is_empty());
    // No active search: the panel title is the plain one.
    assert_eq!(panel.panel_title(), " Config ");
}

#[test]
fn test_empty_query_matches_nothing() {
    let lines = vec!["anything".to_string()];
    let mut panel = ConfigPanelState::new();
    panel.update_config_search_matches(&lines);
    assert!(panel.match_indices.is_empty());
}

#[test]
fn test_match_cursor_wraps_both_ways() {
    let lines = vec![
        "alpha: 1".to_string(),
        "beta: 2".to_string(),
        "alphabet: 3".to_string(),
    ];
    let mut panel = ConfigPanelState::new();
    panel.search = "alpha".to_string();
    panel.update_config_search_matches(&lines);
    assert_eq!(panel.match_indices, vec![0, 2]);

    panel.next_config_match();
    assert_eq!(panel.current_match, 1);
    assert_eq!(panel.scroll_v, 2);
    panel.next_config_match();
    assert_eq!(panel.current_match, 0);
    assert_eq!(panel.scroll_v, 0);
    panel.prev_config_match();
    assert_eq!(panel.current_match, 1);
    panel.prev_config_match();
    assert_eq!(panel.current_match, 0);
}

#[test]
fn test_byte_ranges_ascii() {
    let ranges = case_insensitive_byte_ranges("name: Test", "te");
    // "te" matches the lowercased "Te" at byte 6.
    assert_eq!(ranges, vec![(6, 8)]);
    let line = "name: Test";
    assert_eq!(&line[6..8], "Te");
}

#[test]
fn test_byte_ranges_unicode_lowercase_changes_length() {
    // The uppercase dotted I lowercases to two characters, so byte offsets
    // into the lowercased text differ from the original. The reported range
    // must still slice the original correctly.
    let line = "A\u{130}B: x";
    let ranges = case_insensitive_byte_ranges(line, "b");
    assert_eq!(ranges.len(), 1);
    let (start, end) = ranges[0];
    // 'A' is 1 byte, the dotted I is 2 bytes, so 'B' is at byte 3.
    assert_eq!((start, end), (3, 4));
    assert_eq!(&line[start..end], "B");
}

#[test]
fn test_byte_ranges_no_panic_on_unicode_query() {
    // A query whose lowercase folding spans the multi-character expansion.
    let line = "caf\u{c9}s here";
    let ranges = case_insensitive_byte_ranges(line, "caf\u{e9}s");
    assert_eq!(ranges.len(), 1);
    let (start, end) = ranges[0];
    assert!(start <= end && end <= line.len());
    assert!(line.is_char_boundary(start) && line.is_char_boundary(end));
    assert_eq!(&line[start..end], "caf\u{c9}s");
}

#[test]
fn test_empty_query_yields_no_ranges() {
    assert!(case_insensitive_byte_ranges("whatever", "").is_empty());
}

#[test]
fn test_uppercase_query_matches_lowercase_text() {
    // Fails if case folding handed characters back unchanged.
    let ranges = case_insensitive_byte_ranges("test", "TE");
    assert_eq!(ranges, vec![(0, 2)]);
}

#[test]
fn test_panel_title_shows_match_position() {
    let lines = vec!["alpha: 1".to_string(), "alphabet: 3".to_string()];
    let mut panel = ConfigPanelState::new();
    panel.search = "alpha".to_string();
    panel.update_config_search_matches(&lines);
    assert_eq!(panel.panel_title(), " Config [alpha] (1/2) ");
    panel.search_active = true;
    assert_eq!(panel.panel_title(), " Config [/alpha] (1/2) ");
}

#[test]
fn test_panel_title_no_matches() {
    let lines = vec!["alpha: 1".to_string()];
    let mut panel = ConfigPanelState::new();
    panel.search = "zzz".to_string();
    panel.update_config_search_matches(&lines);
    assert_eq!(panel.panel_title(), " Config [zzz] (no matches) ");
}

#[test]
fn test_stale_cursor_resets_after_recompute() {
    let lines = vec![
        "alpha: 1".to_string(),
        "alphabet: 2".to_string(),
        "alphanumeric: 3".to_string(),
    ];
    let mut panel = ConfigPanelState::new();
    panel.search = "alpha".to_string();
    panel.update_config_search_matches(&lines);
    panel.next_config_match();
    panel.next_config_match();
    assert_eq!(panel.current_match, 2);

    // The config changed: fewer matches now; the stale cursor resets to 0.
    let fewer = vec!["alpha: 1".to_string(), "beta: 2".to_string()];
    panel.update_config_search_matches(&fewer);
    assert_eq!(panel.match_indices, vec![0]);
    assert_eq!(panel.current_match, 0);
}
