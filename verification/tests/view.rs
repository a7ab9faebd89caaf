//! Tests for what the screen shows: search highlighting, footer text, tab
//! icons and accents, and the viewport window over wrapped lines.

use proccie::service::ServiceStatus;
use proccie::theme::{AnsiColor, Color, Theme};
use proccie::tui::app::App;
use proccie::tui::key::{Key, KeyCode};
use proccie::tui::view::{
    alert_status, clamp_offset, committed_trailer, editing_trailer, footer_hints, footer_pieces, footer_status,
    highlight, plural, service_tally, status_accent, tab_icon, viewport_window, Segment, Tone,
};

fn seg(text: &str, marked: bool) -> Segment {
    Segment { text: text.to_string(), marked }
}

#[test]
fn highlight_marks_every_match_smart_case() {
    assert_eq!(
        highlight("Error: an error", Some("error")),
        vec![seg("Error", true), seg(": an ", false), seg("error", true)]
    );
    // An uppercase letter makes the query case-sensitive.
    assert_eq!(highlight("Error: an error", Some("Error")), vec![seg("Error", true), seg(": an error", false)]);
    // Matches do not overlap: "aa" in "aaa" marks the first two only.
    assert_eq!(highlight("aaa", Some("aa")), vec![seg("aa", true), seg("a", false)]);
}

#[test]
fn highlight_without_a_query_or_match_is_one_plain_segment() {
    assert_eq!(highlight("plain text", None), vec![seg("plain text", false)]);
    assert_eq!(highlight("plain text", Some("")), vec![seg("plain text", false)]);
    assert_eq!(highlight("plain text", Some("zzz")), vec![seg("plain text", false)]);
    assert_eq!(highlight("", Some("x")), vec![seg("", false)]);
}

#[test]
fn tab_icons_carry_noteworthy_codes_and_accents() {
    assert_eq!(tab_icon(ServiceStatus::Running), "●");
    assert_eq!(tab_icon(ServiceStatus::Completed(0)), "✓");
    assert_eq!(tab_icon(ServiceStatus::Completed(2)), "✓2");
    assert_eq!(tab_icon(ServiceStatus::Failed(1)), "✗1");
    assert_eq!(status_accent(ServiceStatus::Failed(1), Theme::Dark), Theme::Dark.error());
    assert_eq!(status_accent(ServiceStatus::Running, Theme::Light), Theme::Light.success());
    assert_eq!(status_accent(ServiceStatus::Stopped, Theme::Dark), Theme::Dark.subtle());
    assert_ne!(Theme::Dark.error(), Color::Ansi(AnsiColor::Black));
}

#[test]
fn footer_counts_read_naturally() {
    assert_eq!(plural(1), "");
    assert_eq!(plural(0), "es");
    assert_eq!(editing_trailer(true, 0), "   type to filter · Esc: cancel");
    assert_eq!(editing_trailer(false, 1), "   1 match · Enter: keep · Esc: clear · Ctrl+A/E: ends");
    assert_eq!(committed_trailer(6), "   6 matches · s: edit · Esc: clear");
}

#[test]
fn tally_lists_non_zero_states_in_lifecycle_order() {
    let statuses = vec![
        ServiceStatus::Failed(2),
        ServiceStatus::Running,
        ServiceStatus::Running,
        ServiceStatus::Completed(0),
        ServiceStatus::Failed(1),
    ];
    assert_eq!(service_tally(&statuses), "2 running, 1 completed, 2 failed");
    assert_eq!(service_tally(&vec![]), "");
}

#[test]
fn footer_status_prefers_the_alert() {
    let mut app = App::new(2);
    let statuses = vec![ServiceStatus::Running, ServiceStatus::Waiting];
    assert_eq!(alert_status(&app), None);
    assert_eq!(footer_status(&app, &statuses), "1 running, 1 waiting");

    app.handle_key(Key::ctrl(KeyCode::Char('c')), true, &statuses);
    assert_eq!(footer_status(&app, &statuses).as_str(), "shutting down… (Ctrl+C/q again to force-kill)");

    app.on_runner_finished(Some(0));
    assert_eq!(alert_status(&app).as_deref(), Some("exited (code 0) — Ctrl+C/q to quit"));
}

#[test]
fn close_hint_shows_on_a_cleanly_finished_tab() {
    let mut app = App::new(1);
    let done = vec![ServiceStatus::Completed(0)];
    assert!(!footer_hints(&app, &done).ends_with("c: close"));
    app.next_tab();
    assert!(footer_hints(&app, &done).ends_with("   c: close"));
    assert!(!footer_hints(&app, &vec![ServiceStatus::Failed(1)]).ends_with("c: close"));
}

#[test]
fn scroll_offsets_clamp_to_the_first_row() {
    // 12 wrapped rows into a 7-row viewport: at most 5 rows up.
    assert_eq!(clamp_offset(usize::MAX, 12, 7), 5);
    assert_eq!(clamp_offset(2, 12, 7), 2);
    assert_eq!(clamp_offset(4, 3, 7), 0);
}

#[test]
fn viewport_window_keeps_the_rows_it_needs() {
    // Six lines of two rows each; a 7-row viewport at the tail needs 7 rows:
    // the last four lines (8 rows), skipping one row at the top.
    let rows = vec![2, 2, 2, 2, 2, 2];
    assert_eq!(viewport_window(&rows, 0, 7), (2, 1));
    // Two rows up: 9 rows needed, the last five lines (10 rows), one skipped.
    assert_eq!(viewport_window(&rows, 2, 7), (1, 1));
    // More than everything: all lines, nothing skipped.
    assert_eq!(viewport_window(&rows, 100, 7), (0, 0));
    assert_eq!(viewport_window(&vec![], 0, 7), (0, 0));
}

#[test]
fn highlighted_segments_join_back_to_the_line() {
    for (text, query) in [("Error: an error", "error"), ("aaaa", "aa"), ("mixed Case", "case"), ("none", "zz")] {
        let joined: String = highlight(text, Some(query)).into_iter().map(|s| s.text).collect();
        assert_eq!(joined, text);
    }
}

/// The footer's text, its pieces joined.
fn footer_text(app: &App, statuses: &Vec<ServiceStatus>, matches: usize) -> String {
    footer_pieces(app, statuses, matches).into_iter().map(|(_, t)| t).collect()
}

fn type_query(app: &mut App, statuses: &Vec<ServiceStatus>, text: &str) {
    app.handle_key(Key::plain(KeyCode::Char('s')), false, statuses);
    for c in text.chars() {
        app.handle_key(Key::plain(KeyCode::Char(c)), false, statuses);
    }
}

#[test]
fn search_footer_keeps_the_run_status_and_hints_cursor_keys() {
    let statuses = vec![ServiceStatus::Completed(0)];
    let mut app = App::new(1);
    app.on_runner_finished(Some(0));
    type_query(&mut app, &statuses, "end");
    let screen = footer_text(&app, &statuses, 6);
    assert!(screen.contains("exited (code 0)"), "run status hidden while searching: {screen}");
    assert!(screen.contains("Ctrl+A/E"), "cursor-jump keys not hinted: {screen}");
}

#[test]
fn footer_pieces_style_the_caret_and_filter() {
    let statuses = vec![ServiceStatus::Running];
    let mut app = App::new(1);
    // No search: hints, a divider and the tally.
    let plain = footer_pieces(&app, &statuses, 0);
    assert_eq!(plain.len(), 3);
    assert_eq!(plain[0].0, Tone::Dim);
    assert_eq!(plain[2], (Tone::Plain, "1 running".to_string()));
    // Editing: the caret sits past the end as a reversed blank.
    type_query(&mut app, &statuses, "ab");
    let editing = footer_pieces(&app, &statuses, 2);
    assert_eq!(editing[0], (Tone::Bold, "Search: ".to_string()));
    assert_eq!(editing[1], (Tone::Plain, "ab".to_string()));
    assert_eq!(editing[2], (Tone::Caret, " ".to_string()));
    assert_eq!(editing[3], (Tone::Dim, "   2 matches · Enter: keep · Esc: clear · Ctrl+A/E: ends".to_string()));
    assert_eq!(editing.len(), 4);
    // Moving left puts the caret on the last character.
    app.handle_key(Key::plain(KeyCode::Left), false, &statuses);
    let moved = footer_pieces(&app, &statuses, 2);
    assert_eq!(moved[1], (Tone::Plain, "a".to_string()));
    assert_eq!(moved[2], (Tone::Caret, "b".to_string()));
    assert_eq!(moved[3], (Tone::Plain, String::new()));
    // Enter commits the filter.
    app.handle_key(Key::plain(KeyCode::Enter), false, &statuses);
    let committed = footer_pieces(&app, &statuses, 1);
    assert_eq!(committed, vec![
        (Tone::Bold, "Filter: ".to_string()),
        (Tone::Plain, "ab".to_string()),
        (Tone::Dim, "   1 match · s: edit · Esc: clear".to_string()),
    ]);
}
