//! Tests for the TUI app state: tab cycling, the unread mark, tab closing, the
//! search box, and what Ctrl+C and `q` decide. None need a terminal — they drive
//! `App` directly, with the services' statuses and line totals held here.

use std::collections::HashSet;

use proccie::service::ServiceStatus;
use proccie::tui::app::{App, Command, Fingerprint};
use proccie::tui::key::{Key, KeyCode};

/// An app over two services (`a`, `b`) with their statuses and line totals.
struct Harness {
    app: App,
    statuses: Vec<ServiceStatus>,
    totals: Vec<u64>,
}

impl Harness {
    fn two() -> Harness {
        Harness {
            app: App::new(2),
            statuses: vec![ServiceStatus::Running, ServiceStatus::Running],
            totals: vec![0, 0],
        }
    }

    fn any_running(&self) -> bool {
        self.statuses.iter().any(|s| s.is_active())
    }

    fn press(&mut self, key: Key) -> bool {
        let running = self.any_running();
        self.app.handle_key(key, running, &self.statuses).hard_exit
    }

    fn press_for(&mut self, key: Key) -> Option<Command> {
        let running = self.any_running();
        self.app.handle_key(key, running, &self.statuses).command
    }

    /// One line of output from service `i`.
    fn emit(&mut self, i: usize) {
        self.totals[i] += 1;
    }

    fn unread(&self, i: usize) -> bool {
        self.app.has_unread(i, self.totals[i])
    }

    fn mark_seen(&mut self) {
        self.app.mark_seen(&self.totals);
    }
}

fn ctrl_c() -> Key {
    Key::ctrl(KeyCode::Char('c'))
}

fn q_key() -> Key {
    Key::plain(KeyCode::Char('q'))
}

fn char_key(c: char) -> Key {
    Key::plain(KeyCode::Char(c))
}

fn key(code: KeyCode) -> Key {
    Key::plain(code)
}

fn with_cmd(code: KeyCode) -> Key {
    Key { code, ctrl: false, alt: false, shift: false, cmd: true }
}

#[test]
fn tabs_cycle_and_wrap() {
    let mut h = Harness::two();
    // All + a + b.
    assert_eq!(h.app.tabs().len(), 3);
    assert_eq!(h.app.active(), 0);

    h.app.next_tab();
    assert_eq!(h.app.active(), 1);
    h.app.next_tab();
    assert_eq!(h.app.active(), 2);
    h.app.next_tab();
    assert_eq!(h.app.active(), 0); // wrap forward

    h.app.prev_tab();
    assert_eq!(h.app.active(), 2); // wrap backward
}

#[test]
fn unread_follows_focus_and_scroll() {
    let mut h = Harness::two();
    let b = 1;

    // Output while All is active: marked seen, so no unread.
    h.emit(b);
    assert!(h.unread(b));
    h.mark_seen();
    assert!(!h.unread(b));

    // Focused on `a`, output to `b` raises b's mark.
    h.app.next_tab();
    h.emit(b);
    h.mark_seen();
    assert!(h.unread(b));

    // Viewing b's tab at the tail clears it.
    h.app.next_tab();
    h.mark_seen();
    assert!(!h.unread(b));

    // Scrolled up on b, new output re-raises the mark.
    h.app.set_viewport(0);
    h.app.scroll_up(1); // offset > 0 pauses following
    h.emit(b);
    h.mark_seen();
    assert!(h.unread(b));

    // Back at the bottom, it clears again.
    h.app.scroll_end();
    h.mark_seen();
    assert!(!h.unread(b));
}

#[test]
fn status_nouns_are_distinct_and_cover_every_state() {
    // The footer tallies through ServiceStatus::all() and labels via noun():
    // each state is listed once, and the nouns are distinct so counts for
    // different states never collapse together.
    let all = ServiceStatus::all();
    let nouns: Vec<&str> = all.iter().map(|s| s.noun()).collect();
    let unique: HashSet<&str> = nouns.iter().copied().collect();
    assert_eq!(unique.len(), all.len());
    // The carried code never changes the noun.
    assert_eq!(ServiceStatus::Completed(0).noun(), "completed");
    assert_eq!(ServiceStatus::Completed(2).noun(), "completed");
    assert_eq!(ServiceStatus::Failed(1).noun(), "failed");
}

#[test]
fn ctrl_c_quits_proccie_only_once_nothing_is_running() {
    let mut h = Harness::two();
    // Both services already terminal: nothing is running.
    h.statuses = vec![ServiceStatus::Completed(0), ServiceStatus::Stopped];
    assert!(!h.any_running());

    // Ctrl+C with nothing running asks to quit, but waits for the runner's
    // teardown before actually closing.
    assert!(!h.press(ctrl_c()));
    assert!(h.app.is_exiting());
    assert!(!h.app.should_quit());

    // Once the runner reports it finished, the app quits.
    h.app.on_runner_finished(Some(0));
    assert!(h.app.should_quit());
}

#[test]
fn second_ctrl_c_during_teardown_arms_a_forced_exit() {
    let mut h = Harness::two();
    h.statuses = vec![ServiceStatus::Completed(0), ServiceStatus::Stopped];

    // First Ctrl+C asks to quit (teardown pending), without forcing.
    assert!(!h.press(ctrl_c()));
    assert!(h.app.is_exiting());
    assert!(!h.app.should_quit());

    // A second Ctrl+C while teardown is still finishing arms the forced hard-exit.
    assert!(h.press(ctrl_c()));
}

#[test]
fn ctrl_c_stops_services_then_stays_open_for_log_review() {
    let mut h = Harness::two();

    // Services are running: Ctrl+C on the All tab stops them, it does not quit.
    assert_eq!(h.press_for(ctrl_c()), Some(Command::Shutdown));
    assert!(h.app.is_shutting_down());
    assert!(!h.app.should_quit());
    assert!(!h.app.is_exiting());

    // The services exit and the runner finishes: the app stays open.
    h.statuses = vec![ServiceStatus::Stopped, ServiceStatus::Stopped];
    h.app.on_runner_finished(Some(0));
    assert!(!h.app.should_quit());

    // Now that nothing is running, a further Ctrl+C quits.
    h.press(ctrl_c());
    assert!(h.app.should_quit());
}

#[test]
fn q_stops_services_then_exits_once_they_are_down() {
    let mut h = Harness::two();

    // q begins shutting services down and marks the app to exit, but waits for
    // the services to actually stop first.
    h.press(q_key());
    assert!(h.app.is_shutting_down());
    assert!(h.app.is_exiting());
    assert!(!h.app.should_quit());

    // Once the services stop and the runner finishes, the app exits.
    h.statuses = vec![ServiceStatus::Stopped, ServiceStatus::Stopped];
    h.app.on_runner_finished(Some(0));
    assert!(h.app.should_quit());
}

#[test]
fn search_box_opens_edits_and_commits() {
    let mut h = Harness::two();
    assert!(h.app.search_input().is_none());

    // `s` opens an empty box: it filters nothing until a query is typed.
    h.press(char_key('s'));
    assert_eq!(h.app.search_input().as_deref(), Some(""));
    assert!(h.app.filter_query().is_none());

    // Printable keys build the query — including ones that are commands normally.
    h.press(char_key('q'));
    h.press(char_key('x'));
    assert_eq!(h.app.search_input().as_deref(), Some("qx"));
    assert_eq!(h.app.filter_query().as_deref(), Some("qx"));
    assert!(!h.app.is_exiting(), "'q' typed into the box must not quit");

    // Enter commits: the box closes but the filter stays applied.
    h.press(key(KeyCode::Enter));
    assert!(h.app.search_input().is_none(), "editor closed after commit");
    assert_eq!(h.app.filter_query().as_deref(), Some("qx"), "filter still applied");

    // `s` reopens editing on the committed query; Esc then clears everything.
    h.press(char_key('s'));
    assert_eq!(h.app.search_input().as_deref(), Some("qx"));
    h.press(key(KeyCode::Esc));
    assert!(h.app.search_input().is_none());
    assert!(h.app.filter_query().is_none());
}

#[test]
fn search_query_supports_cursor_editing() {
    let mut h = Harness::two();
    h.press(char_key('s'));
    for c in "abd".chars() {
        h.press(char_key(c));
    }
    assert_eq!(h.app.filter_query().as_deref(), Some("abd"));

    // Left once (before 'd'), insert 'c' → "abcd".
    h.press(key(KeyCode::Left));
    h.press(char_key('c'));
    assert_eq!(h.app.filter_query().as_deref(), Some("abcd"));

    // Home then Delete drops the first char → "bcd"; Backspace at the start no-ops.
    h.press(key(KeyCode::Home));
    h.press(key(KeyCode::Delete));
    assert_eq!(h.app.filter_query().as_deref(), Some("bcd"));
    h.press(key(KeyCode::Backspace));
    assert_eq!(h.app.filter_query().as_deref(), Some("bcd"));
}

#[test]
fn cmd_arrows_jump_to_the_ends_of_the_query() {
    let mut h = Harness::two();
    h.press(char_key('s'));
    for c in "bcd".chars() {
        h.press(char_key(c));
    }

    // Cmd+Left jumps to the front; typing there prepends.
    h.press(with_cmd(KeyCode::Left));
    h.press(char_key('a'));
    assert_eq!(h.app.filter_query().as_deref(), Some("abcd"));

    // Cmd+Right jumps to the end; typing there appends.
    h.press(with_cmd(KeyCode::Right));
    h.press(char_key('e'));
    assert_eq!(h.app.filter_query().as_deref(), Some("abcde"));
}

#[test]
fn readline_combos_jump_to_the_ends_of_the_query() {
    let mut h = Harness::two();
    h.press(char_key('s'));
    for c in "bcd".chars() {
        h.press(char_key(c));
    }

    // Ctrl+A jumps to the front; typing there prepends.
    h.press(Key::ctrl(KeyCode::Char('a')));
    h.press(char_key('a'));
    assert_eq!(h.app.filter_query().as_deref(), Some("abcd"));

    // Ctrl+E jumps to the end; typing there appends.
    h.press(Key::ctrl(KeyCode::Char('e')));
    h.press(char_key('e'));
    assert_eq!(h.app.filter_query().as_deref(), Some("abcde"));
}

#[test]
fn committed_filter_lets_commands_through_and_esc_clears() {
    let mut h = Harness::two();
    h.press(char_key('s'));
    h.press(char_key('x'));
    h.press(key(KeyCode::Enter)); // commit "x"
    assert_eq!(h.app.filter_query().as_deref(), Some("x"));

    // With the box shut, `q` is a command again (not typed into the query).
    h.press(q_key());
    assert!(h.app.is_exiting(), "'q' should quit once the filter is committed");

    // Esc clears the committed filter.
    h.press(key(KeyCode::Esc));
    assert!(h.app.filter_query().is_none());
}

#[test]
fn search_box_lets_ctrl_c_and_navigation_through() {
    let mut h = Harness::two();
    h.press(char_key('s')); // box open, active tab is All

    // Ctrl+C still drives shutdown rather than typing 'c' into the query.
    h.press(ctrl_c());
    assert!(h.app.is_shutting_down());
    assert_eq!(h.app.search_input().as_deref(), Some(""), "Ctrl+C must not edit the query");

    // Tab still switches tabs while the box is open (navigation falls through).
    let before = h.app.active();
    h.press(key(KeyCode::Tab));
    assert_ne!(h.app.active(), before);
}

#[test]
fn close_only_clean_exited_service_tabs() {
    let mut h = Harness::two();

    // All tab: closing is a no-op.
    h.app.close_active(&h.statuses);
    assert_eq!(h.app.tabs().len(), 3);

    // Running service tab: still a no-op.
    h.app.next_tab(); // service a
    h.app.close_active(&h.statuses);
    assert_eq!(h.app.tabs().len(), 3);

    // A failure is not closeable.
    h.statuses[0] = ServiceStatus::Failed(1);
    h.app.close_active(&h.statuses);
    assert_eq!(h.app.tabs().len(), 3);

    // An expected non-zero completion is a success, so it is closeable too.
    h.statuses[0] = ServiceStatus::Completed(2);
    assert!(h.statuses[0].is_closeable());

    // An expected completion closes, and focus moves to the next sibling (b
    // slides into the closed slot) rather than jumping back to All.
    h.statuses[0] = ServiceStatus::Completed(0);
    h.app.close_active(&h.statuses);
    assert_eq!(h.app.tabs().len(), 2);
    assert_eq!(h.app.active(), 1);
}

#[test]
fn second_quit_while_stopping_escalates_to_a_force_kill() {
    let mut h = Harness::two();
    assert_eq!(h.press_for(ctrl_c()), Some(Command::Shutdown));
    // A repeat while services still run force-kills them.
    assert_eq!(h.press_for(ctrl_c()), Some(Command::ForceShutdown));
}

#[test]
fn ctrl_c_on_a_running_service_tab_stops_just_that_service() {
    let mut h = Harness::two();
    h.app.next_tab();
    h.app.next_tab(); // service b
    assert_eq!(h.press_for(ctrl_c()), Some(Command::StopService(1)));
    assert!(!h.app.is_shutting_down());
}

#[test]
fn scrolling_saturates_and_end_follows_again() {
    let mut h = Harness::two();
    h.app.set_viewport(10);
    h.app.scroll_down(3);
    assert_eq!(h.app.active_scroll().offset_from_bottom, 0);
    h.app.scroll_up(4);
    assert_eq!(h.app.active_scroll().offset_from_bottom, 4);
    assert!(!h.app.active_scroll().is_following());
    h.app.scroll_end();
    assert!(h.app.active_scroll().is_following());
}

#[test]
fn the_caret_splits_the_query_around_the_cursor() {
    let mut h = Harness::two();
    h.press(char_key('s'));
    for c in "abc".chars() {
        h.press(char_key(c));
    }
    assert_eq!(h.app.search_caret(), Some(("abc".to_string(), None, String::new())));
    h.press(key(KeyCode::Left));
    h.press(key(KeyCode::Left));
    assert_eq!(h.app.search_caret(), Some(("a".to_string(), Some('b'), "c".to_string())));
    assert_eq!(h.app.search_editing(), Some(("abc".to_string(), 1)));
    h.press(key(KeyCode::Enter));
    assert_eq!(h.app.search_caret(), None);
}

fn fingerprint(h: &Harness) -> Fingerprint {
    h.app.render_fingerprint(&h.statuses, &h.totals, 7)
}

#[test]
fn fingerprint_tracks_what_is_drawn() {
    let mut h = Harness::two();
    h.totals = vec![3, 4];
    let f = fingerprint(&h);
    assert_eq!(f.active, 0);
    assert_eq!(f.tab_count, 3);
    assert_eq!(f.content, vec![7, 3, 4]);
    assert_eq!(f.marks, vec![(ServiceStatus::Running, true), (ServiceStatus::Running, true)]);
    assert_eq!(f.search, None);
    // Nothing changed: equal fingerprints, so the frame can be skipped.
    assert_eq!(fingerprint(&h), f);
    // Seeing the lines clears the unread marks and changes the fingerprint.
    h.app.mark_seen(&h.totals);
    let seen = fingerprint(&h);
    assert_eq!(seen.marks, vec![(ServiceStatus::Running, false), (ServiceStatus::Running, false)]);
    assert_ne!(seen, f);
    // A service tab reads only its own total.
    h.press(key(KeyCode::Tab));
    let g = fingerprint(&h);
    assert_eq!(g.active, 1);
    assert_eq!(g.content, vec![3]);
    // Opening the search box shows in the fingerprint.
    h.press(key(KeyCode::Char('s')));
    assert_eq!(fingerprint(&h).search, Some((true, String::new(), 0)));
}
