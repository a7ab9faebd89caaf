//! Tests for the supervision decisions: exits, retries, dependency results,
//! the supervisor's bookkeeping (groups, stops, restart batches, leftovers),
//! readiness timing and checks, and the streaming output watch.

use proccie::config::schema::{ExitCodes, Readiness, Span, StatusCodes};
use proccie::config::graph::topo_order;
use proccie::config::Config;
use proccie::config::environment::EnvFiles;
use proccie::config::procfile::TopValue;
use proccie::config::schema::Process;
use proccie::logger::search::Needle;
use proccie::runner::readiness::{
    describe, duration_or, http_passes, plan, readiness_step, shell_passes, OutputWatch, Plan,
    ReadinessEvent, ReadinessStep,
};
use proccie::runner::supervise::{subtree, GroupSignal, Registered, StopReason, Supervisor};
use proccie::runner::{
    after_attempt, classify_exit, exit_code_of, is_expected_completion, max_attempts, resolve_dep, retry_message,
    retry_note, signal_label, signal_name, terminal_failure_message, unexpected_exit_message, DepState, Next, RunResult,
};
use proccie::service::identities;
use proccie::strmap::StrMap;
use proccie::theme::{Color, Theme};
use proccie::config::Source;

fn names(v: &[&str]) -> Vec<String> {
    v.iter().map(|s| s.to_string()).collect()
}

#[test]
fn first_non_zero_exit_code_sticks() {
    let mut s = Supervisor::new();
    s.set_exit_code(0);
    assert_eq!(s.exit_code(), 0);
    s.set_exit_code(3);
    s.set_exit_code(1);
    assert_eq!(s.exit_code(), 3);
}

#[test]
fn shutdown_starts_once() {
    let mut s = Supervisor::new();
    assert!(s.begin_shutdown());
    assert!(!s.begin_shutdown());
    assert!(s.is_shutting_down());
}

#[test]
fn registering_a_group_respects_racing_stops() {
    let mut s = Supervisor::new();
    assert_eq!(s.register_group("web", 100), Registered { signal: None, escalate: false });
    assert_eq!(s.group_of("web"), Some(100));

    // A graceful stop of `db` before it registers: SIGTERM now, SIGKILL later.
    let (already, live) = s.mark_subtree_stopped("db", &names(&["db"]));
    assert!(!already);
    assert!(live.is_empty());
    assert_eq!(s.register_group("db", 200), Registered { signal: Some(GroupSignal::Term), escalate: true });

    // A repeat stop forces the kill.
    let (already, live) = s.mark_subtree_stopped("db", &names(&["db"]));
    assert!(already);
    assert_eq!(live, vec![("db".to_string(), 200)]);
    assert_eq!(s.register_group("db", 201), Registered { signal: Some(GroupSignal::Kill), escalate: false });

    // During a shutdown newcomers get SIGTERM; after a kill sweep, SIGKILL.
    s.begin_shutdown();
    assert_eq!(s.register_group("api", 300), Registered { signal: Some(GroupSignal::Term), escalate: false });
    let swept = s.signal_all(GroupSignal::Kill);
    assert_eq!(swept.len(), 3);
    assert_eq!(s.register_group("late", 400), Registered { signal: Some(GroupSignal::Kill), escalate: false });
}

#[test]
fn deregistering_reports_whether_the_exit_was_a_stop() {
    let mut s = Supervisor::new();
    s.register_group("web", 7);
    assert_eq!(s.deregister_group("web"), (Some(7), false));
    assert_eq!(s.deregister_group("web"), (None, false));
    s.mark_subtree_stopped("web", &names(&["web"]));
    assert!(s.is_stopped("web"));
    assert_eq!(s.deregister_group("web"), (None, true));
}

#[test]
fn restarts_and_the_end_of_the_run_exclude_each_other() {
    let mut s = Supervisor::new();
    assert!(s.arm_restart());
    assert!(!s.end_run_if_idle(), "an armed restart keeps the run alive");
    s.queue_restart(names(&["web"]));
    assert!(s.any_live());
    // The batch's only member is gone: it is claimed and the run may end.
    assert_eq!(s.take_ready_restarts(&names(&["db", "web"]), &vec![]), ["web"]);
    assert!(s.end_run_if_idle());
    assert!(!s.arm_restart(), "no restart once the run has ended");
}

#[test]
fn overlapping_restart_batches_merge_and_relaunch_in_start_order() {
    let mut s = Supervisor::new();
    s.arm_restart();
    s.queue_restart(names(&["api", "web"]));
    s.arm_restart();
    s.queue_restart(names(&["worker"]));
    s.arm_restart();
    s.queue_restart(names(&["db", "api"]));
    // `web` still runs: the merged {db, api, web} batch waits; {worker} is free.
    let order = names(&["db", "api", "web", "worker"]);
    assert_eq!(s.take_ready_restarts(&order, &names(&["web"])), ["worker"]);
    assert!(s.restart_in_flight());
    assert_eq!(s.take_ready_restarts(&order, &vec![]), ["db", "api", "web"]);
    assert!(!s.restart_in_flight());
}

#[test]
fn claiming_a_restart_clears_its_stop_marks() {
    let mut s = Supervisor::new();
    s.arm_restart();
    let (already, _) = s.mark_subtree_stopped("web", &names(&["web"]));
    assert!(!already);
    s.queue_restart(names(&["web"]));
    assert!(s.is_stopped("web"));
    let claimed = s.claim_ready_restarts(&vec![]);
    assert_eq!(claimed, ["web"]);
    assert!(!s.is_stopped("web"));
}

#[test]
fn a_shutdown_discards_queued_restarts() {
    let mut s = Supervisor::new();
    s.arm_restart();
    s.queue_restart(names(&["web"]));
    s.begin_shutdown();
    assert!(s.claim_ready_restarts(&vec![]).is_empty());
    assert!(!s.restart_in_flight());
    assert!(!s.arm_restart(), "no restart during a shutdown");
}

#[test]
fn leftover_groups_are_taken_once() {
    let mut s = Supervisor::new();
    s.add_stray(50, "web".to_string());
    s.add_stray(60, "db".to_string());
    s.add_stray(50, "web".to_string());
    assert_eq!(s.take_stray(50).as_deref(), Some("web"));
    assert_eq!(s.take_stray(50), None);
    let rest = s.take_strays();
    assert_eq!(rest, vec![(60, "db".to_string())]);
    assert!(s.take_strays().is_empty());
}

#[test]
fn only_still_registered_groups_are_killed_after_the_grace() {
    let mut s = Supervisor::new();
    s.register_group("web", 10);
    s.register_group("db", 20);
    s.deregister_group("db");
    s.register_group("db", 21); // relaunched with a fresh group
    let pids = vec![("web".to_string(), 10), ("db".to_string(), 20)];
    assert_eq!(s.still_registered(&pids), vec![("web".to_string(), 10)]);
}

#[test]
fn stop_messages_name_the_service_and_its_upstream() {
    assert_eq!(StopReason::Manual.announce("db"), "stopping db and its dependents...");
    assert_eq!(StopReason::Restart.escalate("db"), "force-restarting db and its dependents (SIGKILL)");
    assert_eq!(StopReason::Manual.note("db", true), "Manually shut down.");
    assert_eq!(
        StopReason::Manual.note("db", false),
        "Upstream service `db` was manually shut down. Shutting down dependent process…"
    );
    assert_eq!(StopReason::Restart.note("db", false), "Upstream service `db` is restarting; restarting…");
}

#[test]
fn a_subtree_is_the_dependents_then_the_service() {
    let mut top = StrMap::new();
    let mut table = |name: &str, deps: &[&str]| {
        let mut p = Process::with_command("x".to_string());
        p.depends_on = names(deps);
        top.insert(name.to_string(), TopValue::Table { entries: StrMap::new(), process: Ok(p) });
    };
    table("db", &[]);
    table("api", &["db"]);
    table("web", &["api"]);
    table("cache", &[]);
    let parsed = Config::parse("Procfile.toml", Source::Toml(Ok(top))).unwrap();
    let cfg = match Config::load("Procfile.toml", parsed, StrMap::new(), &EnvFiles::new()) {
        Ok(c) => c,
        Err(e) => panic!("{}", e.message()),
    };
    assert_eq!(subtree("db", &cfg.adjacency()), ["api", "web", "db"]);
    assert_eq!(subtree("cache", &cfg.adjacency()), ["cache"]);

    // Each service gets the next palette color, in start order.
    let ids = identities(&cfg, &cfg.adjacency(), Theme::Dark);
    let keys: Vec<&str> = ids.iter().map(|i| i.key.as_str()).collect();
    assert_eq!(keys, ["api", "cache", "db", "web"]);
    let palette = Theme::Dark.palette();
    let color_of = |k: &str| ids.iter().find(|i| i.key == k).unwrap().color;
    // Start order is db, api, cache, web: names in alphabetical order, each
    // after its dependencies.
    assert_eq!(topo_order(&cfg.adjacency()), ["db", "api", "cache", "web"]);
    assert_eq!(color_of("db"), Color::Ansi(palette[0]));
    assert_eq!(color_of("api"), Color::Ansi(palette[1]));
    assert_eq!(color_of("cache"), Color::Ansi(palette[2]));
    assert_eq!(color_of("web"), Color::Ansi(palette[3]));
}

#[test]
fn exits_classify_by_expectation_and_shutdown() {
    let mut p = Process::with_command("x".to_string());
    p.exit_codes = ExitCodes(vec![0, 2]);
    assert!(is_expected_completion(true, None, false, &p, 2));
    assert!(!is_expected_completion(true, None, true, &p, 2));
    assert!(!is_expected_completion(true, Some(9), false, &p, 2));
    assert_eq!(classify_exit(false, false, None, 1, &p), RunResult::Failed(1));
    assert_eq!(classify_exit(false, false, Some(9), 137, &p), RunResult::Failed(137));
    assert_eq!(classify_exit(true, false, None, 1, &p), RunResult::Shutdown);
    let plain = Process::with_command("x".to_string());
    assert_eq!(classify_exit(false, false, None, 0, &plain), RunResult::Completed);
    assert_eq!(classify_exit(false, false, None, 0, &p), RunResult::Failed(1));
    assert_eq!(exit_code_of(Some(Some(3)), None), 3);
    assert_eq!(exit_code_of(Some(None), Some(9)), 137);
    assert_eq!(exit_code_of(None, None), 1);
}

#[test]
fn retries_run_out_after_max_retries() {
    assert_eq!(max_attempts(2), 3);
    assert_eq!(after_attempt(RunResult::Failed(4), 1, 3), Next::Retry);
    assert_eq!(after_attempt(RunResult::Failed(4), 3, 3), Next::FailTerminally(4));
    assert_eq!(after_attempt(RunResult::Completed, 1, 1), Next::CompleteTerminally);
    assert_eq!(after_attempt(RunResult::Expected, 1, 3), Next::Done);
    assert_eq!(after_attempt(RunResult::Shutdown, 1, 3), Next::Done);
}

#[test]
fn a_dependency_resolves_once() {
    let mut d = DepState::Pending;
    assert!(resolve_dep(&mut d, DepState::Ready));
    assert!(!resolve_dep(&mut d, DepState::Failed));
    assert_eq!(d, DepState::Ready);
}

#[test]
fn signals_are_named_or_numbered() {
    assert_eq!(signal_name(9), "SIGKILL");
    assert_eq!(signal_name(15), "SIGTERM");
    assert_eq!(signal_label(99, None), "signal 99");
    assert_eq!(signal_name(1000), "signal 1000");
}

#[test]
fn readiness_timing_defaults_unset_and_zero_durations() {
    let zero = Span { secs: 0, nanos: 0 };
    assert_eq!(duration_or(Some(zero), Span::from_secs(7)), Span::from_secs(7));
    assert_eq!(duration_or(Some(Span::from_secs(2)), Span::from_secs(7)), Span::from_secs(2));
    let shell = Readiness::Shell {
        cmd: "check".to_string(),
        interval: None,
        timeout: Some(Span::from_secs(10)),
        exit_codes: Some(ExitCodes(vec![0])),
        output: None,
    };
    assert_eq!(plan(&shell), Plan::Poll { timeout: Span::from_secs(10), interval: Span::from_secs(1) });
    let watch = Readiness::Output { output: "listening".to_string(), timeout: None };
    assert_eq!(plan(&watch), Plan::Watch { timeout: Span::from_secs(30) });
    assert_eq!(plan(&Readiness::Delay(Span::from_secs(3))), Plan::Delay(Span::from_secs(3)));
    assert_eq!(describe(&shell).as_deref(), Some("polling readiness command: check"));
    assert_eq!(describe(&watch), None);
}

#[test]
fn shell_and_http_checks_need_every_configured_condition() {
    let codes = Some(ExitCodes(vec![0]));
    let needle = Some(Needle::new("ready".to_string()));
    assert!(shell_passes(&codes, Some(0), &None, b""));
    assert!(!shell_passes(&codes, Some(1), &None, b""));
    assert!(!shell_passes(&codes, None, &None, b""));
    assert!(shell_passes(&None, None, &needle, b"\x1b[32mREADY\x1b[0m now"));
    assert!(!shell_passes(&codes, Some(0), &needle, b"starting"));

    let ok = StatusCodes(vec![200, 204]);
    assert!(http_passes(&ok, 204, &None, None));
    assert!(!http_passes(&ok, 500, &None, Some(b"ready")));
    assert!(http_passes(&ok, 200, &needle, Some(b"all ready")));
    assert!(!http_passes(&ok, 200, &needle, None));
}

#[test]
fn readiness_events_release_only_live_unstopped_services() {
    assert_eq!(readiness_step(ReadinessEvent::Checked { passed: true }, false, true), ReadinessStep::Release);
    assert_eq!(readiness_step(ReadinessEvent::Checked { passed: false }, false, true), ReadinessStep::Continue);
    assert_eq!(readiness_step(ReadinessEvent::Checked { passed: true }, true, true), ReadinessStep::Cancel);
    assert_eq!(readiness_step(ReadinessEvent::Deadline, false, true), ReadinessStep::FailStartup);
    assert_eq!(readiness_step(ReadinessEvent::Deadline, true, true), ReadinessStep::Cancel);
    assert_eq!(readiness_step(ReadinessEvent::Reached, false, false), ReadinessStep::Cancel);
    assert_eq!(readiness_step(ReadinessEvent::Reached, false, true), ReadinessStep::Release);
    assert_eq!(readiness_step(ReadinessEvent::Cancelled, false, true), ReadinessStep::Cancel);
}

#[test]
fn output_watch_finds_a_needle_split_across_reads() {
    let mut w = OutputWatch::new(&Needle::new("listening on".to_string()));
    assert!(!w.feed_stripped(b"server liste"));
    assert!(w.feed_stripped(b"ning on :8080"));
    assert!(w.is_done());
    // Once matched it stays inert.
    assert!(!w.feed_stripped(b"listening on"));
}

#[test]
fn output_watch_strips_escapes_split_across_reads() {
    let mut w = OutputWatch::new(&Needle::new("Ready".to_string()));
    assert!(!w.feed(b"\x1b[1"));
    assert!(!w.feed(b"mRea"));
    assert!(w.feed(b"dy\x1b[0m"));
}

#[test]
fn output_watch_is_smart_case() {
    let mut w = OutputWatch::new(&Needle::new("ready".to_string()));
    assert!(w.feed_stripped(b"SERVER READY"));
    let mut w = OutputWatch::new(&Needle::new("Ready".to_string()));
    assert!(!w.feed_stripped(b"SERVER READY"));
}

#[test]
fn terminal_failure_message_names_exhausted_retries() {
    assert_eq!(terminal_failure_message("web", 3), "web: all 3 retries exhausted, initiating shutdown");
    assert_eq!(terminal_failure_message("web", 0), "web failed, initiating shutdown");
}

#[test]
fn retry_messages_count_retries_used() {
    assert_eq!(retry_message("api", 2, 3), "api: retry 1/3");
    assert_eq!(retry_note(4, 3), "Process exited; retrying (3/3)\u{2026}");
}

#[test]
fn unexpected_exit_message_names_signal_or_code() {
    assert_eq!(unexpected_exit_message("web", Some(11), 139), "web terminated by SIGSEGV (code 139)");
    assert_eq!(unexpected_exit_message("web", None, 3), "web exited with unexpected code 3");
    assert_eq!(unexpected_exit_message("db", Some(200), 1), "db terminated by signal 200 (code 1)");
}

#[test]
fn output_watch_matches_a_needle_broken_by_color_codes() {
    let mut w = OutputWatch::new(&Needle::new("Ready".to_string()));
    assert!(!w.feed(b"server Re\x1b[3"));
    assert!(w.feed(b"2mady\x1b[0m"));
}
