//! The supervision decisions: how an exit resolves (expected completion,
//! shutdown, clean completion, failure), what follows an attempt (done, retry,
//! or end the run), the exit code a run reports, and how a dependency resolves.
use vstd::prelude::*;

pub mod readiness;
pub mod supervise;

use crate::config::schema::{Process, ReadyWhen, spec_ready_when};
use crate::text::{append_str, decimal, decimal_of};

verus! {

/// How a single process execution ended.
#[derive(Clone, Copy, Debug, PartialEq, Eq, Structural)]
pub enum RunResult {
    /// Exited with an expected code.
    Expected,
    /// Exited cleanly (code 0) but wasn't configured to — retried like a failure,
    /// then terminal (as a completion, not a failure) once attempts are exhausted.
    Completed,
    /// Exited with an unexpected code (or never spawned), to propagate if terminal.
    Failed(i32),
    /// Exited because a shutdown or a manual stop was in progress.
    Shutdown,
}

/// How a dependency resolved. Each process broadcasts exactly one terminal
/// state to everything waiting on it.
#[derive(Clone, Copy, Debug, PartialEq, Eq, Structural)]
pub enum DepState {
    /// Not yet resolved.
    Pending,
    /// Ready: launched, exited with an expected code, or passed readiness.
    Ready,
    /// Failed to become ready.
    Failed,
}

/// What follows an attempt.
#[derive(Clone, Copy, Debug, PartialEq, Eq, Structural)]
pub enum Next {
    /// The run of this process is over (an expected exit, or a shutdown).
    Done,
    /// Try again.
    Retry,
    /// Attempts are exhausted after a clean exit: a completion that still ends the run.
    CompleteTerminally,
    /// Attempts are exhausted after a failure: end the run with this code.
    FailTerminally(i32),
}

/// Whether a process is expected to exit, with codes that count as success.
pub open spec fn expects_exit(p: &Process) -> bool {
    spec_ready_when(p) is ExpectedExit
}

/// A dependency result is recorded only over `Pending`: the first one wins.
pub open spec fn spec_resolve_dep(current: DepState, state: DepState) -> DepState {
    if current == DepState::Pending {
        state
    } else {
        current
    }
}

/// Records a dependency result only if none is recorded yet, so later calls are
/// ignored. Returns whether it changed anything (waking all waiters).
pub fn resolve_dep(current: &mut DepState, state: DepState) -> (changed: bool)
    ensures
        changed == (*old(current) == DepState::Pending),
        *final(current) == spec_resolve_dep(*old(current), state),
{
    if *current == DepState::Pending {
        *current = state;
        true
    } else {
        false
    }
}

/// The first recorded dependency result is final.
pub proof fn lemma_first_result_wins(s: DepState, first: DepState, later: DepState)
    requires
        first != DepState::Pending,
    ensures
        spec_resolve_dep(spec_resolve_dep(s, first), later) == spec_resolve_dep(s, first),
        s == DepState::Pending ==> spec_resolve_dep(spec_resolve_dep(s, first), later) == first,
{
}

/// The exit code to report: the process's own code (1 when it has none), the
/// shell convention 128 + signal for a signal death, or 1 when the status
/// couldn't be obtained (`status` is `None`).
pub fn exit_code_of(status: Option<Option<i32>>, signal: Option<i32>) -> (code: i32)
    requires
        signal matches Some(sig) ==> sig <= i32::MAX - 128,
    ensures
        code == (match (status, signal) {
            (Some(c), None) => match c {
                Some(x) => x as int,
                None => 1,
            },
            (Some(_), Some(sig)) => 128 + sig,
            (None, _) => 1,
        }),
{
    match (status, signal) {
        (Some(c), None) => match c {
            Some(x) => x,
            None => 1,
        },
        (Some(_), Some(sig)) => 128 + sig,
        (None, _) => 1,
    }
}

/// Whether an exit settles as an expected completion: a normal exit (no
/// signal) of a process not being stopped, whose release policy is an expected
/// exit allowing `exit_code`.
pub open spec fn spec_expected_completion(status_ok: bool, signal: Option<i32>, stopped: bool, p: &Process, exit_code: i32) -> bool {
    status_ok && signal is None && !stopped && expects_exit(p) && p.exit_codes.0@.contains(exit_code)
}

/// Whether an exit settles as an expected completion (see
/// [`spec_expected_completion`]); the caller then records `Completed` only if
/// the service is still active, so a racing stop wins.
pub fn is_expected_completion(status_ok: bool, signal: Option<i32>, stopped: bool, p: &Process, exit_code: i32) -> (b: bool)
    ensures
        b == spec_expected_completion(status_ok, signal, stopped, p, exit_code),
{
    if !status_ok || signal.is_some() || stopped {
        return false;
    }
    match p.ready_when() {
        ReadyWhen::ExpectedExit(codes) => codes.allows(exit_code),
        _ => false,
    }
}

/// How a non-completion exit resolves: a shutdown or manual stop isn't a
/// failure; a signal death fails with its code; a clean exit of a process not
/// expected to exit completes; any other code fails (a clean exit as 1).
pub open spec fn spec_classify_exit(is_shutdown: bool, stopped: bool, signal: Option<i32>, exit_code: i32, p: &Process) -> RunResult {
    if is_shutdown || stopped {
        RunResult::Shutdown
    } else if signal is Some {
        RunResult::Failed(exit_code)
    } else if exit_code == 0 && !expects_exit(p) {
        RunResult::Completed
    } else {
        RunResult::Failed(if exit_code == 0 { 1 } else { exit_code })
    }
}

/// Classifies a non-completion exit (see [`spec_classify_exit`]).
pub fn classify_exit(is_shutdown: bool, stopped: bool, signal: Option<i32>, exit_code: i32, p: &Process) -> (r: RunResult)
    ensures
        r == spec_classify_exit(is_shutdown, stopped, signal, exit_code, p),
{
    if is_shutdown || stopped {
        return RunResult::Shutdown;
    }
    match signal {
        Some(_) => RunResult::Failed(exit_code),
        None => {
            let expects = match p.ready_when() {
                ReadyWhen::ExpectedExit(_) => true,
                _ => false,
            };
            if exit_code == 0 && !expects {
                RunResult::Completed
            } else {
                // 0 can't signal a failing run, so an unexpected clean exit fails as 1.
                RunResult::Failed(if exit_code == 0 { 1 } else { exit_code })
            }
        },
    }
}

/// How many times a process runs at most: once, plus its retries.
pub fn max_attempts(max_retries: i64) -> (n: i64)
    ensures
        n == (if max_retries == i64::MAX {
            i64::MAX as int
        } else {
            max_retries + 1
        }),
{
    if max_retries == i64::MAX {
        i64::MAX
    } else {
        max_retries + 1
    }
}

/// What follows attempt `attempt` of `max`: an expected exit or a shutdown ends
/// the process's run; an unexpected exit (clean or not) is retried while
/// attempts remain; once exhausted, the run ends as a completion or a failure.
pub open spec fn spec_after_attempt(r: RunResult, attempt: i64, max: i64) -> Next {
    match r {
        RunResult::Expected | RunResult::Shutdown => Next::Done,
        RunResult::Completed => if attempt < max {
            Next::Retry
        } else {
            Next::CompleteTerminally
        },
        RunResult::Failed(code) => if attempt < max {
            Next::Retry
        } else {
            Next::FailTerminally(code)
        },
    }
}

/// What follows an attempt (see [`spec_after_attempt`]).
pub fn after_attempt(r: RunResult, attempt: i64, max: i64) -> (n: Next)
    ensures
        n == spec_after_attempt(r, attempt, max),
{
    match r {
        RunResult::Expected | RunResult::Shutdown => Next::Done,
        RunResult::Completed => if attempt < max {
            Next::Retry
        } else {
            Next::CompleteTerminally
        },
        RunResult::Failed(code) => if attempt < max {
            Next::Retry
        } else {
            Next::FailTerminally(code)
        },
    }
}

/// A process with no retries never retries: its first unexpected exit ends the run.
pub proof fn lemma_no_retries_no_retry(r: RunResult)
    ensures
        spec_after_attempt(r, 1, 1) != Next::Retry,
{
}

/// The name `nix` gives a signal number, if it is a known signal.
pub uninterp spec fn nix_signal_name(sig: i32) -> Option<Seq<char>>;

/// Looks up a signal's name with `nix::sys::signal::Signal::try_from`.
#[verifier::external_body]
fn signal_lookup(sig: i32) -> (name: Option<String>)
    ensures
        match nix_signal_name(sig) {
            Some(n) => name matches Some(m) && m@ == n,
            None => name is None,
        },
{
    match nix::sys::signal::Signal::try_from(sig) {
        Ok(s) => Some(s.as_str().to_owned()),
        Err(_) => None,
    }
}

/// A signal's label for log output: its name when known, else `signal` and
/// its number.
pub fn signal_label(sig: i32, name: Option<String>) -> (s: String)
    ensures
        match name {
            Some(n) => s@ == n@,
            None => s@ == "signal "@ + decimal(sig as int),
        },
{
    match name {
        Some(n) => n,
        None => {
            let mut s = String::new();
            append_str(&mut s, "signal ");
            let d = decimal_of(sig as i64);
            append_str(&mut s, d.as_str());
            s
        },
    }
}

/// Names a signal for log output (e.g. `SIGSEGV`), falling back to its number.
pub fn signal_name(sig: i32) -> (s: String)
    ensures
        match nix_signal_name(sig) {
            Some(n) => s@ == n,
            None => s@ == "signal "@ + decimal(sig as int),
        },
{
    let name = signal_lookup(sig);
    signal_label(sig, name)
}

/// The shutdown message once a process has failed for good: with retries
/// configured, `web: all 3 retries exhausted, initiating shutdown`; without,
/// `web failed, initiating shutdown`.
pub fn terminal_failure_message(name: &str, max_retries: i64) -> (s: String)
    ensures
        max_retries > 0 ==> s@ == name@ + ": all "@ + decimal(max_retries as int)
            + " retries exhausted, initiating shutdown"@,
        max_retries <= 0 ==> s@ == name@ + " failed, initiating shutdown"@,
{
    let mut s = String::new();
    append_str(&mut s, name);
    if max_retries > 0 {
        append_str(&mut s, ": all ");
        let d = decimal_of(max_retries);
        append_str(&mut s, d.as_str());
        append_str(&mut s, " retries exhausted, initiating shutdown");
    } else {
        append_str(&mut s, " failed, initiating shutdown");
    }
    s
}

/// The retry count shown before attempt `attempt` (counted from 1): the
/// retries used so far over the retries allowed, e.g. `2/3`.
pub open spec fn spec_retry_count(attempt: int, max_retries: int) -> Seq<char> {
    decimal(attempt - 1) + "/"@ + decimal(max_retries)
}

fn retry_count(attempt: i64, max_retries: i64) -> (s: String)
    requires
        attempt > i64::MIN,
    ensures
        s@ == spec_retry_count(attempt as int, max_retries as int),
{
    let mut s = decimal_of(attempt - 1);
    append_str(&mut s, "/");
    let m = decimal_of(max_retries);
    append_str(&mut s, m.as_str());
    s
}

/// The system line logged before a retry, e.g. `web: retry 1/3`.
pub fn retry_message(name: &str, attempt: i64, max_retries: i64) -> (s: String)
    requires
        attempt > i64::MIN,
    ensures
        s@ == name@ + ": retry "@ + spec_retry_count(attempt as int, max_retries as int),
{
    let mut s = String::new();
    append_str(&mut s, name);
    append_str(&mut s, ": retry ");
    let c = retry_count(attempt, max_retries);
    append_str(&mut s, c.as_str());
    s
}

/// The note shown in the process's own log before a retry, e.g.
/// `Process exited; retrying (1/3)…`.
pub fn retry_note(attempt: i64, max_retries: i64) -> (s: String)
    requires
        attempt > i64::MIN,
    ensures
        s@ == "Process exited; retrying ("@ + spec_retry_count(attempt as int, max_retries as int) + ")…"@,
{
    let mut s = String::new();
    append_str(&mut s, "Process exited; retrying (");
    let c = retry_count(attempt, max_retries);
    append_str(&mut s, c.as_str());
    append_str(&mut s, ")…");
    s
}

/// The warning for an exit that nothing expected: by a signal,
/// `web terminated by SIGSEGV (code 139)`; otherwise
/// `web exited with unexpected code 3`.
pub fn unexpected_exit_message(name: &str, signal: Option<i32>, exit_code: i32) -> (s: String)
    ensures
        match signal {
            Some(sig) => match nix_signal_name(sig) {
                Some(n) => s@ == name@ + " terminated by "@ + n + " (code "@ + decimal(exit_code as int) + ")"@,
                None => s@ == name@ + " terminated by "@ + "signal "@ + decimal(sig as int) + " (code "@
                    + decimal(exit_code as int) + ")"@,
            },
            None => s@ == name@ + " exited with unexpected code "@ + decimal(exit_code as int),
        },
{
    let mut s = String::new();
    append_str(&mut s, name);
    let code = decimal_of(exit_code as i64);
    match signal {
        Some(sig) => {
            append_str(&mut s, " terminated by ");
            let n = signal_name(sig);
            append_str(&mut s, n.as_str());
            append_str(&mut s, " (code ");
            append_str(&mut s, code.as_str());
            append_str(&mut s, ")");
        },
        None => {
            append_str(&mut s, " exited with unexpected code ");
            append_str(&mut s, code.as_str());
        },
    }
    s
}

/// An exit that nothing expected, clean or not, is retried while attempts
/// remain; once they run out, a clean exit ends the run as a completion and a
/// failure ends it with its code. An expected exit or a shutdown ends the
/// attempts without either.
pub proof fn lemma_unexpected_exits_retry(r: RunResult, attempt: i64, max: i64)
    ensures
        (r is Completed || r is Failed) && attempt < max ==> spec_after_attempt(r, attempt, max) == Next::Retry,
        r is Completed && attempt >= max ==> spec_after_attempt(r, attempt, max) == Next::CompleteTerminally,
        r is Failed && attempt >= max ==> spec_after_attempt(r, attempt, max) == Next::FailTerminally(r->Failed_0),
        (r is Expected || r is Shutdown) ==> spec_after_attempt(r, attempt, max) == Next::Done,
{
}

/// With `max_retries` retries, attempts `1..=max_retries` are followed by a
/// retry after any unexpected exit, and the attempt after the last retry is
/// final.
pub proof fn lemma_retries_counted(r: RunResult, attempt: i64, max_retries: i64)
    requires
        0 <= max_retries < i64::MAX,
        1 <= attempt,
        r is Completed || r is Failed,
    ensures
        attempt <= max_retries ==> spec_after_attempt(r, attempt, (max_retries + 1) as i64) == Next::Retry,
        attempt > max_retries ==> spec_after_attempt(r, attempt, (max_retries + 1) as i64) != Next::Retry,
{
}

/// A process that was stopped, by hand or by a shutdown, never counts as
/// failed or completed: its exit is a shutdown whatever its signal or code.
/// Otherwise it is never a shutdown, and death by a signal is a failure with
/// the exit code; an exit without a signal never fails with code 0.
pub proof fn lemma_stopped_exit_is_shutdown(is_shutdown: bool, stopped: bool, signal: Option<i32>, exit_code: i32, p: &Process)
    ensures
        (is_shutdown || stopped) ==> spec_classify_exit(is_shutdown, stopped, signal, exit_code, p) == RunResult::Shutdown,
        !(is_shutdown || stopped) ==> spec_classify_exit(is_shutdown, stopped, signal, exit_code, p) != RunResult::Shutdown,
        !(is_shutdown || stopped) && signal is Some ==> spec_classify_exit(is_shutdown, stopped, signal, exit_code, p)
            == RunResult::Failed(exit_code),
        signal is None ==> spec_classify_exit(is_shutdown, stopped, signal, exit_code, p) != RunResult::Failed(0),
{
}

/// A process exit without a signal and not stopped: a code other than 0 fails
/// with that code; code 0 completes when nothing expected the process to exit,
/// and otherwise fails as 1.
pub proof fn lemma_plain_exit_codes(signal: Option<i32>, exit_code: i32, p: &Process)
    requires
        signal is None,
    ensures
        exit_code != 0 ==> spec_classify_exit(false, false, signal, exit_code, p) == RunResult::Failed(exit_code),
        exit_code == 0 && !expects_exit(p) ==> spec_classify_exit(false, false, signal, exit_code, p) == RunResult::Completed,
        exit_code == 0 && expects_exit(p) ==> spec_classify_exit(false, false, signal, exit_code, p) == RunResult::Failed(1),
{
}


} // verus!
