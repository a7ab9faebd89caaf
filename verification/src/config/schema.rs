//! The config schema: a process entry, its release policy, and the readiness
//! check that gates its dependents.
use vstd::prelude::*;

use crate::strmap::StrMap;
use crate::theme::{Color, parse_color, spec_parse_color};
use crate::text::{append_str, chars_of, str_eq, string_of, debug_quote, debug_str, decimal, decimal_of};

verus! {

/// A span of time: whole seconds plus nanoseconds (below one second).
#[derive(Clone, Copy, Debug, PartialEq, Eq, Structural)]
pub struct Span {
    pub secs: u64,
    pub nanos: u32,
}

impl Span {
    /// A span of whole seconds.
    pub fn from_secs(secs: u64) -> (s: Span)
        ensures
            s.secs == secs,
            s.nanos == 0,
    {
        Span { secs, nanos: 0 }
    }

    /// Whether the span is empty.
    pub fn is_zero(&self) -> (b: bool)
        ensures
            b == (self.secs == 0 && self.nanos == 0),
    {
        self.secs == 0 && self.nanos == 0
    }
}

/// Exit codes considered expected for a process; an empty set means any exit
/// triggers shutdown. In TOML: an array of integers, e.g. `exit_codes = [0, 1]`.
#[derive(Clone, Debug)]
pub struct ExitCodes(pub Vec<i32>);

impl ExitCodes {
    /// Reports whether the given exit code is in the expected set. Returns
    /// `false` if the set is empty (no exits are expected).
    pub fn allows(&self, code: i32) -> (b: bool)
        ensures
            b == self.0@.contains(code),
    {
        let mut i: usize = 0;
        while i < self.0.len()
            invariant
                i <= self.0.len(),
                forall|j: int| 0 <= j < i ==> self.0@[j] != code,
            decreases self.0.len() - i,
        {
            if self.0[i] == code {
                assert(self.0@[i as int] == code);
                return true;
            }
            i = i + 1;
        }
        false
    }

    /// Whether the expected-exit-code set is empty (none configured).
    pub fn is_empty(&self) -> (b: bool)
        ensures
            b == (self.0@.len() == 0),
    {
        self.0.len() == 0
    }
}

/// HTTP status codes counted as ready. In TOML: a single integer or a list,
/// e.g. `status = 200` or `status = [200, 204]`. Defaults to `[200]` when unset.
#[derive(Clone, Debug)]
pub struct StatusCodes(pub Vec<u16>);

impl StatusCodes {
    /// Whether the given HTTP status code is in the expected set. Returns `false`
    /// if the set is empty (no status is expected).
    pub fn allows(&self, code: u16) -> (b: bool)
        ensures
            b == self.0@.contains(code),
    {
        let mut i: usize = 0;
        while i < self.0.len()
            invariant
                i <= self.0.len(),
                forall|j: int| 0 <= j < i ==> self.0@[j] != code,
            decreases self.0.len() - i,
        {
            if self.0[i] == code {
                assert(self.0@[i as int] == code);
                return true;
            }
            i = i + 1;
        }
        false
    }

    /// Whether the expected-status-code set is empty (none configured).
    pub fn is_empty(&self) -> (b: bool)
        ensures
            b == (self.0@.len() == 0),
    {
        self.0.len() == 0
    }
}

/// A readiness check; dependents wait until it completes. In TOML: a table
/// selecting one mode (`shell`/`http`/`output`/`delay`) with shared `interval`/`timeout`.
#[derive(Clone, Debug)]
pub enum Readiness {
    /// Poll a shell command until it passes: exit code in `exit_codes` (when set)
    /// and its stdout contains `output` (when set). Validation requires at least one.
    Shell {
        cmd: String,
        interval: Option<Span>,
        timeout: Option<Span>,
        exit_codes: Option<ExitCodes>,
        output: Option<String>,
    },
    /// Poll an HTTP endpoint until it responds with a status in `status` and,
    /// when set, a body containing `output`.
    Http {
        url: String,
        status: StatusCodes,
        output: Option<String>,
        interval: Option<Span>,
        timeout: Option<Span>,
    },
    /// Watch the process's own output (stdout and stderr), ready once it
    /// contains `output`.
    Output { output: String, timeout: Option<Span> },
    /// Sleep for a fixed duration, then release dependents.
    Delay(Span),
}

/// When a process releases its dependents, carrying that policy's config so
/// release sites match exhaustively instead of re-reading the raw fields.
#[derive(Clone, Copy, Debug)]
pub enum ReadyWhen<'a> {
    /// The moment the process launches.
    Launched,
    /// When the process exits with an expected code.
    ExpectedExit(&'a ExitCodes),
    /// When the readiness check passes: a shell/HTTP probe succeeds, the watched
    /// output appears, or the delay elapses.
    ReadinessPass(&'a Readiness),
}

/// The words naming a release moment in "waiting for X to ...".
pub open spec fn spec_verb(r: ReadyWhen) -> Seq<char> {
    match r {
        ReadyWhen::Launched => "launch"@,
        ReadyWhen::ExpectedExit(_) => "exit with expected code"@,
        ReadyWhen::ReadinessPass(Readiness::Delay(_)) => "become ready after its delay"@,
        ReadyWhen::ReadinessPass(_) => "pass readiness check"@,
    }
}

impl<'a> ReadyWhen<'a> {
    /// Describes the release moment for log output ("waiting for X to ...").
    pub fn verb(self) -> (v: &'static str)
        ensures
            v@ == spec_verb(self),
    {
        match self {
            ReadyWhen::Launched => "launch",
            ReadyWhen::ExpectedExit(_) => "exit with expected code",
            ReadyWhen::ReadinessPass(Readiness::Delay(_)) => "become ready after its delay",
            ReadyWhen::ReadinessPass(_) => "pass readiness check",
        }
    }
}

/// A single process entry from the config.
#[derive(Clone, Debug)]
pub struct Process {
    /// Shell command to run (required). Executed via `sh -c`.
    pub command: String,
    /// Exit codes considered expected; empty (default) means any exit triggers
    /// shutdown. A code outside a non-empty list fails, 0 included. Excludes `readiness`.
    pub exit_codes: ExitCodes,
    /// Readiness check; dependents wait until its shell/http probe passes, its
    /// output appears, or its delay elapses. Mutually exclusive with `exit_codes`.
    pub readiness: Option<Readiness>,
    /// Process names that must be ready before this one starts.
    pub depends_on: Vec<String>,
    /// Additional environment variables for this process, merged on top of
    /// the inherited environment.
    pub environment: StrMap<String>,
    /// Optional file path; when set, all output is also written here without
    /// ANSI color codes, in addition to the console.
    pub log_file: Option<String>,
    /// Optional path to a dotenv-style file applied to this process.
    pub env_file: Option<String>,
    /// Maximum number of times to restart this process after an unexpected
    /// exit (clean or not). A value of 0 (the default) means no retries.
    pub max_retries: i64,
    /// Optional display name for the TUI tab and log prefix; the service key
    /// stays the canonical identifier. Falls back to the key when unset.
    pub name: Option<String>,
    /// Optional prefix/tab color: a named ANSI color (`red`, `bright-green`,
    /// …) or `#rrggbb` hex. Validated at load, parsed on demand by [`Process::color`].
    pub color: Option<String>,
    /// The fully resolved environment, computed when the config loads.
    pub env: StrMap<String>,
}

/// The display name for `key`: the `name` override, else the key.
pub open spec fn spec_display_name(p: &Process, key: Seq<char>) -> Seq<char> {
    match p.name {
        Some(n) => n@,
        None => key,
    }
}

/// The release policy: expected exit codes win, then a readiness check, else launch.
pub open spec fn spec_ready_when<'a>(p: &'a Process) -> ReadyWhen<'a> {
    if p.exit_codes.0@.len() != 0 {
        ReadyWhen::ExpectedExit(&p.exit_codes)
    } else {
        match &p.readiness {
            Some(r) => ReadyWhen::ReadinessPass(r),
            None => ReadyWhen::Launched,
        }
    }
}

impl Process {
    /// A process entry as written in the config; its resolved environment
    /// starts empty.
    pub fn new(
        command: String,
        exit_codes: ExitCodes,
        readiness: Option<Readiness>,
        depends_on: Vec<String>,
        environment: StrMap<String>,
        log_file: Option<String>,
        env_file: Option<String>,
        max_retries: i64,
        name: Option<String>,
        color: Option<String>,
    ) -> (p: Process)
        ensures
            p.command == command,
            p.exit_codes == exit_codes,
            p.readiness == readiness,
            p.depends_on == depends_on,
            p.environment == environment,
            p.log_file == log_file,
            p.env_file == env_file,
            p.max_retries == max_retries,
            p.name == name,
            p.color == color,
            p.env@ == Map::<Seq<char>, String>::empty(),
    {
        Process {
            command,
            exit_codes,
            readiness,
            depends_on,
            environment,
            log_file,
            env_file,
            max_retries,
            name,
            color,
            env: StrMap::new(),
        }
    }

    /// A process that runs `command`, every other key at its default.
    pub fn with_command(command: String) -> (p: Process)
        ensures
            p.command == command,
            p.exit_codes.0@.len() == 0,
            p.readiness is None,
            p.depends_on@.len() == 0,
            p.environment@ == Map::<Seq<char>, String>::empty(),
            p.log_file is None,
            p.env_file is None,
            p.max_retries == 0,
            p.name is None,
            p.color is None,
            p.env@ == Map::<Seq<char>, String>::empty(),
    {
        Process::new(
            command,
            ExitCodes(Vec::new()),
            None,
            Vec::new(),
            StrMap::new(),
            None,
            None,
            0,
            None,
            None,
        )
    }

    /// Returns the fully resolved environment.
    pub fn env(&self) -> (e: &StrMap<String>)
        ensures
            e == &self.env,
    {
        &self.env
    }

    /// The configured color text, if any.
    pub fn color_name(&self) -> (c: &Option<String>)
        ensures
            c == &self.color,
    {
        &self.color
    }

    /// Returns the configured display name, or `key` when unset. The key
    /// remains the canonical identifier; this is purely cosmetic.
    pub fn display_name<'a>(&'a self, key: &'a str) -> (n: &'a str)
        ensures
            n@ == spec_display_name(self, key@),
    {
        match &self.name {
            Some(n) => n.as_str(),
            None => key,
        }
    }

    /// Returns the configured prefix/tab color, if any (parsed; validated at load).
    pub fn color(&self) -> (c: Option<Color>)
        ensures
            c == (match self.color {
                Some(s) => spec_parse_color(s@),
                None => None,
            }),
    {
        match &self.color {
            Some(s) => parse_color(s.as_str()),
            None => None,
        }
    }

    /// Returns when this process releases its dependents; validation
    /// guarantees `exit_codes` and `readiness` are mutually exclusive.
    pub fn ready_when(&self) -> (r: ReadyWhen<'_>)
        ensures
            r == spec_ready_when(self),
    {
        if !self.exit_codes.is_empty() {
            ReadyWhen::ExpectedExit(&self.exit_codes)
        } else {
            match &self.readiness {
                Some(r) => ReadyWhen::ReadinessPass(r),
                None => ReadyWhen::Launched,
            }
        }
    }
}


/// Whether `c` is an ASCII digit.
pub open spec fn is_digit(c: char) -> bool {
    '0' <= c && c <= '9'
}

/// Whether `c` can be part of a unit word: a letter or the micro sign.
pub open spec fn is_unit_char(c: char) -> bool {
    ('a' <= c && c <= 'z') || ('A' <= c && c <= 'Z') || c == 'µ'
}

/// Nanoseconds in one of humantime's unit words; an unknown word (which
/// humantime refuses) counts as a year, the longest unit.
pub open spec fn unit_nanos(w: Seq<char>) -> nat {
    if w == "nanos"@ || w == "nsec"@ || w == "ns"@ {
        1
    } else if w == "usec"@ || w == "us"@ || w == "µs"@ {
        1_000
    } else if w == "millis"@ || w == "msec"@ || w == "ms"@ {
        1_000_000
    } else if w == "seconds"@ || w == "second"@ || w == "secs"@ || w == "sec"@ || w == "s"@ {
        1_000_000_000
    } else if w == "minutes"@ || w == "minute"@ || w == "min"@ || w == "mins"@ || w == "m"@ {
        60_000_000_000
    } else if w == "hours"@ || w == "hour"@ || w == "hr"@ || w == "hrs"@ || w == "h"@ {
        3_600_000_000_000
    } else if w == "days"@ || w == "day"@ || w == "d"@ {
        86_400_000_000_000
    } else if w == "weeks"@ || w == "week"@ || w == "wk"@ || w == "wks"@ || w == "w"@ {
        604_800_000_000_000
    } else if w == "months"@ || w == "month"@ || w == "M"@ {
        2_630_016_000_000_000
    } else {
        31_557_600_000_000_000
    }
}

/// A duration string read so far: the nanoseconds of its finished parts, the
/// number being read, whether it has a fractional part, its unit word, and
/// whether that word has ended.
pub struct DurScan {
    pub total: nat,
    pub num: nat,
    pub frac: bool,
    pub word: Seq<char>,
    pub word_done: bool,
}

/// At most the nanoseconds of the part being read: the number (rounded up
/// when it has a fraction) in its unit.
pub open spec fn scan_part(st: DurScan) -> nat {
    (st.num + if st.frac {
        1nat
    } else {
        0nat
    }) * unit_nanos(st.word)
}

/// One more character of a duration string, read as humantime splits it: a
/// digit after a unit word starts the next part; digits after the decimal
/// point are the fraction; letters make the unit word until a space ends it.
pub open spec fn scan_step(st: DurScan, c: char) -> DurScan {
    if is_digit(c) {
        let d = ((c as int) - 48) as nat;
        if st.word.len() > 0 {
            DurScan { total: st.total + scan_part(st), num: d, frac: false, word: Seq::empty(), word_done: false }
        } else if st.frac {
            st
        } else {
            DurScan { num: st.num * 10 + d, ..st }
        }
    } else if c == '.' {
        if st.word.len() == 0 {
            DurScan { frac: true, ..st }
        } else {
            st
        }
    } else if is_unit_char(c) {
        if st.word_done {
            st
        } else {
            DurScan { word: st.word.push(c), ..st }
        }
    } else if st.word.len() > 0 {
        DurScan { word_done: true, ..st }
    } else {
        st
    }
}

/// The scan of a whole string.
pub open spec fn scan(s: Seq<char>) -> DurScan
    decreases s.len(),
{
    if s.len() == 0 {
        DurScan { total: 0, num: 0, frac: false, word: Seq::empty(), word_done: false }
    } else {
        scan_step(scan(s.drop_last()), s.last())
    }
}

/// An upper bound on the nanoseconds `s` writes, each part counted in its
/// unit (exact for whole numbers in known units).
pub open spec fn nanos_bound(s: Seq<char>) -> nat {
    scan(s).total + scan_part(scan(s))
}

/// The nanoseconds in the longest `Duration`: `u64::MAX` seconds and
/// 999,999,999 nanoseconds.
pub const MAX_NANOS: u128 = 18_446_744_073_709_551_615_999_999_999;

/// Whether the durations `s` writes stay within the longest `Duration`, so
/// reading it cannot overflow humantime's carry into whole seconds.
pub open spec fn spec_duration_fits(s: Seq<char>) -> bool {
    nanos_bound(s) <= MAX_NANOS
}

/// The nanoseconds of one unit word (see [`unit_nanos`]).
fn unit_nanos_of(w: &Vec<char>) -> (f: u128)
    ensures
        f == unit_nanos(w@),
        1 <= f <= 31_557_600_000_000_000,
{
    let s = string_of(w);
    let t = s.as_str();
    if str_eq(t, "nanos") || str_eq(t, "nsec") || str_eq(t, "ns") {
        1
    } else if str_eq(t, "usec") || str_eq(t, "us") || str_eq(t, "µs") {
        1_000
    } else if str_eq(t, "millis") || str_eq(t, "msec") || str_eq(t, "ms") {
        1_000_000
    } else if str_eq(t, "seconds") || str_eq(t, "second") || str_eq(t, "secs") || str_eq(t, "sec") || str_eq(t, "s") {
        1_000_000_000
    } else if str_eq(t, "minutes") || str_eq(t, "minute") || str_eq(t, "min") || str_eq(t, "mins") || str_eq(t, "m") {
        60_000_000_000
    } else if str_eq(t, "hours") || str_eq(t, "hour") || str_eq(t, "hr") || str_eq(t, "hrs") || str_eq(t, "h") {
        3_600_000_000_000
    } else if str_eq(t, "days") || str_eq(t, "day") || str_eq(t, "d") {
        86_400_000_000_000
    } else if str_eq(t, "weeks") || str_eq(t, "week") || str_eq(t, "wk") || str_eq(t, "wks") || str_eq(t, "w") {
        604_800_000_000_000
    } else if str_eq(t, "months") || str_eq(t, "month") || str_eq(t, "M") {
        2_630_016_000_000_000
    } else {
        31_557_600_000_000_000
    }
}

/// `x * f`, or `cap` once it reaches it.
fn capped_mul(x: u128, f: u128, cap: u128) -> (r: u128)
    requires
        1 <= f,
        cap == MAX_NANOS + 1,
    ensures
        r == (if x * f < cap {
            x * f
        } else {
            cap as int
        }),
{
    let q = cap / f;
    if x > q {
        assert(x * f >= (q + 1) * f) by (nonlinear_arith)
            requires
                x >= q + 1,
                f >= 1,
        ;
        assert((q + 1) * f > cap) by (nonlinear_arith)
            requires
                q == cap / f,
                f >= 1,
        ;
        cap
    } else {
        assert(x * f <= q * f) by (nonlinear_arith)
            requires
                x <= q,
                f >= 1,
        ;
        assert(q * f <= cap) by (nonlinear_arith)
            requires
                q == cap / f,
                f >= 1,
        ;
        let p = x * f;
        if p < cap {
            p
        } else {
            cap
        }
    }
}

/// A nat capped at `cap`.
pub open spec fn capped(x: nat, cap: int) -> int {
    if x < cap {
        x as int
    } else {
        cap
    }
}

/// Whether the durations `s` writes stay within the longest `Duration` (see
/// [`spec_duration_fits`]).
pub fn duration_fits(s: &str) -> (b: bool)
    ensures
        b == spec_duration_fits(s@),
{
    let cs = chars_of(s);
    let cap: u128 = MAX_NANOS + 1;
    let mut total: u128 = 0;
    let mut num: u128 = 0;
    let mut frac = false;
    let mut word: Vec<char> = Vec::new();
    let mut word_done = false;
    let mut i: usize = 0;
    assert(cs@.take(0) =~= Seq::<char>::empty());
    while i < cs.len()
        invariant
            i <= cs.len(),
            cs@ == s@,
            cap == MAX_NANOS + 1,
            total == capped(scan(cs@.take(i as int)).total, cap as int),
            num == capped(scan(cs@.take(i as int)).num, cap as int),
            frac == scan(cs@.take(i as int)).frac,
            word@ == scan(cs@.take(i as int)).word,
            word_done == scan(cs@.take(i as int)).word_done,
        decreases cs.len() - i,
    {
        let c = cs[i];
        let ghost st = scan(cs@.take(i as int));
        assert(cs@.take(i + 1).drop_last() =~= cs@.take(i as int));
        assert(cs@.take(i + 1).last() == c);
        if '0' <= c && c <= '9' {
            let d = (c as u32 - 48) as u128;
            if word.len() > 0 {
                let f = unit_nanos_of(&word);
                let x: u128 = num + if frac { 1 } else { 0 };
                let part = capped_mul(x, f, cap);
                assert(part == capped(scan_part(st), cap as int)) by (nonlinear_arith)
                    requires
                        num == capped(st.num, cap as int),
                        x == num + (if frac { 1int } else { 0int }),
                        frac == st.frac,
                        f == unit_nanos(st.word),
                        f >= 1,
                        part == (if x * f < cap { x * f } else { cap as int }),
                        scan_part(st) == (st.num + (if st.frac { 1nat } else { 0nat })) * unit_nanos(st.word),
                ;
                let sum = total + part;
                total = if sum < cap { sum } else { cap };
                num = d;
                frac = false;
                word = Vec::new();
                word_done = false;
            } else if !frac {
                num = if num >= cap / 10 {
                    cap
                } else {
                    let v = num * 10 + d;
                    if v < cap { v } else { cap }
                };
            }
        } else if c == '.' {
            if word.len() == 0 {
                frac = true;
            }
        } else if ('a' <= c && c <= 'z') || ('A' <= c && c <= 'Z') || c == 'µ' {
            if !word_done {
                word.push(c);
            }
        } else if word.len() > 0 {
            word_done = true;
        }
        i = i + 1;
    }
    assert(cs@.take(cs.len() as int) =~= s@);
    let ghost st = scan(s@);
    let f = unit_nanos_of(&word);
    let x: u128 = num + if frac { 1 } else { 0 };
    let part = capped_mul(x, f, cap);
    assert(part == capped(scan_part(st), cap as int)) by (nonlinear_arith)
        requires
            num == capped(st.num, cap as int),
            x == num + (if frac { 1int } else { 0int }),
            frac == st.frac,
            f == unit_nanos(st.word),
            f >= 1,
            part == (if x * f < cap { x * f } else { cap as int }),
            scan_part(st) == (st.num + (if st.frac { 1nat } else { 0nat })) * unit_nanos(st.word),
    ;
    let sum = total + part;
    sum < cap
}

/// humantime's message for a number it cannot represent.
pub open spec fn too_large_message() -> Seq<char> {
    "number is too large or cannot be represented without a lack of precision (values below 1ns are not supported)"@
}

/// What [`parse_duration`] gives for `s`: humantime's reading where the
/// durations `s` writes fit the longest `Duration`; past that, the message
/// humantime gives for a number too large.
pub open spec fn spec_parse_duration(s: Seq<char>) -> Result<Span, Seq<char>> {
    if spec_duration_fits(s) {
        spec_duration_from(s, humantime_reading(s))
    } else {
        Err("invalid duration "@ + debug_str(s) + ": "@ + too_large_message())
    }
}

/// What `humantime` reads from a duration string: whole seconds and
/// nanoseconds, or its error message.
pub uninterp spec fn humantime_reading(s: Seq<char>) -> Result<(u64, u32), Seq<char>>;

/// Reads a duration string with `humantime::parse_duration`: the seconds and
/// the sub-second nanoseconds of the duration it returns (below one billion,
/// as `Duration::subsec_nanos` documents), or its error's message. Its
/// carry into a full second can overflow `Duration::new` and panic once the
/// seconds pass `u64::MAX`; strings whose parts, each counted in its unit,
/// could add up past the longest `Duration` are left out.
#[verifier::external_body]
fn humantime_parse(s: &str) -> (r: Result<(u64, u32), String>)
    requires
        spec_duration_fits(s@),
    ensures
        match humantime_reading(s@) {
            Ok(d) => r == Ok::<(u64, u32), String>(d),
            Err(e) => r matches Err(m) && m@ == e,
        },
        r matches Ok((_, n)) ==> n < 1_000_000_000,
{
    match humantime::parse_duration(s) {
        Ok(d) => Ok((d.as_secs(), d.subsec_nanos())),
        Err(e) => Err(e.to_string()),
    }
}

/// The duration a reading of `s` stands for, or the message naming `s`.
pub open spec fn spec_duration_from(s: Seq<char>, reading: Result<(u64, u32), Seq<char>>) -> Result<Span, Seq<char>> {
    match reading {
        Ok((secs, nanos)) => Ok(Span { secs, nanos }),
        Err(e) => Err("invalid duration "@ + debug_str(s) + ": "@ + e),
    }
}

/// Turns a reading of the duration string `s` into a span, or an error message
/// that quotes `s`.
pub fn duration_from(s: &str, reading: Result<(u64, u32), String>) -> (r: Result<Span, String>)
    ensures
        match reading {
            Ok((secs, nanos)) => r == Ok::<Span, String>(Span { secs, nanos }),
            Err(e) => r matches Err(m) && m@ == "invalid duration "@ + debug_str(s@) + ": "@ + e@,
        },
{
    match reading {
        Ok((secs, nanos)) => Ok(Span { secs, nanos }),
        Err(e) => {
            let mut m = String::new();
            append_str(&mut m, "invalid duration ");
            let q = debug_quote(s);
            append_str(&mut m, q.as_str());
            append_str(&mut m, ": ");
            append_str(&mut m, e.as_str());
            Err(m)
        },
    }
}

/// Parses a humantime duration (`"10s"`, `"500ms"`); shared by the CLI
/// duration flags and TOML duration values so both render errors the same way.
/// A string whose parts, each counted in its unit (a fraction rounded up),
/// add up past the longest `Duration` is refused as too large without asking
/// humantime (see [`spec_duration_fits`]); humantime could not hold it either.
pub fn parse_duration(s: &str) -> (r: Result<Span, String>)
    ensures
        match spec_parse_duration(s@) {
            Ok(d) => r == Ok::<Span, String>(d),
            Err(e) => r matches Err(m) && m@ == e,
        },
{
    let reading = if duration_fits(s) {
        humantime_parse(s)
    } else {
        Err("number is too large or cannot be represented without a lack of precision (values below 1ns are not supported)".to_owned())
    };
    duration_from(s, reading)
}

/// A configured duration, treating zero as unset so the default applies.
pub fn unset_if_zero(d: Span) -> (r: Option<Span>)
    ensures
        r == (if d.secs == 0 && d.nanos == 0 {
            None
        } else {
            Some(d)
        }),
{
    if d.is_zero() {
        None
    } else {
        Some(d)
    }
}

/// The default time to wait for a readiness check to pass before the
/// dependency counts as failed.
pub fn default_readiness_timeout() -> (d: Span)
    ensures
        d == (Span { secs: 30, nanos: 0 }),
{
    Span::from_secs(30)
}

/// The default time between readiness check attempts.
pub fn default_readiness_interval() -> (d: Span)
    ensures
        d == (Span { secs: 1, nanos: 0 }),
{
    Span::from_secs(1)
}


/// The `readiness.shell` sub-table.
pub struct ShellSpec {
    pub cmd: String,
    pub exit_codes: Option<ExitCodes>,
    pub output: Option<String>,
}

/// The `readiness.http` sub-table.
pub struct HttpSpec {
    pub url: String,
    pub status: Option<StatusCodes>,
    pub output: Option<String>,
}

/// The keys of a readiness table, as read: at most one mode (`shell`, `http`,
/// `output`, `delay`) plus the shared `interval`/`timeout`.
pub struct ReadinessParts {
    pub shell: Option<ShellSpec>,
    pub http: Option<HttpSpec>,
    pub output: Option<String>,
    pub interval: Option<Span>,
    pub timeout: Option<Span>,
    pub delay: Option<Span>,
}

/// How many modes a readiness table selects.
pub open spec fn modes_selected(p: &ReadinessParts) -> int {
    (if p.shell is Some { 1int } else { 0int }) + (if p.http is Some { 1int } else { 0int }) + (if p.output is Some {
        1int
    } else {
        0int
    }) + (if p.delay is Some { 1int } else { 0int })
}

/// The readiness check a table describes, or why it is refused: the modes are
/// mutually exclusive; a delay is its own timer (no interval or timeout); an
/// output watch polls nothing (no interval); an http check defaults to status 200.
pub open spec fn readiness_ok(p: ReadinessParts, r: Result<Readiness, String>) -> bool {
    if modes_selected(&p) > 1 {
        r matches Err(m) && m@ == "readiness: \"shell\", \"http\", \"output\", and \"delay\" are mutually exclusive"@
    } else if p.delay is Some {
        if p.interval is Some || p.timeout is Some {
            r matches Err(m) && m@ == "readiness: \"delay\" cannot be combined with \"interval\" or \"timeout\""@
        } else {
            r matches Ok(Readiness::Delay(d)) && d == p.delay->Some_0
        }
    } else if p.shell is Some {
        r matches Ok(Readiness::Shell { cmd, interval, timeout, exit_codes, output }) && cmd == p.shell->Some_0.cmd
            && interval == p.interval && timeout == p.timeout && exit_codes == p.shell->Some_0.exit_codes
            && output == p.shell->Some_0.output
    } else if p.http is Some {
        r matches Ok(Readiness::Http { url, status, output, interval, timeout }) && url == p.http->Some_0.url
            && (match p.http->Some_0.status {
                Some(st) => status == st,
                None => status.0@ == seq![200u16],
            }) && output == p.http->Some_0.output && interval == p.interval && timeout == p.timeout
    } else if p.output is Some {
        if p.interval is Some {
            r matches Err(m) && m@ == "readiness: \"interval\" applies to \"shell\"/\"http\" polling, not the \"output\" watch"@
        } else {
            r matches Ok(Readiness::Output { output, timeout }) && output == p.output->Some_0 && timeout == p.timeout
        }
    } else {
        r matches Err(m) && m@ == "readiness requires \"shell\", \"http\", \"output\", or \"delay\""@
    }
}

/// A readiness table is accepted exactly when it selects one mode, a delay
/// comes without an interval or timeout, and an output watch without an
/// interval; the check is then of the selected mode.
pub proof fn lemma_readiness_accepted(p: ReadinessParts, r: Result<Readiness, String>)
    requires
        readiness_ok(p, r),
    ensures
        r is Ok <==> (modes_selected(&p) == 1 && (p.delay is Some ==> p.interval is None && p.timeout is None)
            && (p.output is Some ==> p.interval is None)),
        r matches Ok(c) ==> (p.delay is Some <==> c is Delay) && (p.shell is Some <==> c is Shell) && (p.http is Some
            <==> c is Http) && (p.output is Some <==> c is Output),
{
}

/// Assembles a readiness check from the keys of its table (see [`readiness_ok`]).
pub fn readiness_from_parts(p: ReadinessParts) -> (r: Result<Readiness, String>)
    ensures
        readiness_ok(p, r),
{
    let ghost gp = p;
    let selected: u8 = (if p.shell.is_some() { 1u8 } else { 0u8 }) + (if p.http.is_some() { 1u8 } else { 0u8 }) + (if p
        .output
        .is_some() { 1u8 } else { 0u8 }) + (if p.delay.is_some() { 1u8 } else { 0u8 });
    if selected > 1 {
        let mut m = String::new();
        append_str(&mut m, "readiness: \"shell\", \"http\", \"output\", and \"delay\" are mutually exclusive");
        return Err(m);
    }
    let ReadinessParts { shell, http, output, interval, timeout, delay } = p;
    if let Some(d) = delay {
        // A delay is its own complete timer; interval/timeout don't apply.
        if interval.is_some() || timeout.is_some() {
            let mut m = String::new();
            append_str(&mut m, "readiness: \"delay\" cannot be combined with \"interval\" or \"timeout\"");
            return Err(m);
        }
        return Ok(Readiness::Delay(d));
    }
    if let Some(sh) = shell {
        return Ok(Readiness::Shell { cmd: sh.cmd, interval, timeout, exit_codes: sh.exit_codes, output: sh.output });
    }
    if let Some(h) = http {
        let status = match h.status {
            Some(st) => st,
            None => {
                let mut v: Vec<u16> = Vec::new();
                v.push(200);
                StatusCodes(v)
            },
        };
        return Ok(Readiness::Http { url: h.url, status, output: h.output, interval, timeout });
    }
    if let Some(o) = output {
        // Nothing is polled, so an interval has no meaning here.
        if interval.is_some() {
            let mut m = String::new();
            append_str(&mut m, "readiness: \"interval\" applies to \"shell\"/\"http\" polling, not the \"output\" watch");
            return Err(m);
        }
        return Ok(Readiness::Output { output: o, timeout });
    }
    let mut m = String::new();
    append_str(&mut m, "readiness requires \"shell\", \"http\", \"output\", or \"delay\"");
    Err(m)
}

/// A duration given as whole seconds: negative is refused; zero means unset.
pub fn duration_from_secs(secs: i64) -> (r: Result<Option<Span>, String>)
    ensures
        secs < 0 ==> (r matches Err(m) && m@ == "duration must not be negative (got "@ + decimal(secs as int) + ")"@),
        secs == 0 ==> r == Ok::<Option<Span>, String>(None),
        secs > 0 ==> r == Ok::<Option<Span>, String>(Some(Span { secs: secs as u64, nanos: 0 })),
{
    if secs < 0 {
        let mut m = String::new();
        append_str(&mut m, "duration must not be negative (got ");
        let d = decimal_of(secs);
        append_str(&mut m, d.as_str());
        append_str(&mut m, ")");
        return Err(m);
    }
    Ok(unset_if_zero(Span::from_secs(secs as u64)))
}

/// Narrows a raw integer to an HTTP status code; validation names codes
/// outside 100–599, while a `u16` overflow can only fail here.
pub fn status_code(code: i64) -> (r: Result<u16, String>)
    ensures
        0 <= code <= u16::MAX ==> r == Ok::<u16, String>(code as u16),
        !(0 <= code <= u16::MAX) ==> (r matches Err(m) && m@ == "status code out of range (got "@ + decimal(code as int) + ")"@),
{
    if 0 <= code && code <= 65535 {
        Ok(code as u16)
    } else {
        let mut m = String::new();
        append_str(&mut m, "status code out of range (got ");
        let d = decimal_of(code);
        append_str(&mut m, d.as_str());
        append_str(&mut m, ")");
        Err(m)
    }
}

} // verus!
