//! Readiness decisions: the timing a probe polls with, whether one shell or
//! HTTP check passed, what each readiness event leads to, and the streaming
//! output watch that finds its needle even when it spans two reads.
use vstd::prelude::*;

use crate::config::schema::{ExitCodes, Readiness, Span, StatusCodes, default_readiness_interval, default_readiness_timeout};
use crate::logger::search::{Needle, ansi_stripped, bytes_at, contains_bytes, fold_bytes, has_upper, spec_bytes_contain};
use crate::text::append_str;

verus! {

/// `d` when set and non-zero, else `default`.
pub open spec fn spec_duration_or(d: Option<Span>, default: Span) -> Span {
    match d {
        Some(x) => if x.secs == 0 && x.nanos == 0 {
            default
        } else {
            x
        },
        None => default,
    }
}

/// Resolves a configured interval or timeout: zero means "use the default".
pub fn duration_or(d: Option<Span>, default: Span) -> (r: Span)
    ensures
        r == spec_duration_or(d, default),
{
    match d {
        Some(x) => if x.is_zero() {
            default
        } else {
            x
        },
        None => default,
    }
}

/// How a readiness check is carried out once the process has launched.
#[derive(Clone, Copy, Debug, PartialEq, Eq, Structural)]
pub enum Plan {
    /// Wait out a fixed delay.
    Delay(Span),
    /// Watch the process's own output until the deadline.
    Watch { timeout: Span },
    /// Poll a probe every `interval` until it passes or `timeout` elapses.
    Poll { timeout: Span, interval: Span },
}

/// The plan of a readiness check, its interval and timeout defaulted (30 s and
/// 1 s when unset or zero).
pub open spec fn spec_plan(r: Readiness) -> Plan {
    match r {
        Readiness::Delay(d) => Plan::Delay(d),
        Readiness::Output { timeout, .. } => Plan::Watch {
            timeout: spec_duration_or(timeout, Span { secs: 30, nanos: 0 }),
        },
        Readiness::Shell { interval, timeout, .. } => Plan::Poll {
            timeout: spec_duration_or(timeout, Span { secs: 30, nanos: 0 }),
            interval: spec_duration_or(interval, Span { secs: 1, nanos: 0 }),
        },
        Readiness::Http { interval, timeout, .. } => Plan::Poll {
            timeout: spec_duration_or(timeout, Span { secs: 30, nanos: 0 }),
            interval: spec_duration_or(interval, Span { secs: 1, nanos: 0 }),
        },
    }
}

/// The plan of a readiness check (see [`spec_plan`]).
pub fn plan(r: &Readiness) -> (p: Plan)
    ensures
        p == spec_plan(*r),
{
    match r {
        Readiness::Delay(d) => Plan::Delay(*d),
        Readiness::Output { timeout, .. } => Plan::Watch { timeout: duration_or(*timeout, default_readiness_timeout()) },
        Readiness::Shell { interval, timeout, .. } => Plan::Poll {
            timeout: duration_or(*timeout, default_readiness_timeout()),
            interval: duration_or(*interval, default_readiness_interval()),
        },
        Readiness::Http { interval, timeout, .. } => Plan::Poll {
            timeout: duration_or(*timeout, default_readiness_timeout()),
            interval: duration_or(*interval, default_readiness_interval()),
        },
    }
}

/// The debug line announcing a polled probe, without its timing; the delay
/// and the output watch are no probes.
pub open spec fn spec_describe(r: Readiness) -> Option<Seq<char>> {
    match r {
        Readiness::Shell { cmd, .. } => Some("polling readiness command: "@ + cmd@),
        Readiness::Http { url, .. } => Some("polling readiness endpoint: "@ + url@),
        _ => None,
    }
}

/// Describes a polled probe for the debug log (see [`spec_describe`]).
pub fn describe(r: &Readiness) -> (s: Option<String>)
    ensures
        match spec_describe(*r) {
            Some(t) => s matches Some(u) && u@ == t,
            None => s is None,
        },
{
    let mut s = String::new();
    match r {
        Readiness::Shell { cmd, .. } => {
            append_str(&mut s, "polling readiness command: ");
            append_str(&mut s, cmd.as_str());
            Some(s)
        },
        Readiness::Http { url, .. } => {
            append_str(&mut s, "polling readiness endpoint: ");
            append_str(&mut s, url.as_str());
            Some(s)
        },
        _ => None,
    }
}

/// Whether some text holds a needle, as a readiness check matches it: the
/// needle's bytes, smart case, against the ANSI-stripped text.
pub open spec fn needle_in(n: Needle, raw: Seq<u8>) -> bool {
    vstd::utf8::encode_utf8(n.text@).len() > 0 && spec_bytes_contain(
        ansi_stripped(raw),
        vstd::utf8::encode_utf8(n.text@),
        n.case_sensitive,
    )
}

/// Whether a shell probe passed: the exit code is allowed (when codes are
/// set; a death by signal has no code) and stdout holds the needle (when set).
pub open spec fn spec_shell_passes(codes: Option<ExitCodes>, code: Option<i32>, output: Option<Needle>, stdout: Seq<u8>) -> bool {
    &&& match codes {
        Some(c) => match code {
            Some(x) => c.0@.contains(x),
            None => false,
        },
        None => true,
    }
    &&& match output {
        Some(n) => needle_in(n, stdout),
        None => true,
    }
}

/// Whether one run of a shell probe passed (see [`spec_shell_passes`]).
pub fn shell_passes(codes: &Option<ExitCodes>, code: Option<i32>, output: &Option<Needle>, stdout: &[u8]) -> (b: bool)
    ensures
        b == spec_shell_passes(*codes, code, *output, stdout@),
{
    let code_ok = match codes {
        Some(c) => match code {
            Some(x) => c.allows(x),
            None => false,
        },
        None => true,
    };
    if !code_ok {
        return false;
    }
    match output {
        Some(n) => n.matches(stdout),
        None => true,
    }
}

/// Whether an HTTP probe passed: the status is one of `status` and, when a
/// needle is set, the body (if it could be read) holds it.
pub open spec fn spec_http_passes(status: StatusCodes, code: u16, output: Option<Needle>, body: Option<Seq<u8>>) -> bool {
    &&& status.0@.contains(code)
    &&& match output {
        Some(n) => match body {
            Some(b) => needle_in(n, b),
            None => false,
        },
        None => true,
    }
}

/// Whether one HTTP response passed the probe (see [`spec_http_passes`]).
pub fn http_passes(status: &StatusCodes, code: u16, output: &Option<Needle>, body: Option<&[u8]>) -> (b: bool)
    ensures
        b == spec_http_passes(*status, code, *output, match body {
            Some(x) => Some(x@),
            None => None,
        }),
{
    if !status.allows(code) {
        return false;
    }
    match output {
        None => true,
        Some(n) => match body {
            Some(b) => n.matches(b),
            None => false,
        },
    }
}

/// What can happen while a readiness check runs.
#[derive(Clone, Copy, Debug, PartialEq, Eq, Structural)]
pub enum ReadinessEvent {
    /// A shutdown cancelled the wait.
    Cancelled,
    /// The readiness timeout elapsed.
    Deadline,
    /// A poll finished; `passed` tells whether the probe passed for the live child.
    Checked { passed: bool },
    /// The delay elapsed, or the watched output appeared.
    Reached,
}

/// What a readiness event leads to.
#[derive(Clone, Copy, Debug, PartialEq, Eq, Structural)]
pub enum ReadinessStep {
    /// Keep polling.
    Continue,
    /// The service is ready: release its dependents.
    Release,
    /// Stop waiting and fail the dependents (cancelled, stopped, or the child
    /// the check was for is gone).
    Cancel,
    /// A startup failure: fail the service and shut the run down.
    FailStartup,
}

/// What a readiness event leads to, given whether the service was stopped by
/// hand and whether the checked child still lives: a stop always cancels; a
/// deadline without a stop is a startup failure; a pass releases only a live
/// child; a failed poll keeps polling.
pub open spec fn spec_readiness_step(e: ReadinessEvent, stopped: bool, live: bool) -> ReadinessStep {
    match e {
        ReadinessEvent::Cancelled => ReadinessStep::Cancel,
        ReadinessEvent::Deadline => if stopped {
            ReadinessStep::Cancel
        } else {
            ReadinessStep::FailStartup
        },
        ReadinessEvent::Checked { passed } => if stopped {
            ReadinessStep::Cancel
        } else if passed {
            ReadinessStep::Release
        } else {
            ReadinessStep::Continue
        },
        ReadinessEvent::Reached => if stopped || !live {
            ReadinessStep::Cancel
        } else {
            ReadinessStep::Release
        },
    }
}

/// Decides what a readiness event leads to (see [`spec_readiness_step`]).
pub fn readiness_step(e: ReadinessEvent, stopped: bool, live: bool) -> (s: ReadinessStep)
    ensures
        s == spec_readiness_step(e, stopped, live),
{
    match e {
        ReadinessEvent::Cancelled => ReadinessStep::Cancel,
        ReadinessEvent::Deadline => if stopped {
            ReadinessStep::Cancel
        } else {
            ReadinessStep::FailStartup
        },
        ReadinessEvent::Checked { passed } => if stopped {
            ReadinessStep::Cancel
        } else if passed {
            ReadinessStep::Release
        } else {
            ReadinessStep::Continue
        },
        ReadinessEvent::Reached => if stopped || !live {
            ReadinessStep::Cancel
        } else {
            ReadinessStep::Release
        },
    }
}

/// A service stopped by hand never releases its dependents, whatever happens.
pub proof fn lemma_stopped_never_releases(e: ReadinessEvent, live: bool)
    ensures
        spec_readiness_step(e, true, live) == ReadinessStep::Cancel,
{
}

/// The output watch's state: what it carries over from the previous reads,
/// and whether it already matched.
pub struct WatchView {
    pub carry: Seq<u8>,
    pub done: bool,
}

/// The bytes as the watch compares them.
pub open spec fn as_compared(b: Seq<u8>, case_sensitive: bool) -> Seq<u8> {
    if case_sensitive {
        b
    } else {
        fold_bytes(b)
    }
}

/// Whether `n` occurs in `h` (compared as the watch does).
pub open spec fn found(h: Seq<u8>, n: Seq<u8>, case_sensitive: bool) -> bool {
    exists|i: int| #[trigger] bytes_at(as_compared(h, case_sensitive), as_compared(n, case_sensitive), i)
}

/// One already-stripped read fed to the watch: once matched it stays inert;
/// otherwise the carry and the read are searched together, and only the last
/// `needle.len() - 1` bytes are carried on, enough to complete a needle that
/// spans into the next read. Returns whether this read matched.
pub open spec fn spec_feed(s: WatchView, needle: Seq<u8>, case_sensitive: bool, chunk: Seq<u8>) -> (WatchView, bool) {
    if s.done {
        (s, false)
    } else {
        let hay = s.carry + chunk;
        if needle.len() > 0 && spec_bytes_contain(hay, needle, case_sensitive) {
            (WatchView { carry: Seq::empty(), done: true }, true)
        } else {
            let keep = if needle.len() > 0 {
                needle.len() - 1
            } else {
                0
            };
            let m = if keep < hay.len() {
                keep
            } else {
                hay.len() as int
            };
            (WatchView { carry: hay.subrange(hay.len() - m, hay.len() as int), done: false }, false)
        }
    }
}

/// The reads `chunks` joined.
pub open spec fn joined_bytes(chunks: Seq<Seq<u8>>) -> Seq<u8>
    decreases chunks.len(),
{
    if chunks.len() == 0 {
        Seq::empty()
    } else {
        joined_bytes(chunks.drop_last()) + chunks.last()
    }
}

/// The watch after feeding `chunks` from a fresh start.
pub open spec fn feed_all(needle: Seq<u8>, case_sensitive: bool, chunks: Seq<Seq<u8>>) -> WatchView
    decreases chunks.len(),
{
    if chunks.len() == 0 {
        WatchView { carry: Seq::empty(), done: false }
    } else {
        spec_feed(feed_all(needle, case_sensitive, chunks.drop_last()), needle, case_sensitive, chunks.last()).0
    }
}

/// `found` is how [`spec_bytes_contain`] matches.
proof fn lemma_found_eq(h: Seq<u8>, n: Seq<u8>, cs: bool)
    ensures
        found(h, n, cs) == spec_bytes_contain(h, n, cs),
{
    if cs {
        assert(as_compared(h, cs) == h);
        assert(as_compared(n, cs) == n);
        if found(h, n, cs) {
            let i = choose|i: int| #[trigger] bytes_at(as_compared(h, cs), as_compared(n, cs), i);
            assert(bytes_at(h, n, i));
        }
        if spec_bytes_contain(h, n, cs) {
            let i = choose|i: int| #[trigger] bytes_at(h, n, i);
            assert(bytes_at(as_compared(h, cs), as_compared(n, cs), i));
        }
    } else {
        assert(as_compared(h, cs) == fold_bytes(h));
        assert(as_compared(n, cs) == fold_bytes(n));
        if found(h, n, cs) {
            let i = choose|i: int| #[trigger] bytes_at(as_compared(h, cs), as_compared(n, cs), i);
            assert(bytes_at(fold_bytes(h), fold_bytes(n), i));
        }
        if spec_bytes_contain(h, n, cs) {
            let i = choose|i: int| #[trigger] bytes_at(fold_bytes(h), fold_bytes(n), i);
            assert(bytes_at(as_compared(h, cs), as_compared(n, cs), i));
        }
    }
}

/// Comparing preserves joins and cuts.
proof fn lemma_compared(a: Seq<u8>, b: Seq<u8>, cs: bool, lo: int, hi: int)
    requires
        0 <= lo <= hi <= a.len(),
    ensures
        as_compared(a + b, cs) == as_compared(a, cs) + as_compared(b, cs),
        as_compared(a.subrange(lo, hi), cs) == as_compared(a, cs).subrange(lo, hi),
        as_compared(a, cs).len() == a.len(),
{
    assert(as_compared(a + b, cs) =~= as_compared(a, cs) + as_compared(b, cs));
    assert(as_compared(a.subrange(lo, hi), cs) =~= as_compared(a, cs).subrange(lo, hi));
}

/// A needle found in a stream stays found once more is appended.
proof fn lemma_found_grows(h: Seq<u8>, c: Seq<u8>, n: Seq<u8>, cs: bool)
    requires
        found(h, n, cs),
    ensures
        found(h + c, n, cs),
{
    lemma_compared(h, c, cs, 0, 0);
    let i = choose|i: int| #[trigger] bytes_at(as_compared(h, cs), as_compared(n, cs), i);
    let hh = as_compared(h, cs);
    let nn = as_compared(n, cs);
    assert((hh + as_compared(c, cs)).subrange(i, i + nn.len()) =~= hh.subrange(i, i + nn.len()));
    assert(bytes_at(as_compared(h + c, cs), nn, i));
}

/// With no needle in the stream `a` so far, a needle in `a + c` lies in the
/// last `needle.len() - 1` bytes of `a` followed by `c`.
proof fn lemma_carry_suffices(a: Seq<u8>, c: Seq<u8>, n: Seq<u8>, cs: bool, m: int)
    requires
        n.len() > 0,
        !found(a, n, cs),
        m == (if n.len() - 1 < a.len() {
            n.len() - 1
        } else {
            a.len() as int
        }),
    ensures
        found(a + c, n, cs) == found(a.subrange(a.len() - m, a.len() as int) + c, n, cs),
{
    let s = a.len() - m;
    let carry = a.subrange(s, a.len() as int);
    let nn = as_compared(n, cs);
    lemma_compared(a, c, cs, s, a.len() as int);
    lemma_compared(carry, c, cs, 0, 0);
    let whole = as_compared(a + c, cs);
    let part = as_compared(carry + c, cs);
    assert(part =~= whole.subrange(s, whole.len() as int));
    if found(a + c, n, cs) {
        let p = choose|p: int| #[trigger] bytes_at(whole, nn, p);
        if p + nn.len() <= a.len() {
            assert(as_compared(a, cs).subrange(p, p + nn.len()) =~= whole.subrange(p, p + nn.len()));
            assert(bytes_at(as_compared(a, cs), nn, p));
            assert(false);
        }
        assert(p >= s);
        assert(part.subrange(p - s, p - s + nn.len()) =~= whole.subrange(p, p + nn.len()));
        assert(bytes_at(part, nn, p - s));
    }
    if found(carry + c, n, cs) {
        let q = choose|q: int| #[trigger] bytes_at(part, nn, q);
        assert(part.subrange(q, q + nn.len()) =~= whole.subrange(q + s, q + s + nn.len()));
        assert(bytes_at(whole, nn, q + s));
    }
}

/// The watch's invariant over the stream fed so far.
pub open spec fn watch_ok(w: WatchView, stream: Seq<u8>, n: Seq<u8>, cs: bool) -> bool {
    &&& w.done == found(stream, n, cs)
    &&& !w.done ==> w.carry == stream.subrange(
        stream.len() - (if n.len() - 1 < stream.len() {
            n.len() - 1
        } else {
            stream.len() as int
        }),
        stream.len() as int,
    )
}

/// The watch matches exactly when its needle occurs somewhere in everything
/// it was fed, even when the needle is split across reads.
pub proof fn lemma_watch_finds_split_needles(needle: Seq<u8>, case_sensitive: bool, chunks: Seq<Seq<u8>>)
    requires
        needle.len() > 0,
    ensures
        feed_all(needle, case_sensitive, chunks).done == spec_bytes_contain(joined_bytes(chunks), needle, case_sensitive),
    decreases chunks.len(),
{
    lemma_watch_ok(needle, case_sensitive, chunks);
}

/// The watch keeps its invariant over every sequence of reads.
proof fn lemma_watch_ok(n: Seq<u8>, cs: bool, chunks: Seq<Seq<u8>>)
    requires
        n.len() > 0,
    ensures
        watch_ok(feed_all(n, cs, chunks), joined_bytes(chunks), n, cs),
        found(joined_bytes(chunks), n, cs) == spec_bytes_contain(joined_bytes(chunks), n, cs),
    decreases chunks.len(),
{
    let st = joined_bytes(chunks);
    lemma_found_eq(st, n, cs);
    if chunks.len() == 0 {
        assert(st =~= Seq::<u8>::empty());
        assert(!found(st, n, cs)) by {
            if found(st, n, cs) {
                let i = choose|i: int| #[trigger] bytes_at(as_compared(st, cs), as_compared(n, cs), i);
            }
        }
        assert(st.subrange(0, 0) =~= Seq::<u8>::empty());
    } else {
        let prev = chunks.drop_last();
        let c = chunks.last();
        lemma_watch_ok(n, cs, prev);
        let a = joined_bytes(prev);
        let w = feed_all(n, cs, prev);
        assert(st == a + c);
        if w.done {
            lemma_found_grows(a, c, n, cs);
        } else {
            let m = if n.len() - 1 < a.len() {
                n.len() - 1
            } else {
                a.len() as int
            };
            lemma_carry_suffices(a, c, n, cs, m);
            let hay = w.carry + c;
            lemma_found_eq(hay, n, cs);
            if !found(hay, n, cs) {
                let m2 = if n.len() - 1 < hay.len() {
                    n.len() - 1
                } else {
                    hay.len() as int
                };
                let m3 = if n.len() - 1 < st.len() {
                    n.len() - 1
                } else {
                    st.len() as int
                };
                assert(hay.len() == m + c.len());
                assert(m2 == m3);
                assert(hay.subrange(hay.len() - m2, hay.len() as int) =~= st.subrange(st.len() - m3, st.len() as int));
            }
        }
    }
}

/// Scans a child's output for a readiness needle, the escape sequences
/// stripped (an escape split across reads included), carrying a tail across
/// reads; it matches at most once.
pub struct OutputWatch {
    needle: Vec<u8>,
    case_sensitive: bool,
    carry: Vec<u8>,
    done: bool,
    strip: Stripper,
}

/// The incremental escape stripper of `anstream`, carried between reads.
#[verifier::external_type_specification]
#[verifier::external_body]
pub struct ExStripBytes(anstream::adapter::StripBytes);

/// The printable bytes `StripBytes::strip_next` yields for `chunk`, joined,
/// from a fresh stripper that was then fed the reads `reads`, in order: its
/// escape state is set by those reads, including where each one ended.
pub uninterp spec fn stripped_step(reads: Seq<Seq<u8>>, chunk: Seq<u8>) -> Seq<u8>;

/// A fresh `StripBytes` (`anstream::adapter::StripBytes::new`).
#[verifier::external_body]
fn new_strip_bytes() -> anstream::adapter::StripBytes {
    anstream::adapter::StripBytes::new()
}

/// `anstream`'s incremental escape stripper, with the reads fed to it so far.
pub struct Stripper {
    inner: anstream::adapter::StripBytes,
    fed: Ghost<Seq<Seq<u8>>>,
}

impl Stripper {
    /// The reads fed so far, in order.
    pub closed spec fn fed(&self) -> Seq<Seq<u8>> {
        self.fed@
    }

    /// A stripper that was fed nothing.
    pub fn new() -> (s: Stripper)
        ensures
            s.fed() == Seq::<Seq<u8>>::empty(),
    {
        Stripper { inner: new_strip_bytes(), fed: Ghost(Seq::empty()) }
    }

    /// The printable bytes of the next read (`StripBytes::strip_next`,
    /// joined): what [`stripped_step`] names for the reads fed before, pieces
    /// cut from `chunk` in order and so never longer than it. A stripper that
    /// was fed no read is in the state `strip_bytes` starts from, so there the
    /// result is what [`ansi_stripped`] names for `chunk`.
    #[verifier::external_body]
    fn strip_next(&mut self, chunk: &[u8]) -> (r: Vec<u8>)
        ensures
            r@ == stripped_step(old(self).fed(), chunk@),
            final(self).fed() == old(self).fed().push(chunk@),
            r@.len() <= chunk@.len(),
            old(self).fed().len() == 0 ==> r@ == ansi_stripped(chunk@),
    {
        self.inner.strip_next(chunk).flatten().copied().collect()
    }
}

impl OutputWatch {
    /// The watch's state.
    pub closed spec fn view(&self) -> WatchView {
        WatchView { carry: self.carry@, done: self.done }
    }

    /// The reads fed to the watch's stripper so far, in order.
    pub closed spec fn fed(&self) -> Seq<Seq<u8>> {
        self.strip.fed()
    }

    /// The needle's bytes.
    pub closed spec fn needle(&self) -> Seq<u8> {
        self.needle@
    }

    /// Whether the needle matches case-sensitively.
    pub closed spec fn case_sensitive(&self) -> bool {
        self.case_sensitive
    }

    /// A fresh watch for `needle`.
    pub fn new(needle: &Needle) -> (w: OutputWatch)
        ensures
            w.view() == (WatchView { carry: Seq::empty(), done: false }),
            w.needle() == vstd::utf8::encode_utf8(needle.text@),
            w.case_sensitive() == needle.case_sensitive,
            w.fed() == Seq::<Seq<u8>>::empty(),
    {
        let b = needle.text.as_str().as_bytes();
        let mut v: Vec<u8> = Vec::new();
        let mut i: usize = 0;
        while i < b.len()
            invariant
                i <= b.len(),
                v@ == b@.take(i as int),
            decreases b.len() - i,
        {
            v.push(b[i]);
            i = i + 1;
            assert(v@ =~= b@.take(i as int));
        }
        assert(b@.take(b.len() as int) =~= b@);
        OutputWatch {
            needle: v,
            case_sensitive: needle.case_sensitive,
            carry: Vec::new(),
            done: false,
            strip: Stripper::new(),
        }
    }

    /// Whether the watch has matched.
    pub fn is_done(&self) -> (b: bool)
        ensures
            b == self.view().done,
    {
        self.done
    }

    /// Feeds one read whose escapes are already stripped (see [`spec_feed`]);
    /// returns whether this read matched.
    pub fn feed_stripped(&mut self, chunk: &[u8]) -> (hit: bool)
        ensures
            (final(self).view(), hit) == spec_feed(old(self).view(), old(self).needle(), old(self).case_sensitive(), chunk@),
            final(self).needle() == old(self).needle(),
            final(self).case_sensitive() == old(self).case_sensitive(),
            final(self).fed() == old(self).fed(),
    {
        if self.done {
            return false;
        }
        let mut hay: Vec<u8> = Vec::new();
        std::mem::swap(&mut hay, &mut self.carry);
        let ghost c0 = hay@;
        let mut i: usize = 0;
        while i < chunk.len()
            invariant
                i <= chunk.len(),
                hay@ == c0 + chunk@.take(i as int),
            decreases chunk.len() - i,
        {
            hay.push(chunk[i]);
            i = i + 1;
            assert(hay@ =~= c0 + chunk@.take(i as int));
        }
        assert(chunk@.take(chunk.len() as int) =~= chunk@);
        if contains_bytes(hay.as_slice(), self.needle.as_slice(), self.case_sensitive) {
            self.done = true;
            return true;
        }
        let keep = if self.needle.len() > 0 {
            self.needle.len() - 1
        } else {
            0
        };
        let from = hay.len() - if keep < hay.len() {
            keep
        } else {
            hay.len()
        };
        let mut tail: Vec<u8> = Vec::new();
        let mut j = from;
        while j < hay.len()
            invariant
                from <= j <= hay.len(),
                tail@ == hay@.subrange(from as int, j as int),
            decreases hay.len() - j,
        {
            tail.push(hay[j]);
            j = j + 1;
            assert(tail@ =~= hay@.subrange(from as int, j as int));
        }
        self.carry = tail;
        false
    }

    /// Feeds one raw read: its escapes are stripped by the watch's stripper
    /// (which keeps an escape split across reads), then the printable bytes
    /// are fed as by [`OutputWatch::feed_stripped`]. Once matched, the watch
    /// ignores reads. Returns whether this read matched.
    pub fn feed(&mut self, chunk: &[u8]) -> (hit: bool)
        ensures
            (final(self).view(), hit) == spec_feed(
                old(self).view(),
                old(self).needle(),
                old(self).case_sensitive(),
                stripped_step(old(self).fed(), chunk@),
            ),
            final(self).fed() == (if old(self).view().done {
                old(self).fed()
            } else {
                old(self).fed().push(chunk@)
            }),
            final(self).needle() == old(self).needle(),
            final(self).case_sensitive() == old(self).case_sensitive(),
    {
        if self.done {
            return false;
        }
        let printable = self.strip.strip_next(chunk);
        self.feed_stripped(printable.as_slice())
    }
}

/// What a readiness event does for a service that was not stopped: a passing
/// check releases the dependents and a failing one waits for the next; the
/// deadline fails startup; the watched output or the delay releases them
/// while the process still runs; cancellation always cancels.
pub proof fn lemma_readiness_outcomes(passed: bool, live: bool, stopped: bool)
    ensures
        !stopped ==> spec_readiness_step(ReadinessEvent::Checked { passed }, stopped, live) == (if passed {
            ReadinessStep::Release
        } else {
            ReadinessStep::Continue
        }),
        !stopped ==> spec_readiness_step(ReadinessEvent::Deadline, stopped, live) == ReadinessStep::FailStartup,
        !stopped && live ==> spec_readiness_step(ReadinessEvent::Reached, stopped, live) == ReadinessStep::Release,
        !live ==> spec_readiness_step(ReadinessEvent::Reached, stopped, live) == ReadinessStep::Cancel,
        spec_readiness_step(ReadinessEvent::Cancelled, stopped, live) == ReadinessStep::Cancel,
{
}

} // verus!
