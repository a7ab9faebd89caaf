//! What the screen shows, as text and flags: the search highlight of a line,
//! the footer's status and hints, tab icons and accents, and which wrapped rows
//! of the log fall inside the viewport. Drawing them is the terminal layer's job.
use vstd::prelude::*;

use super::app::{App, AppView, Tab};
use super::search::SearchView;
use crate::config::error::joined;
use crate::logger::search::{has_upper, occurs_at, query_is_case_sensitive};
use crate::service::{ServiceStatus, spec_icon, spec_noun};
use crate::text::{append_str, push_char, chars_of, decimal, decimal_of, decimal_of_u64, lower_seq, string_from, to_lower};
use crate::theme::{Color, Theme, spec_error, spec_subtle, spec_success};

verus! {

/// A run of a line's text, `marked` when it is a search match.
#[derive(Clone, Debug, PartialEq, Eq)]
pub struct Segment {
    pub text: String,
    pub marked: bool,
}

/// `s` as the search compares it: unchanged when case-sensitive, else ASCII
/// lowercase.
pub open spec fn folded(s: Seq<char>, case_sensitive: bool) -> Seq<char> {
    if case_sensitive {
        s
    } else {
        lower_seq(s)
    }
}

/// The segments of `text[last..]`, scanning for `needle` in `hay` from `i`:
/// each leftmost match is marked, the text between matches is plain.
pub open spec fn scan(text: Seq<char>, hay: Seq<char>, needle: Seq<char>, last: int, i: int) -> Seq<(Seq<char>, bool)>
    decreases hay.len() - i,
{
    if needle.len() > 0 && 0 <= last <= i && occurs_at(hay, needle, i) {
        (if i > last {
            seq![(text.subrange(last, i), false)]
        } else {
            Seq::empty()
        }) + seq![(text.subrange(i, i + needle.len()), true)] + scan(
            text,
            hay,
            needle,
            i + needle.len(),
            i + needle.len(),
        )
    } else if needle.len() > 0 && 0 <= last <= i && i + needle.len() <= hay.len() {
        scan(text, hay, needle, last, i + 1)
    } else if 0 <= last < text.len() {
        seq![(text.subrange(last, text.len() as int), false)]
    } else {
        Seq::empty()
    }
}

/// A line's text split for display: with a non-empty query, its (smart-case)
/// matches marked and the rest plain; otherwise one plain segment.
pub open spec fn spec_highlight(text: Seq<char>, query: Option<Seq<char>>) -> Seq<(Seq<char>, bool)> {
    match query {
        Some(q) => if q.len() > 0 {
            let cs = has_upper(q);
            let r = scan(text, folded(text, cs), folded(q, cs), 0, 0);
            if r.len() == 0 {
                seq![(text, false)]
            } else {
                r
            }
        } else {
            seq![(text, false)]
        },
        None => seq![(text, false)],
    }
}

/// The text of segments, joined.
pub open spec fn joined_text(segs: Seq<(Seq<char>, bool)>) -> Seq<char>
    decreases segs.len(),
{
    if segs.len() == 0 {
        Seq::empty()
    } else {
        joined_text(segs.drop_last()) + segs.last().0
    }
}

/// One segment joins to its own text.
proof fn lemma_joined_single(x: (Seq<char>, bool))
    ensures
        joined_text(seq![x]) == x.0,
{
    let e = Seq::<(Seq<char>, bool)>::empty();
    assert(joined_text(e) == Seq::<char>::empty());
    assert(seq![x].drop_last() =~= e);
    assert(seq![x].last() == x);
    assert(joined_text(seq![x]) == joined_text(e) + x.0);
    assert(Seq::<char>::empty() + x.0 =~= x.0);
}

/// Joining two runs of segments joins their texts.
proof fn lemma_joined_append(a: Seq<(Seq<char>, bool)>, b: Seq<(Seq<char>, bool)>)
    ensures
        joined_text(a + b) == joined_text(a) + joined_text(b),
    decreases b.len(),
{
    if b.len() == 0 {
        assert(a + b =~= a);
        assert(joined_text(a) + joined_text(b) =~= joined_text(a));
    } else {
        lemma_joined_append(a, b.drop_last());
        assert((a + b).drop_last() =~= a + b.drop_last());
        assert((a + b).last() == b.last());
        assert(joined_text(a + b) =~= joined_text(a) + joined_text(b));
    }
}

/// The segments of a scan spell out the rest of the text, from `last` on.
proof fn lemma_scan_joins(text: Seq<char>, hay: Seq<char>, needle: Seq<char>, last: int, i: int)
    requires
        hay.len() == text.len(),
        needle.len() > 0,
        0 <= last <= i <= text.len(),
    ensures
        joined_text(scan(text, hay, needle, last, i)) == text.subrange(last, text.len() as int),
    decreases hay.len() - i,
{
    let n = needle.len() as int;
    if occurs_at(hay, needle, i) {
        let pre: Seq<(Seq<char>, bool)> = if i > last {
            seq![(text.subrange(last, i), false)]
        } else {
            Seq::empty()
        };
        let mark: Seq<(Seq<char>, bool)> = seq![(text.subrange(i, i + n), true)];
        let rest = scan(text, hay, needle, i + n, i + n);
        lemma_scan_joins(text, hay, needle, i + n, i + n);
        assert(scan(text, hay, needle, last, i) == pre + mark + rest);
        lemma_joined_append(pre + mark, rest);
        lemma_joined_append(pre, mark);
        lemma_joined_single((text.subrange(i, i + n), true));
        if i > last {
            lemma_joined_single((text.subrange(last, i), false));
        } else {
            assert(joined_text(pre) =~= text.subrange(last, i));
        }
        assert(text.subrange(last, i) + text.subrange(i, i + n) + text.subrange(i + n, text.len() as int)
            =~= text.subrange(last, text.len() as int));
    } else if i + n <= hay.len() {
        lemma_scan_joins(text, hay, needle, last, i + 1);
    } else if last < text.len() {
        lemma_joined_single((text.subrange(last, text.len() as int), false));
    } else {
        assert(text.subrange(last, text.len() as int) =~= Seq::<char>::empty());
    }
}

/// Highlighting never drops, repeats or reorders text: the segments joined
/// are the line itself, whatever the query.
pub proof fn lemma_highlight_keeps_text(text: Seq<char>, query: Option<Seq<char>>)
    ensures
        joined_text(spec_highlight(text, query)) == text,
{
    lemma_joined_single((text, false));
    match query {
        Some(q) => if q.len() > 0 {
            let cs = has_upper(q);
            let hay = folded(text, cs);
            assert(hay.len() == text.len());
            assert(folded(q, cs).len() == q.len());
            lemma_scan_joins(text, hay, folded(q, cs), 0, 0);
            assert(text.subrange(0, text.len() as int) =~= text);
        },
        None => {},
    }
}

/// The text and mark of each segment.
pub open spec fn segments_view(v: Seq<Segment>) -> Seq<(Seq<char>, bool)> {
    v.map_values(|s: Segment| (s.text@, s.marked))
}

/// `s` folded as the search compares it.
fn fold_chars(s: &Vec<char>, case_sensitive: bool) -> (r: Vec<char>)
    ensures
        r@ == folded(s@, case_sensitive),
{
    let mut r: Vec<char> = Vec::new();
    let mut i: usize = 0;
    while i < s.len()
        invariant
            i <= s.len(),
            r@ == folded(s@, case_sensitive).take(i as int),
        decreases s.len() - i,
    {
        if case_sensitive {
            r.push(s[i]);
        } else {
            r.push(to_lower(s[i]));
        }
        i = i + 1;
        assert(r@ =~= folded(s@, case_sensitive).take(i as int));
    }
    assert(folded(s@, case_sensitive).take(s.len() as int) =~= folded(s@, case_sensitive));
    r
}

/// Whether `needle` occurs in `hay` at `i`.
fn occurs_here(hay: &Vec<char>, needle: &Vec<char>, i: usize) -> (b: bool)
    requires
        i + needle.len() <= hay.len(),
    ensures
        b == occurs_at(hay@, needle@, i as int),
{
    let mut k: usize = 0;
    while k < needle.len()
        invariant
            k <= needle.len(),
            i + needle.len() <= hay.len(),
            forall|m: int| 0 <= m < k ==> hay@[i + m] == needle@[m],
        decreases needle.len() - k,
    {
        if hay[i + k] != needle[k] {
            assert(!occurs_at(hay@, needle@, i as int)) by {
                if occurs_at(hay@, needle@, i as int) {
                    assert(hay@.subrange(i as int, i + needle.len())[k as int] == needle@[k as int]);
                }
            }
            return false;
        }
        k = k + 1;
    }
    assert(hay@.subrange(i as int, i + needle.len()) =~= needle@);
    true
}

/// `t` as one plain segment.
fn whole(t: &str) -> (v: Vec<Segment>)
    ensures
        segments_view(v@) == seq![(t@, false)],
{
    let mut v: Vec<Segment> = Vec::new();
    v.push(Segment { text: t.to_owned(), marked: false });
    assert(segments_view(v@) =~= seq![(t@, false)]);
    v
}

/// Splits `text` for display, marking the matches of `query` (smart case,
/// like the filter); without a non-empty query it is one plain segment.
pub fn highlight(text: &str, query: Option<&str>) -> (segs: Vec<Segment>)
    ensures
        segments_view(segs@) == spec_highlight(text@, match query {
            Some(q) => Some(q@),
            None => None,
        }),
{
    let q = match query {
        Some(q) => q,
        None => {
            return whole(text);
        },
    };
    let qc = chars_of(q);
    if qc.len() == 0 {
        return whole(text);
    }
    let cs = query_is_case_sensitive(q);
    let tc = chars_of(text);
    let hay = fold_chars(&tc, cs);
    let needle = fold_chars(&qc, cs);
    let ghost all = scan(text@, hay@, needle@, 0, 0);
    let n = needle.len();
    let len = hay.len();
    let mut out: Vec<Segment> = Vec::new();
    let mut last: usize = 0;
    let mut i: usize = 0;
    while i <= len && n <= len - i
        invariant
            tc@ == text@,
            hay@ == folded(text@, cs),
            needle@ == folded(q@, cs),
            len == hay.len() == tc.len(),
            n == needle.len(),
            n > 0,
            last <= i <= len,
            all == scan(text@, hay@, needle@, 0, 0),
            segments_view(out@) + scan(text@, hay@, needle@, last as int, i as int) == all,
        decreases len - i,
    {
        if occurs_here(&hay, &needle, i) {
            let ghost before = segments_view(out@);
            if i > last {
                out.push(Segment { text: string_from(&tc, last, i), marked: false });
            }
            out.push(Segment { text: string_from(&tc, i, i + n), marked: true });
            proof {
                let pre = if i > last {
                    seq![(text@.subrange(last as int, i as int), false)]
                } else {
                    Seq::<(Seq<char>, bool)>::empty()
                };
                assert(segments_view(out@) =~= before + pre + seq![(text@.subrange(i as int, i + n), true)]);
            }
            last = i + n;
            i = i + n;
        } else {
            i = i + 1;
        }
    }
    let ghost before = segments_view(out@);
    if last < len {
        out.push(Segment { text: string_from(&tc, last, len), marked: false });
        assert(segments_view(out@) =~= before + seq![(text@.subrange(last as int, len as int), false)]);
    } else {
        assert(segments_view(out@) =~= before);
    }
    if out.len() == 0 {
        return whole(text);
    }
    out
}

/// The accent a status gives its tab icon.
pub open spec fn spec_status_accent(status: ServiceStatus, theme: Theme) -> Color {
    match status {
        ServiceStatus::Running | ServiceStatus::Completed(_) => spec_success(theme),
        ServiceStatus::Failed(_) => spec_error(theme),
        ServiceStatus::Waiting | ServiceStatus::Stopped => spec_subtle(theme),
    }
}

/// A service's status-icon color: success while running or after an expected
/// exit, the error color after a failure, subtle otherwise.
pub fn status_accent(status: ServiceStatus, theme: Theme) -> (c: Color)
    ensures
        c == spec_status_accent(status, theme),
{
    match status {
        ServiceStatus::Running | ServiceStatus::Completed(_) => theme.success(),
        ServiceStatus::Failed(_) => theme.error(),
        ServiceStatus::Waiting | ServiceStatus::Stopped => theme.subtle(),
    }
}

/// A tab's status icon, followed by the noteworthy exit code if there is one.
pub open spec fn spec_tab_icon(status: ServiceStatus) -> Seq<char> {
    match status {
        ServiceStatus::Completed(c) => if c != 0 {
            spec_icon(status) + decimal(c as int)
        } else {
            spec_icon(status)
        },
        ServiceStatus::Failed(c) => spec_icon(status) + decimal(c as int),
        _ => spec_icon(status),
    }
}

/// The icon a service tab shows: its status glyph, with the failure code or a
/// non-zero completion code after it.
pub fn tab_icon(status: ServiceStatus) -> (s: String)
    ensures
        s@ == spec_tab_icon(status),
{
    let mut s = String::new();
    append_str(&mut s, status.icon());
    match status.code() {
        Some(c) => {
            let d = decimal_of(c as i64);
            append_str(&mut s, d.as_str());
        },
        None => {},
    }
    s
}

/// `""` or `"es"`, so a count reads "1 match" or "2 matches".
pub open spec fn spec_plural(n: int) -> Seq<char> {
    if n == 1 {
        ""@
    } else {
        "es"@
    }
}

/// The suffix making "match" agree with `n`.
pub fn plural(n: usize) -> (s: &'static str)
    ensures
        s@ == spec_plural(n as int),
{
    if n == 1 {
        ""
    } else {
        "es"
    }
}

/// "N match(es)", as the footers count results.
pub open spec fn spec_count(n: int) -> Seq<char> {
    decimal(n) + " match"@ + spec_plural(n)
}

/// The editing footer's trailer: a hint while the query is empty, else the
/// match count and the keys that keep, clear or jump the query.
pub open spec fn spec_editing_trailer(query_empty: bool, n: int) -> Seq<char> {
    if query_empty {
        "   type to filter · Esc: cancel"@
    } else {
        "   "@ + spec_count(n) + " · Enter: keep · Esc: clear · Ctrl+A/E: ends"@
    }
}

/// The text after the query while the search box is open.
pub fn editing_trailer(query_empty: bool, n: usize) -> (s: String)
    ensures
        s@ == spec_editing_trailer(query_empty, n as int),
{
    let mut s = String::new();
    if query_empty {
        append_str(&mut s, "   type to filter · Esc: cancel");
    } else {
        append_str(&mut s, "   ");
        let d = decimal_of_u64(n as u64);
        append_str(&mut s, d.as_str());
        append_str(&mut s, " match");
        append_str(&mut s, plural(n));
        append_str(&mut s, " · Enter: keep · Esc: clear · Ctrl+A/E: ends");
    }
    s
}

/// The committed-filter footer's trailer: the match count and the keys that
/// re-edit or clear the filter.
pub open spec fn spec_committed_trailer(n: int) -> Seq<char> {
    "   "@ + spec_count(n) + " · s: edit · Esc: clear"@
}

/// The text after the query while a committed filter applies.
pub fn committed_trailer(n: usize) -> (s: String)
    ensures
        s@ == spec_committed_trailer(n as int),
{
    let mut s = String::new();
    append_str(&mut s, "   ");
    let d = decimal_of_u64(n as u64);
    append_str(&mut s, d.as_str());
    append_str(&mut s, " match");
    append_str(&mut s, plural(n));
    append_str(&mut s, " · s: edit · Esc: clear");
    s
}

/// The run status worth showing even mid-search: the exit, a shutdown in
/// progress, or a pending exit; nothing during a normal run.
pub open spec fn spec_alert_status(finished: Option<i32>, shutting_down: bool, exiting: bool) -> Option<Seq<char>> {
    match finished {
        Some(code) => Some("exited (code "@ + decimal(code as int) + ") — Ctrl+C/q to quit"@),
        None => if shutting_down {
            Some("shutting down… (Ctrl+C/q again to force-kill)"@)
        } else if exiting {
            Some("exiting…"@)
        } else {
            None
        },
    }
}

/// The app's alert status (see [`spec_alert_status`]).
pub fn alert_status(app: &App) -> (s: Option<String>)
    ensures
        match spec_alert_status(app.view().finished, app.view().global_stopped, app.view().quit_requested) {
            Some(t) => s matches Some(u) && u@ == t,
            None => s is None,
        },
{
    match app.finished() {
        Some(code) => {
            let mut s = String::new();
            append_str(&mut s, "exited (code ");
            let d = decimal_of(code as i64);
            append_str(&mut s, d.as_str());
            append_str(&mut s, ") — Ctrl+C/q to quit");
            Some(s)
        },
        None => if app.is_shutting_down() {
            Some("shutting down… (Ctrl+C/q again to force-kill)".to_owned())
        } else if app.is_exiting() {
            Some("exiting…".to_owned())
        } else {
            None
        },
    }
}

/// Whether two statuses are the same state, whatever code they carry.
pub open spec fn same_state(a: ServiceStatus, b: ServiceStatus) -> bool {
    match (a, b) {
        (ServiceStatus::Waiting, ServiceStatus::Waiting) => true,
        (ServiceStatus::Running, ServiceStatus::Running) => true,
        (ServiceStatus::Completed(_), ServiceStatus::Completed(_)) => true,
        (ServiceStatus::Failed(_), ServiceStatus::Failed(_)) => true,
        (ServiceStatus::Stopped, ServiceStatus::Stopped) => true,
        _ => false,
    }
}

/// How many of `s` are in the state of `k`.
pub open spec fn count_state(s: Seq<ServiceStatus>, k: ServiceStatus) -> nat
    decreases s.len(),
{
    if s.len() == 0 {
        0
    } else {
        count_state(s.drop_last(), k) + if same_state(s.last(), k) {
            1nat
        } else {
            0nat
        }
    }
}

/// The lifecycle states in display order.
pub open spec fn states() -> Seq<ServiceStatus> {
    seq![
        ServiceStatus::Running,
        ServiceStatus::Waiting,
        ServiceStatus::Completed(0),
        ServiceStatus::Failed(0),
        ServiceStatus::Stopped,
    ]
}

/// The tally entries for the first `k` states: "N noun" for each state that
/// some service is in.
pub open spec fn tally_parts(s: Seq<ServiceStatus>, k: int) -> Seq<Seq<char>>
    decreases k,
{
    if k <= 0 {
        Seq::empty()
    } else {
        let n = count_state(s, states()[k - 1]);
        tally_parts(s, k - 1) + if n > 0 {
            seq![decimal(n as int) + " "@ + spec_noun(states()[k - 1])]
        } else {
            Seq::empty()
        }
    }
}

/// The per-state service tally: the non-zero states only, in lifecycle order.
pub open spec fn spec_tally(s: Seq<ServiceStatus>) -> Seq<char> {
    joined(tally_parts(s, 5), ", "@)
}

/// Counts the statuses in state `k`.
fn count_in(statuses: &Vec<ServiceStatus>, k: ServiceStatus) -> (n: usize)
    ensures
        n == count_state(statuses@, k),
{
    let mut n: usize = 0;
    let mut i: usize = 0;
    while i < statuses.len()
        invariant
            i <= statuses.len(),
            n == count_state(statuses@.take(i as int), k),
            n <= i,
        decreases statuses.len() - i,
    {
        assert(statuses@.take(i + 1).drop_last() =~= statuses@.take(i as int));
        let same = match (statuses[i], k) {
            (ServiceStatus::Waiting, ServiceStatus::Waiting) => true,
            (ServiceStatus::Running, ServiceStatus::Running) => true,
            (ServiceStatus::Completed(_), ServiceStatus::Completed(_)) => true,
            (ServiceStatus::Failed(_), ServiceStatus::Failed(_)) => true,
            (ServiceStatus::Stopped, ServiceStatus::Stopped) => true,
            _ => false,
        };
        if same {
            n = n + 1;
        }
        i = i + 1;
    }
    assert(statuses@.take(statuses.len() as int) =~= statuses@);
    n
}

/// The footer's tally of service states, e.g. `2 running, 1 failed`.
pub fn service_tally(statuses: &Vec<ServiceStatus>) -> (s: String)
    ensures
        s@ == spec_tally(statuses@),
{
    let all = ServiceStatus::all();
    let mut s = String::new();
    let ghost mut parts: Seq<Seq<char>> = Seq::empty();
    let mut any = false;
    let mut k: usize = 0;
    while k < 5
        invariant
            k <= 5,
            any == (parts.len() > 0),
            all@ == states(),
            parts == tally_parts(statuses@, k as int),
            s@ == joined(parts, ", "@),
        decreases 5 - k,
    {
        let n = count_in(statuses, all[k]);
        if n > 0 {
            let mut part = String::new();
            let d = decimal_of_u64(n as u64);
            append_str(&mut part, d.as_str());
            append_str(&mut part, " ");
            append_str(&mut part, all[k].noun());
            if any {
                append_str(&mut s, ", ");
            }
            any = true;
            append_str(&mut s, part.as_str());
            proof {
                let np = parts.push(part@);
                assert(np.drop_last() =~= parts);
                parts = np;
            }
        }
        k = k + 1;
    }
    s
}

/// The keybinding hints, with `c: close` on a closeable service tab.
pub open spec fn spec_hints(closeable: bool) -> Seq<char> {
    "Tab/⇧Tab: switch   ↑↓/PgUp/PgDn/Home/End: scroll   s: search   Ctrl+C: stop/quit   q: quit"@ + if closeable {
        "   c: close"@
    } else {
        ""@
    }
}

/// Whether the active tab is a service that finished as expected.
pub open spec fn active_closeable(app: &App, statuses: Seq<ServiceStatus>) -> bool {
    match app.view().tabs[app.view().active] {
        Tab::Service(i) => statuses[i as int] is Completed,
        Tab::All => false,
    }
}

/// The footer's keybinding hints for the app's active tab (`statuses[i]` is
/// service `i`'s status).
pub fn footer_hints(app: &App, statuses: &Vec<ServiceStatus>) -> (s: String)
    requires
        statuses.len() == app.view().n,
    ensures
        s@ == spec_hints(active_closeable(app, statuses@)),
{
    let closeable = match app.active_tab() {
        Tab::Service(i) => {
            statuses[i].is_closeable()
        },
        Tab::All => false,
    };
    let mut s = String::new();
    append_str(
        &mut s,
        "Tab/⇧Tab: switch   ↑↓/PgUp/PgDn/Home/End: scroll   s: search   Ctrl+C: stop/quit   q: quit",
    );
    if closeable {
        append_str(&mut s, "   c: close");
    } else {
        proof {
            reveal_strlit("");
            assert(s@ + ""@ =~= s@);
        }
    }
    s
}

/// The footer's run status: the alert when there is one, else the tally.
pub fn footer_status(app: &App, statuses: &Vec<ServiceStatus>) -> (s: String)
    ensures
        s@ == match spec_alert_status(app.view().finished, app.view().global_stopped, app.view().quit_requested) {
            Some(t) => t,
            None => spec_tally(statuses@),
        },
{
    match alert_status(app) {
        Some(a) => a,
        None => service_tally(statuses),
    }
}

/// A scroll offset pinned so the window cannot run past the first of `rows`
/// wrapped rows in a viewport `height` rows tall.
pub open spec fn spec_clamp(offset: int, rows: int, height: int) -> int {
    let top = if rows > height {
        rows - height
    } else {
        0
    };
    if offset < top {
        offset
    } else {
        top
    }
}

/// Clamps a scroll offset (rows up from the newest) to the reachable maximum.
pub fn clamp_offset(offset: usize, rows: usize, height: usize) -> (o: usize)
    ensures
        o == spec_clamp(offset as int, rows as int, height as int),
{
    let top = rows.saturating_sub(height);
    if offset < top {
        offset
    } else {
        top
    }
}

/// Enough whole lines below the top leave the offset unchanged: when the
/// offset plus the viewport fits in `lines` lines, which wrap to at least as
/// many rows, no measurement is needed.
pub proof fn lemma_clamp_keeps_short_offsets(offset: int, lines: int, rows: int, height: int)
    requires
        0 <= offset,
        0 <= height,
        offset + height <= lines <= rows,
    ensures
        spec_clamp(offset, rows, height) == offset,
{
}

/// The wrapped rows of the lines from `start` on.
pub open spec fn rows_from(row_counts: Seq<usize>, start: int) -> int
    decreases row_counts.len() - start,
{
    if start < 0 || start >= row_counts.len() {
        0
    } else {
        row_counts[start] + rows_from(row_counts, start + 1)
    }
}

/// The first line the viewport needs, given each line's wrapped row count: the
/// latest start whose lines fill `needed` rows (the first line when none does).
pub open spec fn window_start_ok(row_counts: Seq<usize>, needed: int, start: int) -> bool {
    &&& 0 <= start <= row_counts.len()
    &&& (start == 0 || rows_from(row_counts, start) >= needed)
    &&& forall|j: int| start < j <= row_counts.len() ==> rows_from(row_counts, j) < needed
}

/// Which lines to lay out for a viewport `height` rows tall scrolled `offset`
/// rows up (`row_counts[i]`: line `i`'s wrapped rows): the first line kept,
/// and how many rows of it and the lines after to skip at the top.
pub fn viewport_window(row_counts: &Vec<usize>, offset: usize, height: usize) -> (r: (usize, u16))
    ensures
        ({
            let needed = if height as int + offset as int > usize::MAX {
                usize::MAX as int
            } else {
                height as int + offset as int
            };
            let rows = rows_from(row_counts@, r.0 as int);
            let kept = if rows > usize::MAX {
                usize::MAX as int
            } else {
                rows
            };
            let over = if kept > needed {
                kept - needed
            } else {
                0
            };
            &&& window_start_ok(row_counts@, needed, r.0 as int)
            &&& r.1 == (if over > u16::MAX {
                u16::MAX as int
            } else {
                over
            })
        }),
{
    let needed = height.saturating_add(offset);
    let mut rows: usize = 0;
    let mut start = row_counts.len();
    while start > 0 && rows < needed
        invariant
            start <= row_counts.len(),
            rows == (if rows_from(row_counts@, start as int) > usize::MAX {
                usize::MAX as int
            } else {
                rows_from(row_counts@, start as int)
            }),
            forall|j: int| start < j <= row_counts.len() ==> rows_from(row_counts@, j) < needed,
        decreases start,
    {
        proof {
            if rows_from(row_counts@, start as int) >= needed {
                assert(rows >= needed);
            }
        }
        start = start - 1;
        rows = rows.saturating_add(row_counts[start]);
    }
    proof {
        if start > 0 {
            assert(rows >= needed);
        }
    }
    let over = rows.saturating_sub(needed);
    let y: u16 = if over > 65535 {
        65535
    } else {
        over as u16
    };
    (start, y)
}


/// How a piece of the footer is styled.
#[derive(Clone, Copy, Debug, PartialEq, Eq, Structural)]
pub enum Tone {
    Plain,
    Bold,
    Dim,
    /// Reverse video: the search box's caret.
    Caret,
}

/// Footer pieces with their text as characters.
pub open spec fn pieces_view(p: Seq<(Tone, String)>) -> Seq<(Tone, Seq<char>)> {
    p.map_values(|x: (Tone, String)| (x.0, x.1@))
}

/// The run status a search or filter footer keeps, after a divider, when
/// there is one.
pub open spec fn spec_alert_tail(v: AppView) -> Seq<(Tone, Seq<char>)> {
    match spec_alert_status(v.finished, v.global_stopped, v.quit_requested) {
        Some(a) => seq![(Tone::Plain, "   |   "@), (Tone::Plain, a)],
        None => Seq::empty(),
    }
}

/// The query being edited with its caret: the character under it reversed,
/// or a reversed blank past the end.
pub open spec fn spec_caret_pieces(s: SearchView) -> Seq<(Tone, Seq<char>)> {
    if s.pos < s.query.len() {
        seq![
            (Tone::Plain, s.query.take(s.pos)),
            (Tone::Caret, seq![s.query[s.pos]]),
            (Tone::Plain, s.query.skip(s.pos + 1)),
        ]
    } else {
        seq![(Tone::Plain, s.query.take(s.pos)), (Tone::Caret, " "@)]
    }
}

/// The footer without a search: the key hints, a divider and the run status.
pub open spec fn spec_plain_footer(app: &App, statuses: Seq<ServiceStatus>) -> Seq<(Tone, Seq<char>)> {
    let v = app.view();
    seq![
        (Tone::Dim, spec_hints(active_closeable(app, statuses))),
        (Tone::Plain, "   |   "@),
        (Tone::Plain, match spec_alert_status(v.finished, v.global_stopped, v.quit_requested) {
            Some(t) => t,
            None => spec_tally(statuses),
        }),
    ]
}

/// The footer line, `matches` being how many lines of the active tab match
/// the query: while editing, the query with its caret, the match count and
/// the editing keys; with a committed filter, the filter and its count; both
/// keep the run status when there is an alert. Otherwise the key hints and the
/// run status.
pub open spec fn spec_footer(app: &App, statuses: Seq<ServiceStatus>, matches: int) -> Seq<(Tone, Seq<char>)> {
    let v = app.view();
    match v.search {
        Some(s) => if s.editing {
            seq![(Tone::Bold, "Search: "@)] + spec_caret_pieces(s) + seq![
                (Tone::Dim, spec_editing_trailer(s.query.len() == 0, matches)),
            ] + spec_alert_tail(v)
        } else if s.query.len() > 0 {
            seq![
                (Tone::Bold, "Filter: "@),
                (Tone::Plain, s.query),
                (Tone::Dim, spec_committed_trailer(matches)),
            ] + spec_alert_tail(v)
        } else {
            spec_plain_footer(app, statuses)
        },
        None => spec_plain_footer(app, statuses),
    }
}

/// Appends the alert, after a divider, when there is one.
fn push_alert(app: &App, p: &mut Vec<(Tone, String)>)
    ensures
        pieces_view(final(p)@) == pieces_view(old(p)@) + spec_alert_tail(app.view()),
{
    let ghost before = pieces_view(p@);
    match alert_status(app) {
        Some(a) => {
            p.push((Tone::Plain, "   |   ".to_owned()));
            p.push((Tone::Plain, a));
            assert(pieces_view(p@) =~= before + spec_alert_tail(app.view()));
        },
        None => {
            assert(pieces_view(p@) =~= before + spec_alert_tail(app.view()));
        },
    }
}

/// The footer line as styled pieces (see [`spec_footer`]); `matches` is how
/// many lines of the active tab match the current query.
pub fn footer_pieces(app: &App, statuses: &Vec<ServiceStatus>, matches: usize) -> (p: Vec<(Tone, String)>)
    requires
        statuses.len() == app.view().n,
    ensures
        pieces_view(p@) == spec_footer(app, statuses@, matches as int),
{
    let mut p: Vec<(Tone, String)> = Vec::new();
    match app.search_caret() {
        Some((before, under, after)) => {
            let empty = match app.search_input() {
                Some(q) => q.as_str().is_empty(),
                None => true,
            };
            p.push((Tone::Bold, "Search: ".to_owned()));
            p.push((Tone::Plain, before));
            match under {
                Some(c) => {
                    let mut cs = String::new();
                    push_char(&mut cs, c);
                    p.push((Tone::Caret, cs));
                    p.push((Tone::Plain, after));
                },
                None => {
                    p.push((Tone::Caret, " ".to_owned()));
                },
            }
            p.push((Tone::Dim, editing_trailer(empty, matches)));
            proof {
                let s = app.view().search.unwrap();
                assert(pieces_view(p@) =~= seq![(Tone::Bold, "Search: "@)] + spec_caret_pieces(s) + seq![
                    (Tone::Dim, spec_editing_trailer(s.query.len() == 0, matches as int)),
                ]);
            }
            push_alert(app, &mut p);
        },
        None => match app.search_committed() {
            Some(q) => {
                p.push((Tone::Bold, "Filter: ".to_owned()));
                p.push((Tone::Plain, q));
                p.push((Tone::Dim, committed_trailer(matches)));
                proof {
                    let s = app.view().search.unwrap();
                    assert(pieces_view(p@) =~= seq![
                        (Tone::Bold, "Filter: "@),
                        (Tone::Plain, s.query),
                        (Tone::Dim, spec_committed_trailer(matches as int)),
                    ]);
                }
                push_alert(app, &mut p);
            },
            None => {
                p.push((Tone::Dim, footer_hints(app, statuses)));
                p.push((Tone::Plain, "   |   ".to_owned()));
                p.push((Tone::Plain, footer_status(app, statuses)));
                assert(pieces_view(p@) =~= spec_plain_footer(app, statuses@));
            },
        },
    }
    p
}

} // verus!
