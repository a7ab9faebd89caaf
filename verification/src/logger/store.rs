//! In-memory, capped, structured log storage for one tag, and the merge of the
//! newest lines across several stores.
use vstd::prelude::*;

use super::level::LogLevel;
use super::search::{spec_text_matches, text_matches};
use crate::theme::Color;
use crate::config::graph::{ins, isort, lemma_ins_split, lemma_isort_contains};

verus! {

/// Per-store line cap; the oldest lines are evicted past it.
pub const MAX_LINES: usize = 10_000;

/// Where a stored log line came from: a tag, plus a severity `level` for
/// leveled (system) messages — `None` for plain tagged output.
#[derive(Clone, Debug)]
pub struct Source {
    pub tag: String,
    pub level: Option<LogLevel>,
}

/// One stored, structured log line. `color` is the display color of its
/// prefix; tag-only views render `text`, a combined view adds the prefix.
#[derive(Clone, Debug)]
pub struct LogLine {
    /// Globally increasing arrival stamp, so stores merge in true order.
    pub seq: u64,
    pub source: Source,
    pub color: Color,
    pub text: String,
}

impl LogLine {
    /// An identical copy.
    pub fn duplicate(&self) -> (c: LogLine)
        ensures
            c == *self,
    {
        LogLine {
            seq: self.seq,
            source: Source { tag: self.source.tag.clone(), level: self.source.level },
            color: self.color,
            text: self.text.clone(),
        }
    }
}

/// The lines kept after appending one: the oldest goes once past the cap.
pub open spec fn capped(s: Seq<LogLine>) -> Seq<LogLine> {
    if s.len() > MAX_LINES {
        s.drop_first()
    } else {
        s
    }
}

/// The last `depth` of `s` (all of it when shorter).
pub open spec fn last_n(s: Seq<LogLine>, depth: int) -> Seq<LogLine> {
    if s.len() > depth {
        s.skip(s.len() - depth)
    } else {
        s
    }
}

/// The lines of `s` stamped at least `min`, in order.
pub open spec fn since(s: Seq<LogLine>, min: u64) -> Seq<LogLine>
    decreases s.len(),
{
    if s.len() == 0 {
        s
    } else if s.last().seq >= min {
        since(s.drop_last(), min).push(s.last())
    } else {
        since(s.drop_last(), min)
    }
}

/// The lines of `s` whose text matches `query`, in order.
pub open spec fn matching(s: Seq<LogLine>, query: Seq<char>, case_sensitive: bool) -> Seq<LogLine>
    decreases s.len(),
{
    if s.len() == 0 {
        s
    } else if spec_text_matches(s.last().text@, query, case_sensitive) {
        matching(s.drop_last(), query, case_sensitive).push(s.last())
    } else {
        matching(s.drop_last(), query, case_sensitive)
    }
}

/// One tag's log buffer: the newest lines (at most [`MAX_LINES`]) and the
/// count of lines ever pushed.
pub struct LogStore {
    /// Total lines ever pushed; drives the unread mark and is never decremented
    /// on eviction.
    total: u64,
    lines: Vec<LogLine>,
}

impl LogStore {
    #[verifier::type_invariant]
    closed spec fn inv(&self) -> bool {
        self.lines.len() <= MAX_LINES
    }

    /// The buffered lines, oldest first.
    pub closed spec fn lines(&self) -> Seq<LogLine> {
        self.lines@
    }

    /// Lines ever pushed (wrapping at `u64::MAX`).
    pub closed spec fn pushed(&self) -> u64 {
        self.total
    }

    /// An empty store.
    pub fn new() -> (s: LogStore)
        ensures
            s.lines() == Seq::<LogLine>::empty(),
            s.pushed() == 0,
    {
        LogStore { total: 0, lines: Vec::new() }
    }

    /// Appends a line stamped `seq`, evicting the oldest past [`MAX_LINES`].
    pub fn push(&mut self, seq: u64, source: Source, color: Color, text: String)
        ensures
            final(self).lines() == capped(old(self).lines().push(LogLine { seq, source, color, text })),
            final(self).pushed() == (if old(self).pushed() == u64::MAX {
                0
            } else {
                old(self).pushed() + 1
            }),
    {
        proof {
            use_type_invariant(&*self);
        }
        let mut lines: Vec<LogLine> = Vec::new();
        let mut cur = LogStore::new();
        std::mem::swap(self, &mut cur);
        proof {
            use_type_invariant(&cur);
        }
        let LogStore { total, lines: mut ls } = cur;
        ls.push(LogLine { seq, source, color, text });
        if ls.len() > MAX_LINES {
            ls.remove(0);
        }
        lines = ls;
        let t = if total == u64::MAX { 0 } else { total + 1 };
        *self = LogStore { total: t, lines };
    }

    /// Returns the total number of lines ever pushed (eviction-stable).
    pub fn total(&self) -> (t: u64)
        ensures
            t == self.pushed(),
    {
        self.total
    }

    /// Number of currently buffered (non-evicted) lines.
    pub fn len(&self) -> (n: usize)
        ensures
            n == self.lines().len(),
            n <= MAX_LINES,
    {
        proof {
            use_type_invariant(self);
        }
        self.lines.len()
    }

    /// Whether the buffer currently holds no lines.
    pub fn is_empty(&self) -> (b: bool)
        ensures
            b == (self.lines().len() == 0),
    {
        self.lines.len() == 0
    }

    /// Snapshots the last `depth` buffered lines (oldest first).
    pub fn tail(&self, depth: usize) -> (t: Vec<LogLine>)
        ensures
            t@ == last_n(self.lines(), depth as int),
    {
        let n = self.lines.len();
        let start = if n > depth { n - depth } else { 0 };
        let mut out: Vec<LogLine> = Vec::new();
        let mut i = start;
        while i < n
            invariant
                start <= i <= n,
                n == self.lines.len(),
                out@ == self.lines@.subrange(start as int, i as int),
            decreases n - i,
        {
            out.push(self.lines[i].duplicate());
            i = i + 1;
            assert(out@ =~= self.lines@.subrange(start as int, i as int));
        }
        assert(out@ =~= last_n(self.lines@, depth as int));
        out
    }

    /// The `seq`s of the last `depth` buffered lines — cheap, clones no text.
    pub fn tail_seqs(&self, depth: usize) -> (t: Vec<u64>)
        ensures
            t@ == last_n(self.lines(), depth as int).map_values(|l: LogLine| l.seq),
    {
        let n = self.lines.len();
        let start = if n > depth { n - depth } else { 0 };
        let mut out: Vec<u64> = Vec::new();
        let mut i = start;
        while i < n
            invariant
                start <= i <= n,
                n == self.lines.len(),
                out@ == self.lines@.subrange(start as int, i as int).map_values(|l: LogLine| l.seq),
            decreases n - i,
        {
            out.push(self.lines[i].seq);
            i = i + 1;
            assert(out@ =~= self.lines@.subrange(start as int, i as int).map_values(|l: LogLine| l.seq));
        }
        assert(self.lines@.subrange(start as int, n as int) =~= last_n(self.lines@, depth as int));
        out
    }

    /// Clones the last `depth` buffered lines whose `seq` is at least `min_seq`.
    pub fn tail_since(&self, depth: usize, min_seq: u64) -> (t: Vec<LogLine>)
        ensures
            t@ == since(last_n(self.lines(), depth as int), min_seq),
    {
        let n = self.lines.len();
        let start = if n > depth { n - depth } else { 0 };
        let mut out: Vec<LogLine> = Vec::new();
        let mut i = start;
        while i < n
            invariant
                start <= i <= n,
                n == self.lines.len(),
                out@ == since(self.lines@.subrange(start as int, i as int), min_seq),
            decreases n - i,
        {
            proof {
                assert(self.lines@.subrange(start as int, i + 1).drop_last() =~= self.lines@.subrange(start as int, i as int));
            }
            if self.lines[i].seq >= min_seq {
                out.push(self.lines[i].duplicate());
            }
            i = i + 1;
        }
        assert(self.lines@.subrange(start as int, n as int) =~= last_n(self.lines@, depth as int));
        out
    }

    /// How many buffered lines match `query` (see [`text_matches`]).
    pub fn count_matching(&self, query: &str, case_sensitive: bool) -> (c: usize)
        ensures
            c == matching(self.lines(), query@, case_sensitive).len(),
    {
        let n = self.lines.len();
        let mut c: usize = 0;
        let mut i: usize = 0;
        while i < n
            invariant
                i <= n,
                n == self.lines.len(),
                c == matching(self.lines@.take(i as int), query@, case_sensitive).len(),
                c <= i,
            decreases n - i,
        {
            proof {
                assert(self.lines@.take(i + 1).drop_last() =~= self.lines@.take(i as int));
            }
            if text_matches(self.lines[i].text.as_str(), query, case_sensitive) {
                c = c + 1;
            }
            i = i + 1;
        }
        assert(self.lines@.take(n as int) =~= self.lines@);
        c
    }

    /// The last `depth` buffered lines matching `query`, oldest first.
    pub fn tail_matching(&self, depth: usize, query: &str, case_sensitive: bool) -> (t: Vec<LogLine>)
        ensures
            t@ == last_n(matching(self.lines(), query@, case_sensitive), depth as int),
    {
        let n = self.lines.len();
        let mut all: Vec<LogLine> = Vec::new();
        let mut i: usize = 0;
        while i < n
            invariant
                i <= n,
                n == self.lines.len(),
                all@ == matching(self.lines@.take(i as int), query@, case_sensitive),
            decreases n - i,
        {
            proof {
                assert(self.lines@.take(i + 1).drop_last() =~= self.lines@.take(i as int));
            }
            if text_matches(self.lines[i].text.as_str(), query, case_sensitive) {
                all.push(self.lines[i].duplicate());
            }
            i = i + 1;
        }
        assert(self.lines@.take(n as int) =~= self.lines@);
        let m = all.len();
        let start = if m > depth { m - depth } else { 0 };
        let mut out: Vec<LogLine> = Vec::new();
        let mut j = start;
        while j < m
            invariant
                start <= j <= m,
                m == all.len(),
                out@ == all@.subrange(start as int, j as int),
            decreases m - j,
        {
            out.push(all[j].duplicate());
            j = j + 1;
            assert(out@ =~= all@.subrange(start as int, j as int));
        }
        assert(out@ =~= last_n(all@, depth as int));
        out
    }
}


/// All the tails, one after another.
pub open spec fn concat_all(tails: Seq<Seq<LogLine>>) -> Seq<LogLine>
    decreases tails.len(),
{
    if tails.len() == 0 {
        Seq::empty()
    } else {
        concat_all(tails.drop_last()) + tails.last()
    }
}

/// The stamps of some lines.
pub open spec fn stamps(s: Seq<LogLine>) -> Seq<int> {
    s.map_values(|l: LogLine| l.seq as int)
}

/// The smallest stamp among the `depth` largest (0 when there are no more
/// than `depth` lines): lines stamped below it are not among the newest.
pub open spec fn cutoff(cands: Seq<LogLine>, depth: int) -> u64 {
    if cands.len() > depth {
        isort(stamps(cands))[cands.len() - depth] as u64
    } else {
        0
    }
}

/// Inserts `x` after every line stamped no later than it.
pub open spec fn ins_line(s: Seq<LogLine>, x: LogLine) -> Seq<LogLine>
    decreases s.len(),
{
    if s.len() == 0 {
        seq![x]
    } else if x.seq < s[0].seq {
        seq![x] + s
    } else {
        seq![s[0]] + ins_line(s.drop_first(), x)
    }
}

/// The lines ordered by stamp, lines with equal stamps keeping their order.
pub open spec fn sort_by_seq(s: Seq<LogLine>) -> Seq<LogLine>
    decreases s.len(),
{
    if s.len() == 0 {
        s
    } else {
        ins_line(sort_by_seq(s.drop_last()), s.last())
    }
}

/// The newest lines across `tails`: those stamped at least the cutoff of the
/// `depth` newest, ordered by stamp.
pub open spec fn spec_merge(tails: Seq<Seq<LogLine>>, depth: int) -> Seq<LogLine> {
    let cands = concat_all(tails);
    sort_by_seq(since(cands, cutoff(cands, depth)))
}

proof fn lemma_ins_line_split(s: Seq<LogLine>, x: LogLine, p: int)
    requires
        0 <= p <= s.len(),
        forall|j: int| 0 <= j < p ==> !(x.seq < #[trigger] s[j].seq),
        p == s.len() || x.seq < s[p].seq,
    ensures
        ins_line(s, x) == s.take(p).push(x) + s.skip(p),
    decreases s.len(),
{
    if s.len() == 0 {
        assert(ins_line(s, x) =~= s.take(p).push(x) + s.skip(p));
    } else if p == 0 {
        assert(ins_line(s, x) =~= s.take(p).push(x) + s.skip(p));
    } else {
        let t = s.drop_first();
        assert forall|j: int| 0 <= j < p - 1 implies !(x.seq < #[trigger] t[j].seq) by {
            assert(t[j] == s[j + 1]);
        }
        lemma_ins_line_split(t, x, p - 1);
        assert(ins_line(s, x) =~= s.take(p).push(x) + s.skip(p));
    }
}

/// Sorts stamps ascending.
fn sort_stamps(v: &Vec<u64>) -> (out: Vec<u64>)
    ensures
        out@.map_values(|x: u64| x as int) == isort(v@.map_values(|x: u64| x as int)),
{
    let ghost iv = v@.map_values(|x: u64| x as int);
    let mut out: Vec<u64> = Vec::new();
    let mut j: usize = 0;
    while j < v.len()
        invariant
            j <= v.len(),
            iv == v@.map_values(|x: u64| x as int),
            out@.map_values(|x: u64| x as int) == isort(iv.take(j as int)),
        decreases v.len() - j,
    {
        let x = v[j];
        let mut p: usize = 0;
        while p < out.len() && out[p] <= x
            invariant
                p <= out.len(),
                forall|q: int| 0 <= q < p ==> out@[q] <= x,
            decreases out.len() - p,
        {
            p = p + 1;
        }
        let ghost before = out@.map_values(|x: u64| x as int);
        proof {
            assert forall|q: int| 0 <= q < p implies !((x as int) < #[trigger] before[q]) by {}
            lemma_ins_split(before, x as int, p as int);
            let tj = iv.take(j + 1);
            assert(tj.drop_last() =~= iv.take(j as int));
            assert(tj.last() == x as int);
        }
        out.insert(p, x);
        assert(out@.map_values(|x: u64| x as int) =~= before.take(p as int).push(x as int) + before.skip(p as int));
        j = j + 1;
    }
    assert(iv.take(v.len() as int) =~= iv);
    out
}

/// Orders lines by stamp, keeping the order of equal stamps.
fn sort_lines(v: Vec<LogLine>) -> (out: Vec<LogLine>)
    ensures
        out@ == sort_by_seq(v@),
{
    let mut out: Vec<LogLine> = Vec::new();
    let mut j: usize = 0;
    while j < v.len()
        invariant
            j <= v.len(),
            out@ == sort_by_seq(v@.take(j as int)),
        decreases v.len() - j,
    {
        let x = v[j].duplicate();
        let mut p: usize = 0;
        while p < out.len() && out[p].seq <= x.seq
            invariant
                p <= out.len(),
                forall|q: int| 0 <= q < p ==> out@[q].seq <= x.seq,
            decreases out.len() - p,
        {
            p = p + 1;
        }
        let ghost before = out@;
        proof {
            lemma_ins_line_split(before, x, p as int);
            let tj = v@.take(j + 1);
            assert(tj.drop_last() =~= v@.take(j as int));
            assert(tj.last() == x);
        }
        out.insert(p, x);
        assert(out@ =~= before.take(p as int).push(x) + before.skip(p as int));
        j = j + 1;
    }
    assert(v@.take(v.len() as int) =~= v@);
    out
}

/// Merges tails into the `depth` newest lines (by stamp), finding the cutoff
/// from the stamps first.
fn merge_lines(tails: &Vec<Vec<LogLine>>, depth: usize) -> (out: Vec<LogLine>)
    requires
        forall|i: int| 0 <= i < tails.len() ==> #[trigger] tails[i].len() <= depth,
    ensures
        out@ == spec_merge(tails@.map_values(|t: Vec<LogLine>| t@), depth as int),
{
    let ghost ts = tails@.map_values(|t: Vec<LogLine>| t@);
    let mut cands: Vec<LogLine> = Vec::new();
    let mut i: usize = 0;
    while i < tails.len()
        invariant
            i <= tails.len(),
            ts == tails@.map_values(|t: Vec<LogLine>| t@),
            forall|i: int| 0 <= i < tails.len() ==> #[trigger] tails[i].len() <= depth,
            depth == 0 ==> cands.len() == 0,
            cands@ == concat_all(ts.take(i as int)),
        decreases tails.len() - i,
    {
        let t = &tails[i];
        let ghost base = cands@;
        let mut k: usize = 0;
        while k < t.len()
            invariant
                k <= t.len() <= depth,
                depth == 0 ==> base.len() == 0,
                cands@ == base + t@.take(k as int),
            decreases t.len() - k,
        {
            cands.push(t[k].duplicate());
            k = k + 1;
            assert(cands@ =~= base + t@.take(k as int));
        }
        proof {
            assert(t@.take(t.len() as int) =~= t@);
            assert(ts.take(i + 1).drop_last() =~= ts.take(i as int));
            assert(ts.take(i + 1).last() == t@);
        }
        i = i + 1;
    }
    assert(ts.take(tails.len() as int) =~= ts);
    let n = cands.len();
    let mut seqs: Vec<u64> = Vec::new();
    let mut q: usize = 0;
    while q < n
        invariant
            q <= n,
            n == cands.len(),
            seqs.len() == q,
            seqs@.map_values(|x: u64| x as int) == stamps(cands@).take(q as int),
        decreases n - q,
    {
        seqs.push(cands[q].seq);
        q = q + 1;
        assert(seqs@.map_values(|x: u64| x as int) =~= stamps(cands@).take(q as int));
    }
    assert(stamps(cands@).take(n as int) =~= stamps(cands@));
    let sorted = sort_stamps(&seqs);
    proof {
        crate::config::graph::lemma_isort_contains(stamps(cands@));
        assert(seqs@.map_values(|x: u64| x as int) == stamps(cands@));
        assert(sorted@.map_values(|x: u64| x as int).len() == sorted@.len());
        assert(sorted.len() == n);
    }
    assert(depth == 0 ==> n == 0);
    let cut: u64 = if n > depth {
        let c = sorted[n - depth];
        assert(sorted@.map_values(|x: u64| x as int)[n - depth] == c as int);
        c
    } else {
        0
    };
    let mut kept: Vec<LogLine> = Vec::new();
    let mut r: usize = 0;
    while r < n
        invariant
            r <= n,
            n == cands.len(),
            kept@ == since(cands@.take(r as int), cut),
        decreases n - r,
    {
        proof {
            assert(cands@.take(r + 1).drop_last() =~= cands@.take(r as int));
        }
        if cands[r].seq >= cut {
            kept.push(cands[r].duplicate());
        }
        r = r + 1;
    }
    assert(cands@.take(n as int) =~= cands@);
    sort_lines(kept)
}

/// Merges the `depth` most-recent lines (by `seq`) across `stores`, finding the
/// cutoff from cheap `seq`s first so only surviving lines are cloned per store.
pub fn merge_tail(stores: &Vec<&LogStore>, depth: usize) -> (out: Vec<LogLine>)
    ensures
        out@ == spec_merge(stores@.map_values(|s: &LogStore| last_n(s.lines(), depth as int)), depth as int),
{
    let mut tails: Vec<Vec<LogLine>> = Vec::new();
    let mut i: usize = 0;
    while i < stores.len()
        invariant
            i <= stores.len(),
            tails.len() == i,
            forall|j: int| 0 <= j < tails.len() ==> #[trigger] tails[j].len() <= depth,
            tails@.map_values(|t: Vec<LogLine>| t@) == stores@.map_values(|s: &LogStore| last_n(s.lines(), depth as int)).take(i as int),
        decreases stores.len() - i,
    {
        let t = stores[i].tail(depth);
        assert(stores@.map_values(|s: &LogStore| last_n(s.lines(), depth as int))[i as int] == t@);
        assert(t.len() <= depth);
        tails.push(t);
        assert(tails@.map_values(|t: Vec<LogLine>| t@) =~= stores@.map_values(|s: &LogStore| last_n(s.lines(), depth as int)).take(i + 1));
        i = i + 1;
    }
    assert(stores@.map_values(|s: &LogStore| last_n(s.lines(), depth as int)).take(stores.len() as int)
        =~= stores@.map_values(|s: &LogStore| last_n(s.lines(), depth as int)));
    merge_lines(&tails, depth)
}

/// Merges the `depth` most-recent lines matching `query` (by `seq`) across
/// `stores`.
pub fn merge_tail_matching(stores: &Vec<&LogStore>, depth: usize, query: &str, case_sensitive: bool) -> (out: Vec<LogLine>)
    ensures
        out@ == spec_merge(
            stores@.map_values(|s: &LogStore| last_n(matching(s.lines(), query@, case_sensitive), depth as int)),
            depth as int,
        ),
{
    let ghost want = stores@.map_values(|s: &LogStore| last_n(matching(s.lines(), query@, case_sensitive), depth as int));
    let mut tails: Vec<Vec<LogLine>> = Vec::new();
    let mut i: usize = 0;
    while i < stores.len()
        invariant
            i <= stores.len(),
            want == stores@.map_values(|s: &LogStore| last_n(matching(s.lines(), query@, case_sensitive), depth as int)),
            tails.len() == i,
            forall|j: int| 0 <= j < tails.len() ==> #[trigger] tails[j].len() <= depth,
            tails@.map_values(|t: Vec<LogLine>| t@) == want.take(i as int),
        decreases stores.len() - i,
    {
        let t = stores[i].tail_matching(depth, query, case_sensitive);
        assert(want[i as int] == t@);
        assert(t.len() <= depth);
        tails.push(t);
        assert(tails@.map_values(|t: Vec<LogLine>| t@) =~= want.take(i + 1));
        i = i + 1;
    }
    assert(want.take(stores.len() as int) =~= want);
    merge_lines(&tails, depth)
}


/// Lines in non-decreasing stamp order.
pub open spec fn by_seq(s: Seq<LogLine>) -> bool {
    forall|i: int, j: int| 0 <= i < j < s.len() ==> #[trigger] s[i].seq <= #[trigger] s[j].seq
}

proof fn lemma_ins_line_elems(s: Seq<LogLine>, x: LogLine)
    ensures
        ins_line(s, x).len() == s.len() + 1,
        forall|i: int| 0 <= i < ins_line(s, x).len() ==> #[trigger] ins_line(s, x)[i] == x || s.contains(ins_line(s, x)[i]),
    decreases s.len(),
{
    if s.len() > 0 && !(x.seq < s[0].seq) {
        let t = s.drop_first();
        lemma_ins_line_elems(t, x);
        assert forall|i: int| 0 <= i < ins_line(s, x).len() implies #[trigger] ins_line(s, x)[i] == x || s.contains(ins_line(s, x)[i]) by {
            if i == 0 {
                assert(s.contains(s[0]));
            } else {
                let y = ins_line(t, x)[i - 1];
                assert(ins_line(s, x)[i] == y);
                if y != x {
                    let q = t.index_of(y);
                    assert(s[q + 1] == y);
                }
            }
        }
    } else if s.len() > 0 {
        assert forall|i: int| 0 <= i < ins_line(s, x).len() implies #[trigger] ins_line(s, x)[i] == x || s.contains(ins_line(s, x)[i]) by {
            if i > 0 {
                assert(ins_line(s, x)[i] == s[i - 1]);
            }
        }
    }
}

proof fn lemma_ins_line_sorted(s: Seq<LogLine>, x: LogLine)
    requires
        by_seq(s),
    ensures
        by_seq(ins_line(s, x)),
    decreases s.len(),
{
    if s.len() > 0 {
        if x.seq < s[0].seq {
            let r = seq![x] + s;
            assert forall|i: int, j: int| 0 <= i < j < r.len() implies #[trigger] r[i].seq <= #[trigger] r[j].seq by {
                if i == 0 {
                    assert(s[0].seq <= s[j - 1].seq);
                }
            }
        } else {
            let t = s.drop_first();
            lemma_ins_line_sorted(t, x);
            lemma_ins_line_elems(t, x);
            let r = ins_line(s, x);
            let it = ins_line(t, x);
            assert forall|i: int, j: int| 0 <= i < j < r.len() implies #[trigger] r[i].seq <= #[trigger] r[j].seq by {
                if i == 0 {
                    let y = it[j - 1];
                    if y != x {
                        let q = t.index_of(y);
                        assert(s[q + 1] == y);
                    }
                } else {
                    assert(r[i] == it[i - 1]);
                    assert(r[j] == it[j - 1]);
                }
            }
        }
    }
}

/// Sorting by stamp yields lines in stamp order.
pub proof fn lemma_sort_by_seq_sorted(s: Seq<LogLine>)
    ensures
        by_seq(sort_by_seq(s)),
    decreases s.len(),
{
    if s.len() > 0 {
        lemma_sort_by_seq_sorted(s.drop_last());
        lemma_ins_line_sorted(sort_by_seq(s.drop_last()), s.last());
    }
}

/// A merge across stores comes out in stamp order.
pub proof fn lemma_merge_in_order(tails: Seq<Seq<LogLine>>, depth: int)
    ensures
        by_seq(spec_merge(tails, depth)),
{
    let cands = concat_all(tails);
    lemma_sort_by_seq_sorted(since(cands, cutoff(cands, depth)));
}

/// A store never holds more than [`MAX_LINES`] lines, and pushing counts every line.
pub proof fn lemma_push_caps(lines: Seq<LogLine>, line: LogLine)
    requires
        lines.len() <= MAX_LINES,
    ensures
        capped(lines.push(line)).len() <= MAX_LINES,
        capped(lines.push(line)).last() == line,
{
}

/// How many elements of `s` satisfy `p`.
pub open spec fn count_where<A>(s: Seq<A>, p: spec_fn(A) -> bool) -> nat
    decreases s.len(),
{
    if s.len() == 0 {
        0
    } else {
        (if p(s[0]) {
            1nat
        } else {
            0nat
        }) + count_where(s.drop_first(), p)
    }
}

/// Stamps at least `c`.
pub open spec fn at_least(c: int) -> spec_fn(int) -> bool {
    |v: int| v >= c
}

/// The stamp `v`.
pub open spec fn equal_to(v: int) -> spec_fn(int) -> bool {
    |x: int| x == v
}

/// Lines stamped `v`.
pub open spec fn stamped(v: int) -> spec_fn(LogLine) -> bool {
    |l: LogLine| l.seq == v
}

/// The line `x` itself.
pub open spec fn same_line(x: LogLine) -> spec_fn(LogLine) -> bool {
    |l: LogLine| l == x
}

proof fn lemma_count_concat<A>(a: Seq<A>, b: Seq<A>, p: spec_fn(A) -> bool)
    ensures
        count_where(a + b, p) == count_where(a, p) + count_where(b, p),
    decreases a.len(),
{
    if a.len() == 0 {
        assert(a + b =~= b);
    } else {
        assert((a + b).drop_first() =~= a.drop_first() + b);
        assert((a + b)[0] == a[0]);
        lemma_count_concat(a.drop_first(), b, p);
    }
}

proof fn lemma_count_push<A>(a: Seq<A>, y: A, p: spec_fn(A) -> bool)
    ensures
        count_where(a.push(y), p) == count_where(a, p) + (if p(y) {
            1nat
        } else {
            0nat
        }),
{
    lemma_count_concat(a, seq![y], p);
    assert(a.push(y) =~= a + seq![y]);
    assert(seq![y].drop_first() =~= Seq::<A>::empty());
    assert(seq![y][0] == y);
    assert(count_where(Seq::<A>::empty(), p) == 0);
    assert(count_where(seq![y], p) == (if p(y) {
        1nat
    } else {
        0nat
    }) + count_where(seq![y].drop_first(), p));
}

proof fn lemma_count_bounds<A>(s: Seq<A>, p: spec_fn(A) -> bool)
    ensures
        count_where(s, p) <= s.len(),
        (forall|i: int| 0 <= i < s.len() ==> p(#[trigger] s[i])) ==> count_where(s, p) == s.len(),
        (forall|i: int| 0 <= i < s.len() ==> !p(#[trigger] s[i])) ==> count_where(s, p) == 0,
        (exists|i: int| 0 <= i < s.len() && p(#[trigger] s[i])) ==> count_where(s, p) > 0,
    decreases s.len(),
{
    if s.len() > 0 {
        let t = s.drop_first();
        lemma_count_bounds(t, p);
        assert forall|i: int| 0 <= i < t.len() implies t[i] == s[i + 1] by {}
        if exists|i: int| 0 <= i < s.len() && p(#[trigger] s[i]) {
            let i = choose|i: int| 0 <= i < s.len() && p(#[trigger] s[i]);
            if i > 0 {
                assert(p(t[i - 1]));
            }
        }
    }
}

/// No duplicates: each value counted at most once.
proof fn lemma_count_unique(s: Seq<int>, v: int)
    requires
        s.no_duplicates(),
    ensures
        count_where(s, equal_to(v)) <= 1,
    decreases s.len(),
{
    if s.len() > 0 {
        let t = s.drop_first();
        assert(t.no_duplicates()) by {
            assert forall|i: int, j: int| 0 <= i < t.len() && 0 <= j < t.len() && i != j implies t[i] != t[j] by {
                assert(t[i] == s[i + 1] && t[j] == s[j + 1]);
            }
        }
        lemma_count_unique(t, v);
        if s[0] == v {
            assert forall|i: int| 0 <= i < t.len() implies !equal_to(v)(#[trigger] t[i]) by {
                assert(t[i] == s[i + 1]);
            }
            lemma_count_bounds(t, equal_to(v));
        }
    }
}

proof fn lemma_ins_count(s: Seq<int>, x: int, p: spec_fn(int) -> bool)
    ensures
        count_where(ins(s, x), p) == count_where(s, p) + (if p(x) {
            1nat
        } else {
            0nat
        }),
    decreases s.len(),
{
    if s.len() == 0 {
        assert(ins(s, x) =~= seq![x]);
        lemma_count_push(s, x, p);
        assert(s.push(x) =~= seq![x]);
    } else if x < s[0] {
        assert((seq![x] + s).drop_first() =~= s);
        assert((seq![x] + s)[0] == x);
    } else {
        let r = seq![s[0]] + ins(s.drop_first(), x);
        assert(r.drop_first() =~= ins(s.drop_first(), x));
        assert(r[0] == s[0]);
        lemma_ins_count(s.drop_first(), x, p);
    }
}

proof fn lemma_isort_count(s: Seq<int>, p: spec_fn(int) -> bool)
    ensures
        count_where(isort(s), p) == count_where(s, p),
    decreases s.len(),
{
    if s.len() > 0 {
        lemma_isort_count(s.drop_last(), p);
        lemma_ins_count(isort(s.drop_last()), s.last(), p);
        lemma_count_push(s.drop_last(), s.last(), p);
        assert(s.drop_last().push(s.last()) =~= s);
    }
}

proof fn lemma_ins_sorted(s: Seq<int>, x: int)
    requires
        forall|i: int, j: int| 0 <= i < j < s.len() ==> #[trigger] s[i] <= #[trigger] s[j],
    ensures
        forall|i: int, j: int| 0 <= i < j < ins(s, x).len() ==> #[trigger] ins(s, x)[i] <= #[trigger] ins(s, x)[j],
    decreases s.len(),
{
    if s.len() > 0 {
        if x < s[0] {
            let r = seq![x] + s;
            assert forall|i: int, j: int| 0 <= i < j < r.len() implies #[trigger] r[i] <= #[trigger] r[j] by {
                if i == 0 {
                    assert(s[0] <= s[j - 1]);
                }
            }
        } else {
            let t = s.drop_first();
            assert forall|i: int, j: int| 0 <= i < j < t.len() implies #[trigger] t[i] <= #[trigger] t[j] by {
                assert(t[i] == s[i + 1] && t[j] == s[j + 1]);
            }
            lemma_ins_sorted(t, x);
            let it = ins(t, x);
            let r = seq![s[0]] + it;
            assert forall|q: int| 0 <= q < it.len() implies s[0] <= #[trigger] it[q] by {
                lemma_ins_count(t, x, equal_to(it[q]));
                lemma_count_bounds(it, equal_to(it[q]));
                assert(equal_to(it[q])(it[q]));
                if it[q] != x {
                    lemma_count_bounds(t, equal_to(it[q]));
                    let k = choose|k: int| 0 <= k < t.len() && equal_to(it[q])(#[trigger] t[k]);
                    assert(s[0] <= s[k + 1]);
                }
            }
            assert forall|i: int, j: int| 0 <= i < j < r.len() implies #[trigger] r[i] <= #[trigger] r[j] by {
                if i == 0 {
                    assert(r[j] == it[j - 1]);
                } else {
                    assert(r[i] == it[i - 1] && r[j] == it[j - 1]);
                }
            }
        }
    }
}

proof fn lemma_isort_sorted(s: Seq<int>)
    ensures
        forall|i: int, j: int| 0 <= i < j < isort(s).len() ==> #[trigger] isort(s)[i] <= #[trigger] isort(s)[j],
    decreases s.len(),
{
    if s.len() > 0 {
        lemma_isort_sorted(s.drop_last());
        lemma_ins_sorted(isort(s.drop_last()), s.last());
    }
}

proof fn lemma_ins_line_count(s: Seq<LogLine>, x: LogLine, p: spec_fn(LogLine) -> bool)
    ensures
        count_where(ins_line(s, x), p) == count_where(s, p) + (if p(x) {
            1nat
        } else {
            0nat
        }),
    decreases s.len(),
{
    if s.len() == 0 {
        assert(ins_line(s, x) =~= seq![x]);
        lemma_count_push(s, x, p);
        assert(s.push(x) =~= seq![x]);
    } else if x.seq < s[0].seq {
        assert((seq![x] + s).drop_first() =~= s);
        assert((seq![x] + s)[0] == x);
    } else {
        let r = seq![s[0]] + ins_line(s.drop_first(), x);
        assert(r.drop_first() =~= ins_line(s.drop_first(), x));
        assert(r[0] == s[0]);
        lemma_ins_line_count(s.drop_first(), x, p);
    }
}

proof fn lemma_sort_count(s: Seq<LogLine>, p: spec_fn(LogLine) -> bool)
    ensures
        count_where(sort_by_seq(s), p) == count_where(s, p),
    decreases s.len(),
{
    if s.len() > 0 {
        lemma_sort_count(s.drop_last(), p);
        lemma_ins_line_count(sort_by_seq(s.drop_last()), s.last(), p);
        lemma_count_push(s.drop_last(), s.last(), p);
        assert(s.drop_last().push(s.last()) =~= s);
    }
}

/// The lines kept by `since`: exactly those of `s` stamped at least `min`.
proof fn lemma_since_count(s: Seq<LogLine>, min: u64, p: spec_fn(LogLine) -> bool)
    ensures
        count_where(since(s, min), p) == count_where(s, |l: LogLine| p(l) && l.seq >= min),
        since(s, min).len() == count_where(stamps(s), at_least(min as int)),
    decreases s.len(),
{
    if s.len() > 0 {
        lemma_since_count(s.drop_last(), min, p);
        lemma_count_push(s.drop_last(), s.last(), |l: LogLine| p(l) && l.seq >= min);
        assert(s.drop_last().push(s.last()) =~= s);
        if s.last().seq >= min {
            lemma_count_push(since(s.drop_last(), min), s.last(), p);
        }
        assert(stamps(s) =~= stamps(s.drop_last()).push(s.last().seq as int));
        lemma_count_push(stamps(s.drop_last()), s.last().seq as int, at_least(min as int));
    } else {
        assert(stamps(s) =~= Seq::<int>::empty());
    }
}

/// A tail merge keeps the newest lines: when every candidate line carries its
/// own stamp (one shared clock), it returns the `min(depth, total)` lines with
/// the largest stamps, each once, in strictly increasing stamp order; every
/// candidate left out is older than every line kept. (A zero depth is asked
/// only of empty tails, as [`merge_tail`]'s are: each holds at most `depth`.)
pub proof fn lemma_merge_newest(tails: Seq<Seq<LogLine>>, depth: int)
    requires
        stamps(concat_all(tails)).no_duplicates(),
        depth >= 0,
        depth > 0 || concat_all(tails).len() == 0,
    ensures
        spec_merge(tails, depth).len() == (if concat_all(tails).len() < depth {
            concat_all(tails).len() as int
        } else {
            depth
        }),
        forall|i: int, j: int|
            0 <= i < j < spec_merge(tails, depth).len() ==> #[trigger] spec_merge(tails, depth)[i].seq
                < #[trigger] spec_merge(tails, depth)[j].seq,
        forall|i: int| 0 <= i < spec_merge(tails, depth).len() ==> concat_all(tails).contains(#[trigger] spec_merge(tails, depth)[i]),
        forall|x: LogLine, i: int|
            #[trigger] concat_all(tails).contains(x) && !spec_merge(tails, depth).contains(x) && 0 <= i < spec_merge(tails, depth).len()
                ==> x.seq < #[trigger] spec_merge(tails, depth)[i].seq,
{
    let cands = concat_all(tails);
    let st = stamps(cands);
    let n = cands.len() as int;
    let cut = cutoff(cands, depth);
    let kept = since(cands, cut);
    let out = spec_merge(tails, depth);
    assert(out == sort_by_seq(kept));
    lemma_sort_by_seq_sorted(kept);
    // Length.
    lemma_since_count(cands, cut, same_line(cands[0]));
    lemma_sort_count(kept, |l: LogLine| true);
    lemma_count_bounds(kept, |l: LogLine| true);
    lemma_count_bounds(out, |l: LogLine| true);
    assert(out.len() == kept.len()) by {
        assert forall|i: int| 0 <= i < kept.len() implies (|l: LogLine| true)(#[trigger] kept[i]) by {}
        assert forall|i: int| 0 <= i < out.len() implies (|l: LogLine| true)(#[trigger] out[i]) by {}
    }
    if n > depth {
        let u = isort(st);
        lemma_isort_sorted(st);
        lemma_isort_contains(st);
        assert(st.len() == n);
        assert(u.len() == n);
        assert(depth > 0);
        assert(0 <= n - depth < n);
        assert(cut as int == u[n - depth]) by {
            assert(u.contains(u[n - depth]));
            assert(st.contains(u[n - depth]));
            let k = st.index_of(u[n - depth]);
            assert(st[k] == cands[k].seq as int);
        }
        lemma_isort_count(st, at_least(cut as int));
        // u is strictly increasing: sorted, and no stamp twice.
        assert forall|i: int, j: int| 0 <= i < j < u.len() implies #[trigger] u[i] < #[trigger] u[j] by {
            if u[i] == u[j] {
                lemma_count_unique(st, u[i]);
                lemma_isort_count(st, equal_to(u[i]));
                let a = u.take(j);
                let b = u.skip(j);
                assert(u =~= a + b);
                lemma_count_concat(a, b, equal_to(u[i]));
                assert(a[i] == u[i]);
                assert(b[0] == u[j]);
                lemma_count_bounds(a, equal_to(u[i]));
                lemma_count_bounds(b, equal_to(u[i]));
            }
        }
        let a = u.take(n - depth);
        let b = u.skip(n - depth);
        assert(u =~= a + b);
        lemma_count_concat(a, b, at_least(cut as int));
        assert forall|i: int| 0 <= i < a.len() implies !at_least(cut as int)(#[trigger] a[i]) by {
            assert(a[i] == u[i]);
            assert(u[i] < u[n - depth]);
        }
        assert forall|i: int| 0 <= i < b.len() implies at_least(cut as int)(#[trigger] b[i]) by {
            assert(b[i] == u[n - depth + i]);
            if i > 0 {
                assert(u[n - depth] < u[n - depth + i]);
            }
        }
        lemma_count_bounds(a, at_least(cut as int));
        lemma_count_bounds(b, at_least(cut as int));
    } else {
        assert(cut == 0);
        assert forall|i: int| 0 <= i < st.len() implies at_least(0)(#[trigger] st[i]) by {
            assert(st[i] == cands[i].seq as int);
        }
        lemma_count_bounds(st, at_least(0));
    }
    // Membership: the sorted output holds exactly the kept lines.
    assert forall|x: LogLine| #[trigger] out.contains(x) <==> (cands.contains(x) && x.seq >= cut) by {
        lemma_sort_count(kept, same_line(x));
        lemma_since_count(cands, cut, same_line(x));
        lemma_count_bounds(out, same_line(x));
        lemma_count_bounds(cands, |l: LogLine| same_line(x)(l) && l.seq >= cut);
        if out.contains(x) {
            let i = out.index_of(x);
            assert(same_line(x)(out[i]));
            let k = choose|k: int| 0 <= k < cands.len() && (|l: LogLine| same_line(x)(l) && l.seq >= cut)(#[trigger] cands[k]);
            assert(cands[k] == x);
        }
        if cands.contains(x) && x.seq >= cut {
            let k = cands.index_of(x);
            assert((|l: LogLine| same_line(x)(l) && l.seq >= cut)(cands[k]));
            let i = choose|i: int| 0 <= i < out.len() && same_line(x)(#[trigger] out[i]);
            assert(out[i] == x);
        }
    }
    assert forall|i: int| 0 <= i < out.len() implies cands.contains(#[trigger] out[i]) by {
        assert(out.contains(out[i]));
    }
    // Strict order: no two kept lines share a stamp.
    assert forall|i: int, j: int| 0 <= i < j < out.len() implies #[trigger] out[i].seq < #[trigger] out[j].seq by {
        assert(out[i].seq <= out[j].seq);
        if out[i].seq == out[j].seq {
            let v = out[i].seq as int;
            assert(out.contains(out[i]) && out.contains(out[j]));
            let ki = cands.index_of(out[i]);
            let kj = cands.index_of(out[j]);
            assert(st[ki] == v && st[kj] == v);
            if ki == kj {
                // Same candidate twice in the output: count it.
                lemma_sort_count(kept, same_line(out[i]));
                lemma_since_count(cands, cut, same_line(out[i]));
                lemma_count_unique(st, v);
                lemma_line_count_le_stamp(cands, out[i]);
                let a = out.take(j);
                let b = out.skip(j);
                assert(out =~= a + b);
                lemma_count_concat(a, b, same_line(out[i]));
                assert(a[i] == out[i]);
                assert(b[0] == out[j]);
                lemma_count_bounds(a, same_line(out[i]));
                lemma_count_bounds(b, same_line(out[i]));
                lemma_count_and_le(cands, same_line(out[i]), cut);
            } else {
                assert(st.no_duplicates());
            }
        }
    }
    // Newest: a candidate left out is older than every line kept.
    assert forall|x: LogLine, i: int|
        #[trigger] cands.contains(x) && !out.contains(x) && 0 <= i < out.len() implies x.seq < #[trigger] out[i].seq by {
        assert(out.contains(out[i]));
    }
}

/// A line is in the joined tails exactly when it is in one of them.
proof fn lemma_concat_member(ts: Seq<Seq<LogLine>>, x: LogLine)
    ensures
        concat_all(ts).contains(x) <==> exists|i: int| 0 <= i < ts.len() && #[trigger] ts[i].contains(x),
    decreases ts.len(),
{
    if ts.len() > 0 {
        let dl = ts.drop_last();
        lemma_concat_member(dl, x);
        let a = concat_all(dl);
        let b = ts.last();
        if (a + b).contains(x) {
            let q = (a + b).index_of(x);
            if q < a.len() {
                assert(a[q] == x);
                let i = choose|i: int| 0 <= i < dl.len() && #[trigger] dl[i].contains(x);
                assert(ts[i] == dl[i]);
            } else {
                assert(b[q - a.len()] == x);
                assert(ts[ts.len() - 1].contains(x));
            }
        }
        if exists|i: int| 0 <= i < ts.len() && #[trigger] ts[i].contains(x) {
            let i = choose|i: int| 0 <= i < ts.len() && #[trigger] ts[i].contains(x);
            if i < ts.len() - 1 {
                assert(dl[i] == ts[i]);
                let q = a.index_of(x);
                assert((a + b)[q] == x);
            } else {
                let q = b.index_of(x);
                assert((a + b)[a.len() + q] == x);
            }
        }
    }
}

/// The joined tails hold each line stamped `v` at most as often as the joined
/// stores, and are at least as long as any one tail.
proof fn lemma_tails_count(all: Seq<Seq<LogLine>>, depth: int, v: int)
    requires
        depth >= 0,
    ensures
        count_where(stamps(concat_all(all.map_values(|s: Seq<LogLine>| last_n(s, depth)))), equal_to(v))
            <= count_where(stamps(concat_all(all)), equal_to(v)),
        concat_all(all.map_values(|s: Seq<LogLine>| last_n(s, depth))).len() <= concat_all(all).len(),
        forall|i: int| 0 <= i < all.len() ==> #[trigger] last_n(all[i], depth).len()
            <= concat_all(all.map_values(|s: Seq<LogLine>| last_n(s, depth))).len(),
    decreases all.len(),
{
    let ts = all.map_values(|s: Seq<LogLine>| last_n(s, depth));
    if all.len() > 0 {
        let dl = all.drop_last();
        lemma_tails_count(dl, depth, v);
        assert(ts.drop_last() =~= dl.map_values(|s: Seq<LogLine>| last_n(s, depth)));
        let s = all.last();
        let t = last_n(s, depth);
        assert(ts.last() == t);
        let k = s.len() - t.len();
        assert(s =~= s.take(k) + t);
        assert(stamps(s) =~= stamps(s.take(k)) + stamps(t));
        lemma_count_concat(stamps(s.take(k)), stamps(t), equal_to(v));
        let ca = concat_all(dl);
        let cb = concat_all(dl.map_values(|s: Seq<LogLine>| last_n(s, depth)));
        assert(stamps(ca + s) =~= stamps(ca) + stamps(s));
        assert(stamps(cb + t) =~= stamps(cb) + stamps(t));
        lemma_count_concat(stamps(ca), stamps(s), equal_to(v));
        lemma_count_concat(stamps(cb), stamps(t), equal_to(v));
        assert forall|i: int| 0 <= i < all.len() implies #[trigger] last_n(all[i], depth).len() <= concat_all(ts).len() by {
            if i < all.len() - 1 {
                assert(all[i] == dl[i]);
            }
        }
    } else {
        assert(stamps(Seq::<LogLine>::empty()) =~= Seq::<int>::empty());
    }
}

/// Distinct values are what a count of at most one for each value means.
proof fn lemma_no_dup_from_count(s: Seq<int>)
    requires
        forall|v: int| #[trigger] count_where(s, equal_to(v)) <= 1,
    ensures
        s.no_duplicates(),
{
    assert forall|i: int, j: int| 0 <= i < s.len() && 0 <= j < s.len() && i != j implies s[i] != s[j] by {
        if s[i] == s[j] {
            let (lo, hi) = if i < j { (i, j) } else { (j, i) };
            let a = s.take(hi);
            let b = s.skip(hi);
            assert(s =~= a + b);
            lemma_count_concat(a, b, equal_to(s[i]));
            assert(a[lo] == s[i]);
            assert(b[0] == s[i]);
            lemma_count_bounds(a, equal_to(s[i]));
            lemma_count_bounds(b, equal_to(s[i]));
            assert(count_where(s, equal_to(s[i])) <= 1);
        }
    }
}

/// Positions in `out` of the tail's lines climb at least one per line past the
/// first position when `out` starts below the tail.
proof fn lemma_tail_positions(out: Seq<LogLine>, t: Seq<LogLine>, j: int)
    requires
        0 <= j < t.len(),
        forall|a: int, b: int| 0 <= a < b < out.len() ==> #[trigger] out[a].seq < #[trigger] out[b].seq,
        forall|a: int, b: int| 0 <= a < b < t.len() ==> #[trigger] t[a].seq < #[trigger] t[b].seq,
        forall|a: int| 0 <= a < t.len() ==> out.contains(#[trigger] t[a]),
        out.len() > 0 && out[0].seq < t[0].seq,
    ensures
        out.index_of(t[j]) >= j + 1,
    decreases j,
{
    assert(out.contains(t[j]));
    let q = out.index_of(t[j]);
    if j == 0 {
        if q == 0 {
            assert(out[0] == t[0]);
        }
    } else {
        lemma_tail_positions(out, t, j - 1);
        let p = out.index_of(t[j - 1]);
        assert(out.contains(t[j - 1]));
        assert(t[j - 1].seq < t[j].seq);
        if q <= p {
            if q < p {
                assert(out[q].seq < out[p].seq);
            }
        }
    }
}

/// A tail merge across stores keeps the newest of all their buffered lines:
/// when each store's lines are in stamp order and every line carries its own
/// stamp (one shared clock), merging the stores' last `depth` lines returns the
/// `min(depth, total)` lines with the largest stamps, each once, in strictly
/// increasing stamp order; every buffered line left out is older than every
/// line returned.
pub proof fn lemma_merge_all_newest(all: Seq<Seq<LogLine>>, depth: int)
    requires
        depth >= 0,
        forall|i: int, a: int, b: int|
            0 <= i < all.len() && 0 <= a < b < all[i].len() ==> #[trigger] all[i][a].seq < #[trigger] all[i][b].seq,
        stamps(concat_all(all)).no_duplicates(),
    ensures
        ({
            let out = spec_merge(all.map_values(|s: Seq<LogLine>| last_n(s, depth)), depth);
            let every = concat_all(all);
            &&& out.len() == (if every.len() < depth {
                every.len() as int
            } else {
                depth
            })
            &&& forall|i: int, j: int| 0 <= i < j < out.len() ==> #[trigger] out[i].seq < #[trigger] out[j].seq
            &&& forall|i: int| 0 <= i < out.len() ==> every.contains(#[trigger] out[i])
            &&& forall|x: LogLine, i: int|
                #[trigger] every.contains(x) && !out.contains(x) && 0 <= i < out.len() ==> x.seq < #[trigger] out[i].seq
        }),
{
    let ts = all.map_values(|s: Seq<LogLine>| last_n(s, depth));
    let every = concat_all(all);
    let cands = concat_all(ts);
    let out = spec_merge(ts, depth);
    // The candidates keep distinct stamps.
    assert forall|v: int| #[trigger] count_where(stamps(cands), equal_to(v)) <= 1 by {
        lemma_tails_count(all, depth, v);
        lemma_count_unique(stamps(every), v);
    }
    lemma_no_dup_from_count(stamps(cands));
    lemma_tails_count(all, depth, 0);
    if depth == 0 && cands.len() > 0 {
        let x = cands[0];
        assert(cands.contains(x));
        lemma_concat_member(ts, x);
        let i = choose|i: int| 0 <= i < ts.len() && #[trigger] ts[i].contains(x);
        assert(ts[i] == last_n(all[i], 0));
        assert(last_n(all[i], 0).len() == 0);
    }
    lemma_merge_newest(ts, depth);
    // Every candidate is a buffered line.
    assert forall|x: LogLine| #[trigger] cands.contains(x) implies every.contains(x) by {
        lemma_concat_member(ts, x);
        lemma_concat_member(all, x);
        let i = choose|i: int| 0 <= i < ts.len() && #[trigger] ts[i].contains(x);
        assert(ts[i] == last_n(all[i], depth));
        let q = ts[i].index_of(x);
        if all[i].len() > depth {
            assert(ts[i][q] == all[i][all[i].len() - depth + q]);
        }
        assert(all[i].contains(x));
    }
    assert forall|i: int| 0 <= i < out.len() implies every.contains(#[trigger] out[i]) by {
        assert(cands.contains(out[i]));
    }
    // Length: short of `depth`, every store was taken whole.
    if cands.len() < depth {
        assert forall|i: int| 0 <= i < all.len() implies #[trigger] ts[i] == all[i] by {
            assert(ts[i] == last_n(all[i], depth));
            assert(last_n(all[i], depth).len() <= cands.len());
        }
        assert(ts =~= all);
    }
    // Newest: a line left out is older than every line returned.
    assert forall|x: LogLine, k: int|
        #[trigger] every.contains(x) && !out.contains(x) && 0 <= k < out.len() implies x.seq < #[trigger] out[k].seq by {
        if !cands.contains(x) {
            lemma_concat_member(all, x);
            lemma_concat_member(ts, x);
            let i = choose|i: int| 0 <= i < all.len() && #[trigger] all[i].contains(x);
            let s = all[i];
            let p = s.index_of(x);
            assert(ts[i] == last_n(s, depth));
            if s.len() <= depth {
                assert(ts[i].contains(x));
            }
            let t = last_n(s, depth);
            let base = s.len() - depth;
            if p >= base {
                assert(t[p - base] == x);
                assert(ts[i].contains(x));
            }
            assert(t.len() == depth);
            assert forall|a: int, b: int| 0 <= a < b < t.len() implies #[trigger] t[a].seq < #[trigger] t[b].seq by {
                assert(t[a] == s[base + a] && t[b] == s[base + b]);
            }
            assert forall|a: int| 0 <= a < t.len() implies cands.contains(#[trigger] t[a]) by {
                assert(ts[i].contains(t[a]));
                lemma_concat_member(ts, t[a]);
            }
            assert(t[0] == s[base]);
            assert(x.seq < t[0].seq);
            if out[0].seq < t[0].seq {
                assert forall|a: int| 0 <= a < t.len() implies out.contains(#[trigger] t[a]) by {
                    assert(cands.contains(t[a]));
                    if !out.contains(t[a]) {
                        if a > 0 {
                            assert(t[0].seq < t[a].seq);
                        }
                    }
                }
                lemma_tail_positions(out, t, depth - 1);
                assert(out.contains(t[depth - 1]));
            }
            if k > 0 {
                assert(out[0].seq < out[k].seq);
            }
        }
    }
}

/// The buffered lines of each store.
pub open spec fn store_lines(stores: Seq<&LogStore>) -> Seq<Seq<LogLine>> {
    stores.map_values(|s: &LogStore| s.lines())
}

/// [`merge_tail`] returns the newest buffered lines of its stores (see
/// [`lemma_merge_all_newest`]): when each store's lines are in stamp order and
/// no stamp repeats, the `min(depth, total)` newest, each once, in strictly
/// increasing stamp order, every other buffered line older.
pub proof fn lemma_merge_tail_newest(stores: Seq<&LogStore>, depth: int)
    requires
        depth >= 0,
        forall|i: int, a: int, b: int|
            0 <= i < stores.len() && 0 <= a < b < stores[i].lines().len() ==> #[trigger] stores[i].lines()[a].seq
                < #[trigger] stores[i].lines()[b].seq,
        stamps(concat_all(store_lines(stores))).no_duplicates(),
    ensures
        ({
            let out = spec_merge(stores.map_values(|s: &LogStore| last_n(s.lines(), depth)), depth);
            let every = concat_all(store_lines(stores));
            &&& out.len() == (if every.len() < depth {
                every.len() as int
            } else {
                depth
            })
            &&& forall|i: int, j: int| 0 <= i < j < out.len() ==> #[trigger] out[i].seq < #[trigger] out[j].seq
            &&& forall|i: int| 0 <= i < out.len() ==> every.contains(#[trigger] out[i])
            &&& forall|x: LogLine, i: int|
                #[trigger] every.contains(x) && !out.contains(x) && 0 <= i < out.len() ==> x.seq < #[trigger] out[i].seq
        }),
{
    let all = store_lines(stores);
    assert forall|i: int, a: int, b: int|
        0 <= i < all.len() && 0 <= a < b < all[i].len() implies #[trigger] all[i][a].seq < #[trigger] all[i][b].seq by {
        assert(all[i] == stores[i].lines());
    }
    lemma_merge_all_newest(all, depth);
    assert(stores.map_values(|s: &LogStore| last_n(s.lines(), depth)) =~= all.map_values(
        |s: Seq<LogLine>| last_n(s, depth),
    ));
}

/// Lines equal to `x` are no more than the lines stamped like it.
proof fn lemma_line_count_le_stamp(s: Seq<LogLine>, x: LogLine)
    ensures
        count_where(s, same_line(x)) <= count_where(stamps(s), equal_to(x.seq as int)),
    decreases s.len(),
{
    if s.len() > 0 {
        lemma_line_count_le_stamp(s.drop_first(), x);
        assert(stamps(s).drop_first() =~= stamps(s.drop_first()));
        assert(stamps(s)[0] == s[0].seq as int);
    } else {
        assert(stamps(s) =~= Seq::<int>::empty());
    }
}

/// Counting with an extra condition counts no more.
proof fn lemma_count_and_le(s: Seq<LogLine>, p: spec_fn(LogLine) -> bool, min: u64)
    ensures
        count_where(s, |l: LogLine| p(l) && l.seq >= min) <= count_where(s, p),
    decreases s.len(),
{
    if s.len() > 0 {
        lemma_count_and_le(s.drop_first(), p, min);
    }
}

} // verus!
