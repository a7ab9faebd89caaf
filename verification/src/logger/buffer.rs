//! Line buffering for raw output: bytes are held until a newline completes a
//! line, or flushed whole once the held bytes exceed a bound.
use vstd::prelude::*;

verus! {

/// Maximum bytes buffered before a forced flush, bounding memory for sources
/// that emit large output without newlines (1 MiB).
pub const MAX_LINE_BUFFER: usize = 1_048_576;

/// The newline byte.
pub open spec fn nl() -> u8 {
    10
}

/// The index of the first newline in `s`, or its length when there is none.
pub open spec fn first_nl(s: Seq<u8>) -> int
    decreases s.len(),
{
    if s.len() == 0 {
        0
    } else if s[0] == nl() {
        0
    } else {
        1 + first_nl(s.drop_first())
    }
}

/// `s` cut at each newline (the newlines dropped): `a\nb` gives `a`, `b`.
pub open spec fn split_nl(s: Seq<u8>) -> Seq<Seq<u8>>
    decreases s.len(),
{
    let i = first_nl(s);
    if i >= s.len() {
        seq![s]
    } else {
        proof {
            lemma_first_nl(s);
        }
        seq![s.take(i)] + split_nl(s.skip(i + 1))
    }
}

/// Lines joined with a newline between each.
pub open spec fn join_nl(ls: Seq<Seq<u8>>) -> Seq<u8>
    decreases ls.len(),
{
    if ls.len() == 0 {
        Seq::empty()
    } else if ls.len() == 1 {
        ls[0]
    } else {
        ls[0] + seq![nl()] + join_nl(ls.drop_first())
    }
}

/// The index of the last newline in `s`, or -1 when there is none.
pub open spec fn last_nl(s: Seq<u8>) -> int
    decreases s.len(),
{
    if s.len() == 0 {
        -1
    } else if s.last() == nl() {
        s.len() - 1
    } else {
        last_nl(s.drop_last())
    }
}

/// What a write of `data` onto the held bytes `held` emits, and what it leaves
/// held: every line completed by the last newline of `data`; then, if more than
/// [`MAX_LINE_BUFFER`] bytes remain, those too as one line.
pub open spec fn spec_write(held: Seq<u8>, data: Seq<u8>) -> (Seq<Seq<u8>>, Seq<u8>) {
    let all = held + data;
    let cut = last_nl(all);
    let (lines, rest) = if data.contains(nl()) {
        (split_nl(all.take(cut)), all.skip(cut + 1))
    } else {
        (Seq::empty(), all)
    };
    if rest.len() > MAX_LINE_BUFFER {
        (lines.push(rest), Seq::empty())
    } else {
        (lines, rest)
    }
}

pub proof fn lemma_first_nl(s: Seq<u8>)
    ensures
        0 <= first_nl(s) <= s.len(),
        forall|j: int| 0 <= j < first_nl(s) ==> #[trigger] s[j] != nl(),
        first_nl(s) < s.len() ==> s[first_nl(s)] == nl(),
    decreases s.len(),
{
    if s.len() > 0 && s[0] != nl() {
        lemma_first_nl(s.drop_first());
        assert forall|j: int| 0 <= j < first_nl(s) implies #[trigger] s[j] != nl() by {
            if j > 0 {
                assert(s[j] == s.drop_first()[j - 1]);
            }
        }
    }
}

pub proof fn lemma_last_nl(s: Seq<u8>)
    ensures
        -1 <= last_nl(s) < s.len(),
        forall|j: int| last_nl(s) < j < s.len() ==> #[trigger] s[j] != nl(),
        last_nl(s) >= 0 ==> s[last_nl(s)] == nl(),
    decreases s.len(),
{
    if s.len() > 0 && s.last() != nl() {
        lemma_last_nl(s.drop_last());
        assert forall|j: int| last_nl(s) < j < s.len() implies #[trigger] s[j] != nl() by {
            if j < s.len() - 1 {
                assert(s[j] == s.drop_last()[j]);
            }
        }
    }
}

/// Cutting at newlines and joining them back gives the text again.
pub proof fn lemma_split_join(s: Seq<u8>)
    ensures
        join_nl(split_nl(s)) == s,
        split_nl(s).len() >= 1,
    decreases s.len(),
{
    lemma_first_nl(s);
    let i = first_nl(s);
    if i < s.len() {
        lemma_split_join(s.skip(i + 1));
        let rest = split_nl(s.skip(i + 1));
        assert(split_nl(s) == seq![s.take(i)] + rest);
        assert((seq![s.take(i)] + rest).drop_first() =~= rest);
        assert(s =~= s.take(i) + seq![nl()] + s.skip(i + 1));
    }
}

/// Bytes held for one output stream until a newline completes a line. The
/// held bytes never contain a newline.
pub struct LineBuffer {
    buf: Vec<u8>,
}

impl LineBuffer {
    /// Held bytes never contain a newline.
    #[verifier::type_invariant]
    closed spec fn inv(&self) -> bool {
        !self.buf@.contains(nl())
    }

    /// The bytes currently held.
    pub closed spec fn held(&self) -> Seq<u8> {
        self.buf@
    }

    /// An empty buffer.
    pub fn new() -> (b: LineBuffer)
        ensures
            b.held() == Seq::<u8>::empty(),
    {
        LineBuffer { buf: Vec::new() }
    }

    /// Whether nothing is held.
    pub fn is_empty(&self) -> (e: bool)
        ensures
            e == (self.held().len() == 0),
    {
        self.buf.len() == 0
    }

    /// Appends `data`, returning each completed line in order (without its
    /// newline). Output is held until a newline, or force-flushed past
    /// [`MAX_LINE_BUFFER`].
    pub fn write(&mut self, data: &[u8]) -> (lines: Vec<Vec<u8>>)
        ensures
            lines@.map_values(|l: Vec<u8>| l@) == spec_write(old(self).held(), data@).0,
            final(self).held() == spec_write(old(self).held(), data@).1,
    {
        proof {
            use_type_invariant(&*self);
        }
        let ghost held = self.buf@;
        let ghost all = held + data@;
        let hl = self.buf.len();
        // Held bytes are newline-free, so only the new chunk needs scanning.
        let mut j = data.len();
        while j > 0 && data[j - 1] != 10
            invariant
                j <= data.len(),
                forall|q: int| j <= q < data.len() ==> data@[q] != nl(),
            decreases j,
        {
            j = j - 1;
        }
        let mut all_v: Vec<u8> = Vec::new();
        std::mem::swap(&mut all_v, &mut self.buf);
        let mut q: usize = 0;
        while q < data.len()
            invariant
                q <= data.len(),
                all_v@ == held + data@.take(q as int),
            decreases data.len() - q,
        {
            all_v.push(data[q]);
            q = q + 1;
            assert(all_v@ =~= held + data@.take(q as int));
        }
        assert(data@.take(data.len() as int) =~= data@);
        assert(all_v@ == all);
        let mut lines: Vec<Vec<u8>> = Vec::new();
        let mut rest: Vec<u8> = Vec::new();
        proof {
            lemma_last_nl(all);
        }
        if j == 0 {
            // No newline in this chunk.
            proof {
                assert(!data@.contains(nl())) by {
                    if data@.contains(nl()) {
                        let q = data@.index_of(nl());
                        assert(data@[q] != nl());
                    }
                }
                assert(lines@.map_values(|l: Vec<u8>| l@) =~= Seq::<Seq<u8>>::empty());
            }
            rest = all_v;
        } else {
            assert(all_v.len() == hl + data.len());
            let cut = hl + (j - 1);
            proof {
                assert(all[cut as int] == nl());
                assert(data@.contains(nl())) by {
                    assert(data@[j - 1] == nl());
                }
                assert forall|x: int| cut < x < all.len() implies all[x] != nl() by {
                    assert(all[x] == data@[x - held.len()]);
                }
                if last_nl(all) != cut {
                    if last_nl(all) > cut {
                        assert(all[last_nl(all)] == data@[last_nl(all) - held.len()]);
                    }
                }
                assert(last_nl(all) == cut);
            }
            let mut start: usize = 0;
            let mut p: usize = 0;
            while p < cut
                invariant
                    start <= p <= cut < all_v.len(),
                    all_v@ == all,
                    lines@.map_values(|l: Vec<u8>| l@) + split_nl(all.subrange(start as int, cut as int))
                        == split_nl(all.take(cut as int)),
                    forall|x: int| start <= x < p ==> all[x] != nl(),
                decreases cut - p,
            {
                if all_v[p] == 10 {
                    let mut line: Vec<u8> = Vec::new();
                    let mut x = start;
                    while x < p
                        invariant
                            start <= x <= p < all_v.len(),
                            line@ == all_v@.subrange(start as int, x as int),
                        decreases p - x,
                    {
                        line.push(all_v[x]);
                        x = x + 1;
                        assert(line@ =~= all_v@.subrange(start as int, x as int));
                    }
                    proof {
                        let seg = all.subrange(start as int, cut as int);
                        lemma_first_nl(seg);
                        assert(seg[p - start] == nl());
                        assert(first_nl(seg) == p - start) by {
                            if first_nl(seg) < p - start {
                                assert(seg[first_nl(seg)] == all[start + first_nl(seg)]);
                            }
                            if first_nl(seg) > p - start {
                                assert(seg[p - start] != nl());
                            }
                        }
                        assert(seg.take(p - start) =~= line@);
                        assert(seg.skip(p - start + 1) =~= all.subrange(p + 1, cut as int));
                    }
                    let ghost before = lines@.map_values(|l: Vec<u8>| l@);
                    lines.push(line);
                    proof {
                        let seg = all.subrange(start as int, cut as int);
                        assert(lines@.map_values(|l: Vec<u8>| l@) =~= before.push(all.subrange(start as int, p as int)));
                        assert(split_nl(seg) == seq![seg.take(p - start)] + split_nl(seg.skip(p - start + 1)));
                        assert(before.push(all.subrange(start as int, p as int)) + split_nl(all.subrange(p + 1, cut as int))
                            =~= before + split_nl(seg));
                    }
                    start = p + 1;
                }
                p = p + 1;
            }
            // The last line: from `start` to the cut.
            let mut line: Vec<u8> = Vec::new();
            let mut x = start;
            while x < cut
                invariant
                    start <= x <= cut < all_v.len(),
                    line@ == all_v@.subrange(start as int, x as int),
                decreases cut - x,
            {
                line.push(all_v[x]);
                x = x + 1;
                assert(line@ =~= all_v@.subrange(start as int, x as int));
            }
            proof {
                let seg = all.subrange(start as int, cut as int);
                lemma_first_nl(seg);
                assert(first_nl(seg) == seg.len()) by {
                    if first_nl(seg) < seg.len() {
                        assert(seg[first_nl(seg)] == all[start + first_nl(seg)]);
                    }
                }
                assert(split_nl(seg) == seq![seg]);
            }
            let ghost before = lines@.map_values(|l: Vec<u8>| l@);
            lines.push(line);
            assert(lines@.map_values(|l: Vec<u8>| l@) =~= split_nl(all.take(cut as int)));
            // What follows the cut stays held.
            let mut y = cut + 1;
            while y < all_v.len()
                invariant
                    cut < y <= all_v.len(),
                    rest@ == all_v@.subrange(cut + 1, y as int),
                decreases all_v.len() - y,
            {
                rest.push(all_v[y]);
                y = y + 1;
                assert(rest@ =~= all_v@.subrange(cut + 1, y as int));
            }
            assert(rest@ =~= all.skip(cut + 1));
        }
        proof {
            assert(!rest@.contains(nl())) by {
                if rest@.contains(nl()) {
                    let q = rest@.index_of(nl());
                    if j == 0 {
                        if q < held.len() {
                            assert(held[q] == nl());
                        } else {
                            assert(data@[q - held.len()] == nl());
                        }
                    } else {
                        assert(all[held.len() + j + q] == nl());
                    }
                }
            }
        }
        if rest.len() > MAX_LINE_BUFFER {
            // Force-flush output that never contains a newline (binary, progress bars).
            let ghost before = lines@.map_values(|l: Vec<u8>| l@);
            let ghost rv = rest@;
            lines.push(rest);
            assert(lines@.map_values(|l: Vec<u8>| l@) =~= before.push(rv));
        } else {
            self.buf = rest;
        }
        lines
    }

    /// Takes any remaining held bytes (an incomplete final line).
    pub fn flush(&mut self) -> (line: Option<Vec<u8>>)
        ensures
            final(self).held() == Seq::<u8>::empty(),
            match line {
                Some(l) => old(self).held().len() > 0 && l@ == old(self).held(),
                None => old(self).held().len() == 0,
            },
    {
        if self.buf.len() == 0 {
            return None;
        }
        let mut taken: Vec<u8> = Vec::new();
        std::mem::swap(&mut taken, &mut self.buf);
        Some(taken)
    }
}


/// `s` without its trailing newlines.
pub open spec fn trim_end_nl(s: Seq<u8>) -> Seq<u8>
    decreases s.len(),
{
    if s.len() > 0 && s.last() == nl() {
        trim_end_nl(s.drop_last())
    } else {
        s
    }
}

/// The first `end` bytes of `msg`, cut at each newline.
fn split_upto(msg: &[u8], end: usize) -> (lines: Vec<Vec<u8>>)
    requires
        end <= msg@.len(),
    ensures
        lines@.map_values(|l: Vec<u8>| l@) == split_nl(msg@.take(end as int)),
{
    let ghost all = msg@.take(end as int);
    let mut lines: Vec<Vec<u8>> = Vec::new();
    let mut start: usize = 0;
    let mut p: usize = 0;
    assert(all.subrange(0, end as int) =~= all);
    while p < end
        invariant
            start <= p <= end <= msg@.len(),
            all == msg@.take(end as int),
            lines@.map_values(|l: Vec<u8>| l@) + split_nl(all.subrange(start as int, end as int))
                == split_nl(all),
            forall|x: int| start <= x < p ==> all[x] != nl(),
        decreases end - p,
    {
        if msg[p] == 10 {
            let mut line: Vec<u8> = Vec::new();
            let mut x = start;
            while x < p
                invariant
                    start <= x <= p < end <= msg@.len(),
                    line@ == msg@.subrange(start as int, x as int),
                decreases p - x,
            {
                line.push(msg[x]);
                x = x + 1;
                assert(line@ =~= msg@.subrange(start as int, x as int));
            }
            proof {
                let seg = all.subrange(start as int, end as int);
                lemma_first_nl(seg);
                assert(seg[p - start] == nl());
                assert(first_nl(seg) == p - start) by {
                    if first_nl(seg) < p - start {
                        assert(seg[first_nl(seg)] == all[start + first_nl(seg)]);
                    }
                }
                assert(seg.take(p - start) =~= line@);
                assert(seg.skip(p - start + 1) =~= all.subrange(p + 1, end as int));
                assert(line@ =~= all.subrange(start as int, p as int));
            }
            let ghost before = lines@.map_values(|l: Vec<u8>| l@);
            lines.push(line);
            proof {
                let seg = all.subrange(start as int, end as int);
                assert(lines@.map_values(|l: Vec<u8>| l@) =~= before.push(all.subrange(start as int, p as int)));
                assert(split_nl(seg) == seq![seg.take(p - start)] + split_nl(seg.skip(p - start + 1)));
                assert(before.push(all.subrange(start as int, p as int)) + split_nl(all.subrange(p + 1, end as int))
                    =~= before + split_nl(seg));
            }
            start = p + 1;
        }
        p = p + 1;
    }
    let mut line: Vec<u8> = Vec::new();
    let mut x = start;
    while x < end
        invariant
            start <= x <= end <= msg@.len(),
            line@ == msg@.subrange(start as int, x as int),
        decreases end - x,
    {
        line.push(msg[x]);
        x = x + 1;
        assert(line@ =~= msg@.subrange(start as int, x as int));
    }
    proof {
        let seg = all.subrange(start as int, end as int);
        lemma_first_nl(seg);
        assert(first_nl(seg) == seg.len()) by {
            if first_nl(seg) < seg.len() {
                assert(seg[first_nl(seg)] == all[start + first_nl(seg)]);
            }
        }
        assert(split_nl(seg) == seq![seg]);
        assert(line@ =~= seg);
    }
    let ghost before = lines@.map_values(|l: Vec<u8>| l@);
    lines.push(line);
    assert(lines@.map_values(|l: Vec<u8>| l@) =~= before + seq![all.subrange(start as int, end as int)]);
    lines
}

/// A note cut into its lines at each newline: `a\nb` gives `a`, `b`, and a
/// trailing newline gives a last, empty line.
pub fn split_lines(msg: &[u8]) -> (lines: Vec<Vec<u8>>)
    ensures
        lines@.map_values(|l: Vec<u8>| l@) == split_nl(msg@),
{
    assert(msg@.take(msg@.len() as int) =~= msg@);
    split_upto(msg, msg.len())
}

/// A leveled message cut into its lines, once its trailing newlines are
/// dropped: `a\nb\n` gives `a`, `b`.
pub fn message_lines(msg: &[u8]) -> (lines: Vec<Vec<u8>>)
    ensures
        lines@.map_values(|l: Vec<u8>| l@) == split_nl(trim_end_nl(msg@)),
{
    let mut e = msg.len();
    assert(msg@.take(e as int) =~= msg@);
    while e > 0 && msg[e - 1] == 10
        invariant
            e <= msg@.len(),
            trim_end_nl(msg@.take(e as int)) == trim_end_nl(msg@),
        decreases e,
    {
        assert(msg@.take(e as int).drop_last() =~= msg@.take(e - 1));
        e = e - 1;
    }
    split_upto(msg, e)
}

/// A write loses no bytes: when it cuts at a newline and keeps the rest held,
/// its lines joined by newlines, that newline, and the held rest spell out the
/// old held bytes followed by `data`; without a newline everything stays held.
pub proof fn lemma_write_loses_nothing(held: Seq<u8>, data: Seq<u8>)
    requires
        (held + data).len() <= MAX_LINE_BUFFER,
    ensures
        data.contains(nl()) ==> join_nl(spec_write(held, data).0) + seq![nl()] + spec_write(held, data).1 == held + data,
        !data.contains(nl()) ==> spec_write(held, data).0.len() == 0 && spec_write(held, data).1 == held + data,
{
    let all = held + data;
    lemma_last_nl(all);
    if data.contains(nl()) {
        let q = data.index_of(nl());
        assert(all[held.len() + q] == nl());
        let cut = last_nl(all);
        assert(cut >= 0) by {
            if cut < 0 {
                assert(all[held.len() + q] != nl());
            }
        }
        lemma_split_join(all.take(cut));
        assert(all =~= all.take(cut) + seq![nl()] + all.skip(cut + 1));
    }
}

} // verus!
