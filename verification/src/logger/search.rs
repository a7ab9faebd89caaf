//! Smart-case text matching, shared by the log search and the output-watch
//! readiness check: case-insensitive unless the query has an uppercase letter.
use vstd::prelude::*;

use crate::text::{chars_of, lower, lower_seq, to_lower};
use super::level::LogLevel;

verus! {

/// Whether `q` holds an uppercase (ASCII) letter.
pub open spec fn has_upper(q: Seq<char>) -> bool {
    exists|i: int| 0 <= i < q.len() && 'A' <= #[trigger] q[i] && q[i] <= 'Z'
}

/// Whether `q` occurs in `t` starting at `i`.
pub open spec fn occurs_at(t: Seq<char>, q: Seq<char>, i: int) -> bool {
    0 <= i && i + q.len() <= t.len() && t.subrange(i, i + q.len()) == q
}

/// Whether `q` occurs in `t`.
pub open spec fn occurs(t: Seq<char>, q: Seq<char>) -> bool {
    exists|i: int| #[trigger] occurs_at(t, q, i)
}

/// Whether `text` matches `query`: an empty query matches everything; else the
/// query must occur in the text, exactly when `case_sensitive`, otherwise with
/// both sides folded to lowercase.
pub open spec fn spec_text_matches(text: Seq<char>, query: Seq<char>, case_sensitive: bool) -> bool {
    query.len() == 0 || if case_sensitive {
        occurs(text, query)
    } else {
        occurs(lower_seq(text), lower_seq(query))
    }
}

/// Smart case: a query is case-sensitive exactly when it holds an uppercase letter.
pub fn query_is_case_sensitive(q: &str) -> (b: bool)
    ensures
        b == has_upper(q@),
{
    let cs = chars_of(q);
    let mut i: usize = 0;
    while i < cs.len()
        invariant
            i <= cs.len(),
            cs@ == q@,
            forall|j: int| 0 <= j < i ==> !('A' <= #[trigger] cs@[j] && cs@[j] <= 'Z'),
        decreases cs.len() - i,
    {
        if 'A' <= cs[i] && cs[i] <= 'Z' {
            assert('A' <= q@[i as int] && q@[i as int] <= 'Z');
            return true;
        }
        i = i + 1;
    }
    false
}

/// Whether the characters `q` occur in `t`.
fn occurs_in(t: &Vec<char>, q: &Vec<char>) -> (b: bool)
    ensures
        b == occurs(t@, q@),
{
    if q.len() > t.len() {
        proof {
            assert forall|i: int| !#[trigger] occurs_at(t@, q@, i) by {}
        }
        return false;
    }
    let mut i: usize = 0;
    let last = t.len() - q.len();
    while i <= last
        invariant
            last == t.len() - q.len(),
            q.len() <= t.len(),
            i <= last + 1,
            forall|j: int| 0 <= j < i ==> !#[trigger] occurs_at(t@, q@, j),
        decreases last + 1 - i,
    {
        let mut k: usize = 0;
        while k < q.len() && t[i + k] == q[k]
            invariant
                k <= q.len(),
                i <= last,
                last == t.len() - q.len(),
                forall|m: int| 0 <= m < k ==> t@[i + m] == q@[m],
            decreases q.len() - k,
        {
            k = k + 1;
        }
        if k == q.len() {
            assert(t@.subrange(i as int, i + q.len()) =~= q@);
            assert(occurs_at(t@, q@, i as int));
            return true;
        }
        assert(!occurs_at(t@, q@, i as int)) by {
            if occurs_at(t@, q@, i as int) {
                assert(t@.subrange(i as int, i + q.len())[k as int] == q@[k as int]);
            }
        }
        i = i + 1;
    }
    proof {
        assert forall|j: int| !#[trigger] occurs_at(t@, q@, j) by {
            if 0 <= j && j < i {
            } else if occurs_at(t@, q@, j) {
                assert(j > last);
            }
        }
    }
    false
}

/// The lowercase (ASCII) characters of `s`.
fn lowered(s: &str) -> (v: Vec<char>)
    ensures
        v@ == lower_seq(s@),
{
    let cs = chars_of(s);
    let mut v: Vec<char> = Vec::new();
    let mut i: usize = 0;
    while i < cs.len()
        invariant
            i <= cs.len(),
            cs@ == s@,
            v@ == lower_seq(s@).take(i as int),
        decreases cs.len() - i,
    {
        v.push(to_lower(cs[i]));
        i = i + 1;
        assert(v@ =~= lower_seq(s@).take(i as int));
    }
    assert(lower_seq(s@).take(cs.len() as int) =~= lower_seq(s@));
    v
}

/// Whether `text` matches `query` (see [`spec_text_matches`]); an empty query
/// matches everything, so a fresh search box shows the whole log.
pub fn text_matches(text: &str, query: &str, case_sensitive: bool) -> (b: bool)
    ensures
        b == spec_text_matches(text@, query@, case_sensitive),
{
    let qc = chars_of(query);
    if qc.len() == 0 {
        return true;
    }
    if case_sensitive {
        let tc = chars_of(text);
        occurs_in(&tc, &qc)
    } else {
        let tl = lowered(text);
        let ql = lowered(query);
        occurs_in(&tl, &ql)
    }
}


/// ASCII lowercase of a byte.
pub open spec fn fold_byte(b: u8) -> u8 {
    if 65 <= b <= 90 {
        (b + 32) as u8
    } else {
        b
    }
}

/// ASCII lowercase of some bytes.
pub open spec fn fold_bytes(b: Seq<u8>) -> Seq<u8> {
    b.map_values(|x: u8| fold_byte(x))
}

/// Whether `n` occurs in `h` starting at `i`.
pub open spec fn bytes_at(h: Seq<u8>, n: Seq<u8>, i: int) -> bool {
    0 <= i && i + n.len() <= h.len() && h.subrange(i, i + n.len()) == n
}

/// Whether `n` occurs in `h`, exactly when `case_sensitive`, else with both
/// sides ASCII-folded.
pub open spec fn spec_bytes_contain(h: Seq<u8>, n: Seq<u8>, case_sensitive: bool) -> bool {
    if case_sensitive {
        exists|i: int| #[trigger] bytes_at(h, n, i)
    } else {
        exists|i: int| #[trigger] bytes_at(fold_bytes(h), fold_bytes(n), i)
    }
}

/// The ASCII-folded copy of some bytes.
fn folded(b: &[u8]) -> (v: Vec<u8>)
    ensures
        v@ == fold_bytes(b@),
{
    let mut v: Vec<u8> = Vec::new();
    let mut i: usize = 0;
    while i < b.len()
        invariant
            i <= b.len(),
            v@ == b@.take(i as int).map_values(|x: u8| fold_byte(x)),
        decreases b.len() - i,
    {
        let x = b[i];
        let y: u8 = if 65 <= x && x <= 90 { x + 32 } else { x };
        v.push(y);
        i = i + 1;
        assert(v@ =~= b@.take(i as int).map_values(|x: u8| fold_byte(x)));
    }
    assert(b@.take(b.len() as int) =~= b@);
    assert(v@ =~= fold_bytes(b@));
    v
}

/// Whether the bytes `n` occur in `h`.
fn occurs_bytes(h: &Vec<u8>, n: &Vec<u8>) -> (r: bool)
    ensures
        r == exists|i: int| #[trigger] bytes_at(h@, n@, i),
{
    if n.len() > h.len() {
        proof {
            assert forall|i: int| !#[trigger] bytes_at(h@, n@, i) by {}
        }
        return false;
    }
    let last = h.len() - n.len();
    let mut i: usize = 0;
    while i <= last
        invariant
            last == h.len() - n.len(),
            n.len() <= h.len(),
            i <= last + 1,
            forall|j: int| 0 <= j < i ==> !#[trigger] bytes_at(h@, n@, j),
        decreases last + 1 - i,
    {
        let mut k: usize = 0;
        while k < n.len() && h[i + k] == n[k]
            invariant
                k <= n.len(),
                i <= last,
                last == h.len() - n.len(),
                forall|m: int| 0 <= m < k ==> h@[i + m] == n@[m],
            decreases n.len() - k,
        {
            k = k + 1;
        }
        if k == n.len() {
            assert(h@.subrange(i as int, i + n.len()) =~= n@);
            assert(bytes_at(h@, n@, i as int));
            return true;
        }
        assert(!bytes_at(h@, n@, i as int)) by {
            if bytes_at(h@, n@, i as int) {
                assert(h@.subrange(i as int, i + n.len())[k as int] == n@[k as int]);
            }
        }
        i = i + 1;
    }
    proof {
        assert forall|j: int| !#[trigger] bytes_at(h@, n@, j) by {
            if 0 <= j && j < i {
            } else if bytes_at(h@, n@, j) {
                assert(j > last);
            }
        }
    }
    false
}

/// Whether `haystack` contains `needle` as a byte substring, matching exactly
/// when `case_sensitive` and ASCII-folding otherwise.
pub fn bytes_contain(haystack: &[u8], needle: &[u8], case_sensitive: bool) -> (r: bool)
    ensures
        r == spec_bytes_contain(haystack@, needle@, case_sensitive),
{
    if case_sensitive {
        let mut h: Vec<u8> = Vec::new();
        let mut i: usize = 0;
        while i < haystack.len()
            invariant
                i <= haystack.len(),
                h@ == haystack@.take(i as int),
            decreases haystack.len() - i,
        {
            h.push(haystack[i]);
            i = i + 1;
            assert(h@ =~= haystack@.take(i as int));
        }
        let mut n: Vec<u8> = Vec::new();
        let mut j: usize = 0;
        while j < needle.len()
            invariant
                j <= needle.len(),
                n@ == needle@.take(j as int),
            decreases needle.len() - j,
        {
            n.push(needle[j]);
            j = j + 1;
            assert(n@ =~= needle@.take(j as int));
        }
        assert(haystack@.take(haystack.len() as int) =~= haystack@);
        assert(needle@.take(needle.len() as int) =~= needle@);
        occurs_bytes(&h, &n)
    } else {
        let h = folded(haystack);
        let n = folded(needle);
        occurs_bytes(&h, &n)
    }
}

/// Whether `haystack` contains a non-empty `needle` (an empty needle never
/// matches: the readiness policy treats one as "no check").
pub fn contains_bytes(haystack: &[u8], needle: &[u8], case_sensitive: bool) -> (r: bool)
    ensures
        r == (needle@.len() > 0 && spec_bytes_contain(haystack@, needle@, case_sensitive)),
{
    needle.len() > 0 && bytes_contain(haystack, needle, case_sensitive)
}

/// What stripping ANSI escape sequences (`anstream::adapter::strip_bytes`)
/// leaves of some bytes.
pub uninterp spec fn ansi_stripped(b: Seq<u8>) -> Seq<u8>;

/// Strips ANSI escape sequences with `anstream::adapter::strip_bytes`.
#[verifier::external_body]
fn strip_escapes(b: &[u8]) -> (r: Vec<u8>)
    ensures
        r@ == ansi_stripped(b@),
{
    anstream::adapter::strip_bytes(b).into_vec()
}

/// A readiness output substring with its smart-case decision computed once;
/// matched against ANSI-stripped bytes so a colored banner still matches a
/// plain-text needle (case-insensitive unless it has an uppercase letter).
pub struct Needle {
    pub text: String,
    pub case_sensitive: bool,
}

impl Needle {
    /// A needle for `text`, case-sensitive when `text` has an uppercase letter.
    pub fn new(text: String) -> (n: Needle)
        ensures
            n.text == text,
            n.case_sensitive == has_upper(text@),
    {
        let case_sensitive = query_is_case_sensitive(text.as_str());
        Needle { text, case_sensitive }
    }

    /// Whether already-ANSI-stripped bytes contain the needle.
    pub fn contains(&self, stripped: &[u8]) -> (r: bool)
        ensures
            r == (vstd::utf8::encode_utf8(self.text@).len() > 0 && spec_bytes_contain(stripped@, vstd::utf8::encode_utf8(self.text@), self.case_sensitive)),
    {
        let b = self.text.as_str().as_bytes();
        contains_bytes(stripped, b, self.case_sensitive)
    }

    /// Whether `bytes`, once ANSI escapes are stripped, contain the needle.
    pub fn matches(&self, bytes: &[u8]) -> (r: bool)
        ensures
            r == (vstd::utf8::encode_utf8(self.text@).len() > 0 && spec_bytes_contain(ansi_stripped(bytes@), vstd::utf8::encode_utf8(self.text@), self.case_sensitive)),
    {
        let s = strip_escapes(bytes);
        self.contains(s.as_slice())
    }
}


/// The bytes of a line as a log file or the store keeps them: a program's raw
/// output (`level` is `None`) has its ANSI escapes stripped; leveled lines are
/// proccie's own and carry none, so they pass through unchanged.
pub fn strip_ansi(level: Option<LogLevel>, line: &[u8]) -> (r: Vec<u8>)
    ensures
        r@ == (if level is None && line@.contains(0x1bu8) {
            ansi_stripped(line@)
        } else {
            line@
        }),
{
    let mut has_escape = false;
    let mut i: usize = 0;
    while i < line.len()
        invariant
            i <= line.len(),
            has_escape == line@.take(i as int).contains(0x1bu8),
        decreases line.len() - i,
    {
        proof {
            assert(line@.take(i + 1) =~= line@.take(i as int).push(line@[i as int]));
            if line@.take(i as int).contains(0x1bu8) {
                let q = line@.take(i as int).index_of(0x1bu8);
                assert(line@.take(i + 1)[q] == 0x1bu8);
            }
            if line@.take(i + 1).contains(0x1bu8) && line@[i as int] != 0x1bu8 {
                let q = line@.take(i + 1).index_of(0x1bu8);
                assert(line@.take(i as int)[q] == 0x1bu8);
            }
            if line@[i as int] == 0x1bu8 {
                assert(line@.take(i + 1)[i as int] == 0x1bu8);
            }
        }
        if line[i] == 0x1b {
            has_escape = true;
        }
        i = i + 1;
    }
    assert(line@.take(line.len() as int) =~= line@);
    if level.is_none() && has_escape {
        strip_escapes(line)
    } else {
        let mut v: Vec<u8> = Vec::new();
        let mut j: usize = 0;
        while j < line.len()
            invariant
                j <= line.len(),
                v@ == line@.take(j as int),
            decreases line.len() - j,
        {
            v.push(line[j]);
            j = j + 1;
            assert(v@ =~= line@.take(j as int));
        }
        v
    }
}

} // verus!
