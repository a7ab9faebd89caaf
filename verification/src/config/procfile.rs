//! The raw, parsed config before validation and environment resolution, and
//! the parser for the plain foreman Procfile format (`name: command` lines).
use vstd::prelude::*;

use super::error::ConfigError;
use super::schema::Process;
use crate::strmap::StrMap;
use super::environment::text_map;
use crate::text::{str_eq, append_str, chars_of, debug_quote, debug_str, find_char, find_char_in, lemma_find_char, string_from, trim, trim_bounds};

verus! {

/// The raw, parsed config before validation and environment resolution.
pub struct Parsed {
    pub global_env_file: Option<String>,
    pub global_env: StrMap<String>,
    pub processes: StrMap<Process>,
}

/// A process-name character: an ASCII letter or digit, `-`, or `_`.
pub open spec fn is_name_char(c: char) -> bool {
    ('a' <= c && c <= 'z') || ('A' <= c && c <= 'Z') || ('0' <= c && c <= '9') || c == '-' || c == '_'
}

/// A process name is non-empty and made of letters, digits, `-`, or `_`.
pub open spec fn valid_name(n: Seq<char>) -> bool {
    n.len() > 0 && forall|i: int| 0 <= i < n.len() ==> #[trigger] is_name_char(n[i])
}

/// The text with a leading UTF-8 byte-order mark removed.
pub open spec fn strip_bom(s: Seq<char>) -> Seq<char> {
    if s.len() > 0 && s[0] == '\u{feff}' {
        s.drop_first()
    } else {
        s
    }
}

/// The reason a named process line is refused, if it is.
pub open spec fn entry_issue(acc: Map<Seq<char>, Seq<char>>, name: Seq<char>, cmd: Seq<char>) -> Option<Seq<char>> {
    if !valid_name(name) {
        Some(
            "invalid process name "@ + debug_str(name) + " (expected letters, digits, \"-\", or \"_\")"@,
        )
    } else if cmd.len() == 0 {
        Some("process "@ + debug_str(name) + " has no command"@)
    } else if acc.contains_key(name) {
        Some("duplicate process name "@ + debug_str(name))
    } else {
        None
    }
}

/// Reads the lines of `s` (line `line` first) into `acc`, name to command:
/// the whole table, or the first malformed line's number and the reason.
/// Blank lines and `#` comments are skipped; a trailing newline ends the text.
pub open spec fn plain_lines(s: Seq<char>, line: int, acc: Map<Seq<char>, Seq<char>>) -> Result<
    Map<Seq<char>, Seq<char>>,
    (int, Seq<char>),
>
    decreases s.len(),
{
    if s.len() == 0 {
        Ok(acc)
    } else {
        let e = find_char(s, '\n');
        proof {
            lemma_find_char(s, '\n');
        }
        let rest = if e < s.len() {
            s.subrange(e + 1, s.len() as int)
        } else {
            Seq::empty()
        };
        let t = trim(s.subrange(0, e));
        if t.len() == 0 || t[0] == '#' {
            plain_lines(rest, line + 1, acc)
        } else {
            let k = find_char(t, ':');
            if k >= t.len() {
                Err((line, "expected \"name: command\""@))
            } else {
                let name = trim(t.subrange(0, k));
                let cmd = trim(t.subrange(k + 1, t.len() as int));
                match entry_issue(acc, name, cmd) {
                    Some(reason) => Err((line, reason)),
                    None => plain_lines(rest, line + 1, acc.insert(name, cmd)),
                }
            }
        }
    }
}

/// The lines of `s` as the plain reader walks them: cut at each newline, a
/// final newline ending the text rather than starting an empty line.
pub open spec fn text_lines(s: Seq<char>) -> Seq<Seq<char>>
    decreases s.len(),
{
    if s.len() == 0 {
        Seq::empty()
    } else {
        let e = find_char(s, '\n');
        proof {
            lemma_find_char(s, '\n');
        }
        let rest = if e < s.len() {
            s.subrange(e + 1, s.len() as int)
        } else {
            Seq::empty()
        };
        seq![s.subrange(0, e)] + text_lines(rest)
    }
}

/// A line the reader acts on: not blank and not a `#` comment.
pub open spec fn is_live(l: Seq<char>) -> bool {
    trim(l).len() > 0 && trim(l)[0] != '#'
}

/// The name a `name: command` line gives (trimmed, before the first `:`).
pub open spec fn line_name(l: Seq<char>) -> Seq<char> {
    let t = trim(l);
    trim(t.subrange(0, find_char(t, ':')))
}

/// The command a `name: command` line gives (trimmed, after the first `:`).
pub open spec fn line_cmd(l: Seq<char>) -> Seq<char> {
    let t = trim(l);
    trim(t.subrange(find_char(t, ':') + 1, t.len() as int))
}

/// A well-formed line: it has a `:`, a valid name and a non-empty command.
pub open spec fn line_ok(l: Seq<char>) -> bool {
    &&& find_char(trim(l), ':') < trim(l).len()
    &&& valid_name(line_name(l))
    &&& line_cmd(l).len() > 0
}

/// Every live line of `ls` is well formed, and their names are distinct and
/// none of `taken`.
pub open spec fn lines_ok(ls: Seq<Seq<char>>, taken: Set<Seq<char>>) -> bool {
    &&& forall|i: int| 0 <= i < ls.len() && is_live(#[trigger] ls[i]) ==> line_ok(ls[i]) && !taken.contains(line_name(ls[i]))
    &&& forall|i: int, j: int|
        0 <= i < j < ls.len() && is_live(#[trigger] ls[i]) && is_live(#[trigger] ls[j]) ==> line_name(ls[i]) != line_name(ls[j])
}

proof fn lemma_lines_ok_dead(l: Seq<char>, lr: Seq<Seq<char>>, taken: Set<Seq<char>>)
    requires
        !is_live(l),
    ensures
        lines_ok(seq![l] + lr, taken) <==> lines_ok(lr, taken),
{
    let ls = seq![l] + lr;
    if lines_ok(ls, taken) {
        assert forall|i: int| 0 <= i < lr.len() && is_live(#[trigger] lr[i]) implies line_ok(lr[i]) && !taken.contains(line_name(lr[i])) by {
            assert(ls[i + 1] == lr[i]);
        }
        assert forall|i: int, j: int| 0 <= i < j < lr.len() && is_live(#[trigger] lr[i]) && is_live(#[trigger] lr[j]) implies line_name(lr[i]) != line_name(lr[j]) by {
            assert(ls[i + 1] == lr[i] && ls[j + 1] == lr[j]);
        }
    }
    if lines_ok(lr, taken) {
        assert forall|i: int| 0 <= i < ls.len() && is_live(#[trigger] ls[i]) implies line_ok(ls[i]) && !taken.contains(line_name(ls[i])) by {
            if i > 0 {
                assert(ls[i] == lr[i - 1]);
            }
        }
        assert forall|i: int, j: int| 0 <= i < j < ls.len() && is_live(#[trigger] ls[i]) && is_live(#[trigger] ls[j]) implies line_name(ls[i]) != line_name(ls[j]) by {
            assert(i > 0);
            assert(ls[i] == lr[i - 1] && ls[j] == lr[j - 1]);
        }
    }
}

proof fn lemma_lines_ok_live(l: Seq<char>, lr: Seq<Seq<char>>, taken: Set<Seq<char>>)
    requires
        is_live(l),
        line_ok(l),
        !taken.contains(line_name(l)),
    ensures
        lines_ok(seq![l] + lr, taken) <==> lines_ok(lr, taken.insert(line_name(l))),
{
    let ls = seq![l] + lr;
    let t2 = taken.insert(line_name(l));
    if lines_ok(ls, taken) {
        assert forall|i: int| 0 <= i < lr.len() && is_live(#[trigger] lr[i]) implies line_ok(lr[i]) && !t2.contains(line_name(lr[i])) by {
            assert(ls[i + 1] == lr[i]);
            assert(ls[0] == l);
        }
        assert forall|i: int, j: int| 0 <= i < j < lr.len() && is_live(#[trigger] lr[i]) && is_live(#[trigger] lr[j]) implies line_name(lr[i]) != line_name(lr[j]) by {
            assert(ls[i + 1] == lr[i] && ls[j + 1] == lr[j]);
        }
    }
    if lines_ok(lr, t2) {
        assert forall|i: int| 0 <= i < ls.len() && is_live(#[trigger] ls[i]) implies line_ok(ls[i]) && !taken.contains(line_name(ls[i])) by {
            if i > 0 {
                assert(ls[i] == lr[i - 1]);
            }
        }
        assert forall|i: int, j: int| 0 <= i < j < ls.len() && is_live(#[trigger] ls[i]) && is_live(#[trigger] ls[j]) implies line_name(ls[i]) != line_name(ls[j]) by {
            assert(ls[j] == lr[j - 1]);
            if i > 0 {
                assert(ls[i] == lr[i - 1]);
            } else {
                assert(ls[0] == l);
                assert(!t2.contains(line_name(lr[j - 1])));
            }
        }
    }
}

/// A plain Procfile reads without error exactly when every line that is not
/// blank or a `#` comment is `name: command` with a valid name and a non-empty
/// command, and no name repeats (nor is in `acc`, what was read before).
pub proof fn lemma_plain_lines_ok(s: Seq<char>, line: int, acc: Map<Seq<char>, Seq<char>>)
    ensures
        plain_lines(s, line, acc) is Ok <==> lines_ok(text_lines(s), acc.dom()),
    decreases s.len(),
{
    if s.len() > 0 {
        lemma_find_char(s, '\n');
        let e = find_char(s, '\n');
        let rest = if e < s.len() {
            s.subrange(e + 1, s.len() as int)
        } else {
            Seq::empty()
        };
        let l = s.subrange(0, e);
        let lr = text_lines(rest);
        assert(text_lines(s) == seq![l] + lr);
        let t = trim(l);
        if !is_live(l) {
            lemma_plain_lines_ok(rest, line + 1, acc);
            lemma_lines_ok_dead(l, lr, acc.dom());
        } else {
            let k = find_char(t, ':');
            let ls = seq![l] + lr;
            assert(ls[0] == l);
            if k >= t.len() {
                assert(!line_ok(l));
            } else {
                let name = trim(t.subrange(0, k));
                let cmd = trim(t.subrange(k + 1, t.len() as int));
                assert(name == line_name(l) && cmd == line_cmd(l));
                match entry_issue(acc, name, cmd) {
                    Some(_) => {
                        assert(!line_ok(l) || acc.dom().contains(name));
                    },
                    None => {
                        lemma_plain_lines_ok(rest, line + 1, acc.insert(name, cmd));
                        assert(acc.insert(name, cmd).dom() =~= acc.dom().insert(name));
                        lemma_lines_ok_live(l, lr, acc.dom());
                    },
                }
            }
        }
    }
}

/// Line `i` of `ls` is the reader's refusal point: live, and malformed or its
/// name already taken (before the text, or by an earlier live line).
pub open spec fn bad_at(ls: Seq<Seq<char>>, taken: Set<Seq<char>>, i: int) -> bool {
    &&& is_live(ls[i])
    &&& (!line_ok(ls[i]) || taken.contains(line_name(ls[i])) || exists|j: int|
        0 <= j < i && is_live(#[trigger] ls[j]) && line_name(ls[j]) == line_name(ls[i]))
}

proof fn lemma_bad_at_shift(l: Seq<char>, lr: Seq<Seq<char>>, taken: Set<Seq<char>>, i: int)
    requires
        0 <= i < lr.len(),
    ensures
        !is_live(l) ==> (bad_at(seq![l] + lr, taken, i + 1) <==> bad_at(lr, taken, i)),
        is_live(l) && line_ok(l) && !taken.contains(line_name(l)) ==> (bad_at(seq![l] + lr, taken, i + 1) <==> bad_at(
            lr,
            taken.insert(line_name(l)),
            i,
        )),
{
    let ls = seq![l] + lr;
    assert(ls[i + 1] == lr[i]);
    assert(ls[0] == l);
    if exists|j: int| 0 <= j < i + 1 && is_live(#[trigger] ls[j]) && line_name(ls[j]) == line_name(ls[i + 1]) {
        let j = choose|j: int| 0 <= j < i + 1 && is_live(#[trigger] ls[j]) && line_name(ls[j]) == line_name(ls[i + 1]);
        if j > 0 {
            assert(ls[j] == lr[j - 1]);
        }
    }
    if exists|j: int| 0 <= j < i && is_live(#[trigger] lr[j]) && line_name(lr[j]) == line_name(lr[i]) {
        let j = choose|j: int| 0 <= j < i && is_live(#[trigger] lr[j]) && line_name(lr[j]) == line_name(lr[i]);
        assert(ls[j + 1] == lr[j]);
    }
}

/// A refused Procfile names the first bad line: its number is `line` plus the
/// position of the first line that is malformed or repeats a name.
pub proof fn lemma_plain_lines_err(s: Seq<char>, line: int, acc: Map<Seq<char>, Seq<char>>)
    ensures
        plain_lines(s, line, acc) matches Err((l, _)) ==> 0 <= l - line < text_lines(s).len() && bad_at(
            text_lines(s),
            acc.dom(),
            l - line,
        ) && forall|j: int| 0 <= j < l - line ==> !#[trigger] bad_at(text_lines(s), acc.dom(), j),
    decreases s.len(),
{
    if s.len() > 0 {
        lemma_find_char(s, '\n');
        let e = find_char(s, '\n');
        let rest = if e < s.len() {
            s.subrange(e + 1, s.len() as int)
        } else {
            Seq::empty()
        };
        let l0 = s.subrange(0, e);
        let lr = text_lines(rest);
        let ls = seq![l0] + lr;
        assert(text_lines(s) == ls);
        assert(ls[0] == l0);
        let t = trim(l0);
        if !is_live(l0) {
            lemma_plain_lines_err(rest, line + 1, acc);
            match plain_lines(rest, line + 1, acc) {
                Err((l, _)) => {
                    lemma_bad_at_shift(l0, lr, acc.dom(), l - line - 1);
                    assert forall|j: int| 0 <= j < l - line implies !#[trigger] bad_at(ls, acc.dom(), j) by {
                        if j > 0 {
                            lemma_bad_at_shift(l0, lr, acc.dom(), j - 1);
                        }
                    }
                },
                Ok(_) => {},
            }
        } else {
            let k = find_char(t, ':');
            if k >= t.len() {
                assert(!line_ok(l0));
            } else {
                let name = trim(t.subrange(0, k));
                let cmd = trim(t.subrange(k + 1, t.len() as int));
                assert(name == line_name(l0) && cmd == line_cmd(l0));
                match entry_issue(acc, name, cmd) {
                    Some(_) => {
                        assert(!line_ok(l0) || acc.dom().contains(name));
                    },
                    None => {
                        let acc2 = acc.insert(name, cmd);
                        lemma_plain_lines_err(rest, line + 1, acc2);
                        assert(acc2.dom() =~= acc.dom().insert(name));
                        assert(!bad_at(ls, acc.dom(), 0));
                        match plain_lines(rest, line + 1, acc2) {
                            Err((l, _)) => {
                                lemma_bad_at_shift(l0, lr, acc.dom(), l - line - 1);
                                assert forall|j: int| 0 <= j < l - line implies !#[trigger] bad_at(ls, acc.dom(), j) by {
                                    if j > 0 {
                                        lemma_bad_at_shift(l0, lr, acc.dom(), j - 1);
                                    }
                                }
                            },
                            Ok(_) => {},
                        }
                    },
                }
            }
        }
    }
}

/// `parse_plain` succeeds exactly when every live line of the text (a leading
/// byte-order mark dropped) is well formed and the names are distinct; when
/// it fails, the error's line number (counted from 1) is that of the first
/// line that is malformed or repeats a name.
pub proof fn lemma_parse_plain_ok(data: Seq<char>)
    ensures
        plain_lines(strip_bom(data), 1, Map::empty()) is Ok <==> lines_ok(text_lines(strip_bom(data)), Set::empty()),
        plain_lines(strip_bom(data), 1, Map::empty()) matches Err((l, _)) ==> 1 <= l <= text_lines(strip_bom(data)).len()
            && bad_at(text_lines(strip_bom(data)), Set::empty(), l - 1) && forall|j: int|
            0 <= j < l - 1 ==> !#[trigger] bad_at(text_lines(strip_bom(data)), Set::empty(), j),
{
    lemma_plain_lines_ok(strip_bom(data), 1, Map::empty());
    lemma_plain_lines_err(strip_bom(data), 1, Map::empty());
    assert(Map::<Seq<char>, Seq<char>>::empty().dom() =~= Set::<Seq<char>>::empty());
}

/// A process as the plain format writes it: only a command.
pub open spec fn is_plain_process(p: Process) -> bool {
    &&& p.exit_codes.0@.len() == 0
    &&& p.readiness is None
    &&& p.depends_on@.len() == 0
    &&& p.environment@ == Map::<Seq<char>, String>::empty()
    &&& p.log_file is None
    &&& p.env_file is None
    &&& p.max_retries == 0
    &&& p.name is None
    &&& p.color is None
    &&& p.env@ == Map::<Seq<char>, String>::empty()
}

/// `procs` holds exactly the commands of `table`, every other key at its default.
pub open spec fn plain_table(procs: &StrMap<Process>, table: Map<Seq<char>, Seq<char>>) -> bool {
    &&& procs@.dom() == table.dom()
    &&& forall|k: Seq<char>| #[trigger] procs@.contains_key(k) ==> procs@[k].command@ == table[k]
        && is_plain_process(procs@[k])
}

/// Whether `cs[lo..hi]` is a valid process name.
fn is_valid_name(cs: &Vec<char>, lo: usize, hi: usize) -> (b: bool)
    requires
        lo <= hi <= cs.len(),
    ensures
        b == valid_name(cs@.subrange(lo as int, hi as int)),
{
    let ghost n = cs@.subrange(lo as int, hi as int);
    if lo == hi {
        return false;
    }
    let mut i = lo;
    while i < hi
        invariant
            lo <= i <= hi <= cs.len(),
            n == cs@.subrange(lo as int, hi as int),
            forall|j: int| 0 <= j < i - lo ==> #[trigger] is_name_char(n[j]),
        decreases hi - i,
    {
        let c = cs[i];
        if !(('a' <= c && c <= 'z') || ('A' <= c && c <= 'Z') || ('0' <= c && c <= '9') || c == '-'
            || c == '_') {
            assert(!is_name_char(n[i - lo]));
            return false;
        }
        assert(n[i - lo] == c);
        i = i + 1;
    }
    true
}

/// Why a named line is refused (see [`entry_issue`]), as text.
fn issue_text(cs: &Vec<char>, nlo: usize, nhi: usize, clo: usize, chi: usize, procs: &StrMap<Process>) -> (r: Option<String>)
    requires
        nlo <= nhi <= cs.len(),
        clo <= chi <= cs.len(),
    ensures
        r matches Some(t) ==> entry_issue(procs@.map_values(|p: Process| p.command@), cs@.subrange(nlo as int, nhi as int), cs@.subrange(clo as int, chi as int)) == Some(t@),
        r is None ==> entry_issue(procs@.map_values(|p: Process| p.command@), cs@.subrange(nlo as int, nhi as int), cs@.subrange(clo as int, chi as int)) is None,
{
    let name = string_from(cs, nlo, nhi);
    let mut out = String::new();
    if !is_valid_name(cs, nlo, nhi) {
        append_str(&mut out, "invalid process name ");
        let q = debug_quote(name.as_str());
        append_str(&mut out, q.as_str());
        append_str(&mut out, " (expected letters, digits, \"-\", or \"_\")");
        return Some(out);
    }
    if clo == chi {
        append_str(&mut out, "process ");
        let q = debug_quote(name.as_str());
        append_str(&mut out, q.as_str());
        append_str(&mut out, " has no command");
        return Some(out);
    }
    if procs.contains_key(name.as_str()) {
        append_str(&mut out, "duplicate process name ");
        let q = debug_quote(name.as_str());
        append_str(&mut out, q.as_str());
        return Some(out);
    }
    None
}

/// Parses the plain foreman Procfile format: one `name: command` per line,
/// skipping blank and `#`-comment lines. No keys beyond the command.
pub fn parse_plain(data: &str, path: &str) -> (r: Result<Parsed, ConfigError>)
    requires
        data@.len() < usize::MAX,
    ensures
        match plain_lines(strip_bom(data@), 1, Map::empty()) {
            Ok(table) => r matches Ok(p) && p.global_env_file is None && p.global_env@ == Map::<
                Seq<char>,
                String,
            >::empty() && plain_table(&p.processes, table),
            Err((line, reason)) => r matches Err(ConfigError::Procfile { path: pp, line: l, reason: rr })
                && pp@ == path@ && l == line && rr@ == reason,
        },
{
    let cs = chars_of(data);
    let n = cs.len();
    // Strip a leading UTF-8 BOM, as editors on Windows often prepend one.
    let start: usize = if n > 0 && cs[0] == '\u{feff}' { 1 } else { 0 };
    assert(cs@.subrange(start as int, n as int) =~= strip_bom(data@));
    let mut procs: StrMap<Process> = StrMap::new();
    let ghost mut acc: Map<Seq<char>, Seq<char>> = Map::empty();
    let mut pos: usize = start;
    let mut line: usize = 1;
    while pos < n
        invariant
            start <= pos <= n,
            n == cs.len(),
            n < usize::MAX,
            1 <= line <= pos - start + 1,
            plain_lines(strip_bom(data@), 1, Map::empty()) == plain_lines(cs@.subrange(pos as int, n as int), line as int, acc),
            plain_table(&procs, acc),
            acc == procs@.map_values(|p: Process| p.command@),
        decreases n - pos,
    {
        let ghost s = cs@.subrange(pos as int, n as int);
        let e = find_char_in(&cs, pos, n, '\n');
        proof {
            lemma_find_char(s, '\n');
            assert(s.subrange(0, e - pos) =~= cs@.subrange(pos as int, e as int));
            if e < n {
                assert(s.subrange(e - pos + 1, s.len() as int) =~= cs@.subrange(e + 1, n as int));
            }
        }
        let next: usize = if e < n { e + 1 } else { n };
        proof {
            if e == n {
                assert(cs@.subrange(next as int, n as int) =~= Seq::<char>::empty());
            }
        }
        let (lo, hi) = trim_bounds(&cs, pos, e);
        let ghost t = cs@.subrange(lo as int, hi as int);
        if lo == hi || cs[lo] == '#' {
            proof {
                if lo < hi {
                    assert(t[0] == cs[lo as int]);
                }
            }
            pos = next;
            line = line + 1;
        } else {
            assert(t[0] == cs[lo as int]);
            let k = find_char_in(&cs, lo, hi, ':');
            if k == hi {
                let mut reason = String::new();
                append_str(&mut reason, "expected \"name: command\"");
                return Err(ConfigError::Procfile { path: path.to_string(), line, reason });
            }
            let (nlo, nhi) = trim_bounds(&cs, lo, k);
            let (clo, chi) = trim_bounds(&cs, k + 1, hi);
            proof {
                assert(t.subrange(0, k - lo) =~= cs@.subrange(lo as int, k as int));
                assert(t.subrange(k - lo + 1, t.len() as int) =~= cs@.subrange(k + 1, hi as int));
            }
            match issue_text(&cs, nlo, nhi, clo, chi, &procs) {
                Some(reason) => {
                    return Err(ConfigError::Procfile { path: path.to_string(), line, reason });
                },
                None => {},
            }
            let name = string_from(&cs, nlo, nhi);
            let cmd = string_from(&cs, clo, chi);
            let ghost nv = name@;
            let ghost cv = cmd@;
            let ghost old_procs = procs@;
            procs.insert(name, Process::with_command(cmd));
            proof {
                acc = acc.insert(nv, cv);
                assert(procs@.dom() =~= acc.dom());
                assert(acc =~= procs@.map_values(|p: Process| p.command@));
            }
            pos = next;
            line = line + 1;
        }
    }
    assert(cs@.subrange(pos as int, n as int) =~= Seq::<char>::empty());
    Ok(Parsed { global_env_file: None, global_env: StrMap::new(), processes: procs })
}


/// A top-level value of a TOML config, as far as the loader reads it.
pub enum TopValue {
    /// A string.
    Text(String),
    /// A table: each entry as text when it is a string (else `None`), and the
    /// table decoded as a process entry, or why it does not decode.
    Table { entries: StrMap<Option<String>>, process: Result<Process, String> },
    /// Any other value.
    Other,
}

/// The top-level keys that are settings rather than processes.
pub open spec fn is_setting(k: Seq<char>) -> bool {
    k == "env_file"@ || k == "environment"@
}

/// The first of the first `n` entries whose value is not a string.
pub open spec fn first_non_text(entries: &StrMap<Option<String>>, n: int) -> Option<int>
    decreases n,
{
    if n <= 0 {
        None
    } else {
        match first_non_text(entries, n - 1) {
            Some(i) => Some(i),
            None => if entries.vals()[n - 1] is None {
                Some(n - 1)
            } else {
                None
            },
        }
    }
}

/// The first of the first `n` top-level entries that is not a setting and not a
/// process table that decodes.
pub open spec fn first_bad_entry(top: &StrMap<TopValue>, n: int) -> Option<int>
    decreases n,
{
    if n <= 0 {
        None
    } else {
        match first_bad_entry(top, n - 1) {
            Some(i) => Some(i),
            None => if !is_setting(top.keys()[n - 1]) && !(top.vals()[n - 1] matches TopValue::Table {
                process: Ok(_),
                ..
            }) {
                Some(n - 1)
            } else {
                None
            },
        }
    }
}

/// The string entries of a table, as text.
pub open spec fn entries_text(entries: &StrMap<Option<String>>) -> Map<Seq<char>, Seq<char>> {
    Map::new(|k: Seq<char>| entries@.contains_key(k), |k: Seq<char>| entries@[k]->Some_0@)
}

/// The process tables among the top-level entries.
pub open spec fn process_tables(top: &StrMap<TopValue>) -> Map<Seq<char>, Process> {
    Map::new(
        |k: Seq<char>| top@.contains_key(k) && !is_setting(k),
        |k: Seq<char>| top@[k]->Table_process->Ok_0,
    )
}

/// What splitting a decoded TOML config yields: top-level `env_file` must be a
/// string and `environment` a table of strings; every other key must be a
/// process table that decodes. The first problem, in that order (processes in
/// name order), is reported.
pub open spec fn toml_ok(top: &StrMap<TopValue>, path: Seq<char>, r: Result<Parsed, ConfigError>) -> bool {
    if top@.contains_key("env_file"@) && !(top@["env_file"@] is Text) {
        r matches Err(ConfigError::EnvFileNotString { path: p }) && p@ == path
    } else if top@.contains_key("environment"@) && !(top@["environment"@] is Table) {
        r matches Err(ConfigError::EnvironmentNotTable { path: p }) && p@ == path
    } else if top@.contains_key("environment"@) && first_non_text(
        &top@["environment"@]->Table_entries,
        top@["environment"@]->Table_entries.keys().len() as int,
    ) is Some {
        r matches Err(ConfigError::EnvironmentValueNotString { path: p, key }) && p@ == path && key@
            == top@["environment"@]->Table_entries.keys()[first_non_text(
            &top@["environment"@]->Table_entries,
            top@["environment"@]->Table_entries.keys().len() as int,
        )->Some_0]
    } else {
        match first_bad_entry(top, top.keys().len() as int) {
            Some(i) => {
                if top.vals()[i] matches TopValue::Table { process: Err(_), .. } {
                    r matches Err(ConfigError::Process { path: p, name, message }) && p@ == path && name@
                        == top.keys()[i] && message@ == top.vals()[i]->Table_process->Err_0@
                } else {
                    r matches Err(ConfigError::UnknownTopLevelKey { path: p, key }) && p@ == path && key@
                        == top.keys()[i]
                }
            },
            None => {
                r matches Ok(parsed) && parsed.global_env_file == (if top@.contains_key("env_file"@) {
                    Some(top@["env_file"@]->Text_0)
                } else {
                    None
                }) && text_map(&parsed.global_env) == (if top@.contains_key("environment"@) {
                    entries_text(&top@["environment"@]->Table_entries)
                } else {
                    Map::empty()
                }) && parsed.processes@ == process_tables(top)
            },
        }
    }
}

/// Reads the string entries of the top-level `environment` table.
fn environment_table(entries: &StrMap<Option<String>>) -> (r: Result<StrMap<String>, String>)
    ensures
        match first_non_text(entries, entries.keys().len() as int) {
            Some(i) => r matches Err(k) && k@ == entries.keys()[i],
            None => r matches Ok(m) && text_map(&m) == entries_text(entries),
        },
{
    proof {
        use_type_invariant(entries);
        entries.lemma_view();
    }
    let mut out: StrMap<String> = StrMap::new();
    let n = entries.len();
    let mut i: usize = 0;
    while i < n
        invariant
            i <= n,
            n == entries.keys().len(),
            entries.wf(),
            entries.keys().len() == entries.vals().len(),
            first_non_text(entries, i as int) is None,
            forall|k: Seq<char>| #[trigger] out@.contains_key(k) <==> entries.keys().take(i as int).contains(k),
            forall|k: Seq<char>| #[trigger] out@.contains_key(k) ==> out@[k]@ == entries@[k]->Some_0@,
        decreases n - i,
    {
        proof {
            entries.lemma_view();
        }
        let ghost key = entries.keys()[i as int];
        match entries.value_at(i) {
            Some(v) => {
                out.insert(entries.key_at(i).clone(), v.clone());
                proof {
                    let t0 = entries.keys().take(i as int);
                    let t1 = entries.keys().take(i + 1);
                    assert(t1 =~= t0.push(key));
                    assert(entries@[key] == entries.vals()[i as int]);
                    assert forall|k: Seq<char>| #[trigger] out@.contains_key(k) <==> t1.contains(k) by {
                        if t0.contains(k) {
                            let q = t0.index_of(k);
                            assert(t1[q] == k);
                        }
                        if k == key {
                            assert(t1[i as int] == k);
                        }
                        if t1.contains(k) && k != key {
                            let q = t1.index_of(k);
                            assert(t0[q] == k);
                        }
                    }
                }
            },
            None => {
                proof {
                    lemma_first_non_text_at(entries, n as int, i as int);
                }
                return Err(entries.key_at(i).clone());
            },
        }
        i = i + 1;
    }
    proof {
        entries.lemma_view();
        assert(entries.keys().take(n as int) =~= entries.keys());
        assert(text_map(&out) =~= entries_text(entries));
    }
    Ok(out)
}

/// Splits a decoded TOML config into its top-level `env_file`/`environment`
/// settings and its process tables; other scalar keys are rejected.
pub fn parse_toml(top: StrMap<TopValue>, path: &str) -> (r: Result<Parsed, ConfigError>)
    ensures
        toml_ok(&top, path@, r),
{
    proof {
        use_type_invariant(&top);
        top.lemma_view();
    }
    let ghost gt = top;
    let global_env_file: Option<String> = match top.get("env_file") {
        None => None,
        Some(TopValue::Text(s)) => Some(s.clone()),
        Some(_) => {
            return Err(ConfigError::EnvFileNotString { path: path.to_owned() });
        },
    };
    proof {
        reveal_strlit("env_file");
        reveal_strlit("environment");
    }
    let global_env: StrMap<String> = match top.get("environment") {
        None => StrMap::new(),
        Some(TopValue::Table { entries, .. }) => match environment_table(entries) {
            Ok(m) => m,
            Err(key) => {
                return Err(ConfigError::EnvironmentValueNotString { path: path.to_owned(), key });
            },
        },
        Some(_) => {
            return Err(ConfigError::EnvironmentNotTable { path: path.to_owned() });
        },
    };
    let ghost keys = top.keys();
    let ghost vals = top.vals();
    let n = top.len();
    let mut es = top.into_entries();
    let ghost all = es@;
    let mut processes: StrMap<Process> = StrMap::new();
    let mut i: usize = 0;
    while i < n
        invariant
            i <= n,
            n == keys.len(),
            keys == gt.keys(),
            vals == gt.vals(),
            gt.wf(),
            keys.len() == vals.len(),
            all.map_values(|e: (String, TopValue)| e.0@) == keys,
            all.map_values(|e: (String, TopValue)| e.1) == vals,
            es@ == all.subrange(i as int, n as int),
            first_bad_entry(&gt, i as int) is None,
            gt == top,
            !(gt@.contains_key("env_file"@) && !(gt@["env_file"@] is Text)),
            !(gt@.contains_key("environment"@) && !(gt@["environment"@] is Table)),
            !(gt@.contains_key("environment"@) && first_non_text(
                &gt@["environment"@]->Table_entries,
                gt@["environment"@]->Table_entries.keys().len() as int,
            ) is Some),
            global_env_file == (if gt@.contains_key("env_file"@) {
                Some(gt@["env_file"@]->Text_0)
            } else {
                None
            }),
            text_map(&global_env) == (if gt@.contains_key("environment"@) {
                entries_text(&gt@["environment"@]->Table_entries)
            } else {
                Map::empty()
            }),
            forall|k: Seq<char>| #[trigger] processes@.contains_key(k) <==> (keys.take(i as int).contains(k) && !is_setting(k)),
            forall|k: Seq<char>| #[trigger] processes@.contains_key(k) ==> processes@[k] == gt@[k]->Table_process->Ok_0,
        decreases n - i,
    {
        let (name, value) = es.remove(0);
        proof {
            assert(all[i as int].0@ == keys[i as int]);
            assert(all[i as int].1 == vals[i as int]);
            gt.lemma_view();
            assert(gt@[keys[i as int]] == vals[i as int]);
        }
        let setting = str_eq(name.as_str(), "env_file") || str_eq(name.as_str(), "environment");
        let ghost t0 = keys.take(i as int);
        let ghost t1 = keys.take(i + 1);
        assert(t1 =~= t0.push(keys[i as int]));
        if !setting {
            match value {
                TopValue::Table { process: Ok(p), .. } => {
                    processes.insert(name, p);
                },
                TopValue::Table { process: Err(message), .. } => {
                    proof {
                        lemma_first_bad_at(&gt, n as int, i as int);
                    }
                    return Err(ConfigError::Process { path: path.to_owned(), name, message });
                },
                _ => {
                    proof {
                        lemma_first_bad_at(&gt, n as int, i as int);
                    }
                    return Err(ConfigError::UnknownTopLevelKey { path: path.to_owned(), key: name });
                },
            }
        }
        proof {
            assert forall|k: Seq<char>| #[trigger] processes@.contains_key(k) <==> (t1.contains(k) && !is_setting(k)) by {
                if t0.contains(k) {
                    let q = t0.index_of(k);
                    assert(t1[q] == k);
                }
                if k == keys[i as int] {
                    assert(t1[i as int] == k);
                }
                if t1.contains(k) && k != keys[i as int] {
                    let q = t1.index_of(k);
                    assert(t0[q] == k);
                }
            }
        }
        i = i + 1;
        assert(es@ =~= all.subrange(i as int, n as int));
    }
    proof {
        gt.lemma_view();
        assert(keys.take(n as int) =~= keys);
        assert(processes@ =~= process_tables(&gt));
    }
    Ok(Parsed { global_env_file, global_env, processes })
}

/// The first non-string entry is the first one that is not a string.
proof fn lemma_first_non_text_at(entries: &StrMap<Option<String>>, n: int, i: int)
    requires
        first_non_text(entries, i) is None,
        0 <= i < n,
        entries.vals()[i] is None,
    ensures
        first_non_text(entries, n) == Some(i),
    decreases n,
{
    if i < n - 1 {
        lemma_first_non_text_at(entries, n - 1, i);
    }
}

/// The first bad entry is the first one that is bad.
proof fn lemma_first_bad_at(top: &StrMap<TopValue>, n: int, i: int)
    requires
        first_bad_entry(top, i) is None,
        0 <= i < n,
        !is_setting(top.keys()[i]),
        !(top.vals()[i] matches TopValue::Table { process: Ok(_), .. }),
    ensures
        first_bad_entry(top, n) == Some(i),
    decreases n,
{
    if i < n - 1 {
        lemma_first_bad_at(top, n - 1, i);
    }
}

} // verus!
