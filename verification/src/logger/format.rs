//! Prefix text: the `tag [LEVEL]` label of leveled lines, padding to a shared
//! width, the ` | ` divider, and the width every prefix aligns to.
use vstd::prelude::*;

use super::level::{LogLevel, spec_label};
use crate::config::graph::strs;
use crate::text::{append_str, chars_of, push_char};

verus! {

/// Tag for the logger's own (system) messages.
pub open spec fn system_tag() -> Seq<char> {
    "system"@
}

/// The displayed tag for a leveled message, e.g. `system [WARN]`.
pub open spec fn spec_leveled_tag(tag: Seq<char>, level: LogLevel) -> Seq<char> {
    tag + " ["@ + spec_label(level) + "]"@
}

/// `n` spaces.
pub open spec fn spaces(n: int) -> Seq<char> {
    Seq::new(if n > 0 { n as nat } else { 0 }, |i: int| ' ')
}

/// `s` right-padded with spaces to at least `width` characters.
pub open spec fn spec_pad(s: Seq<char>, width: int) -> Seq<char> {
    s + spaces(width - s.len())
}

/// The plain prefix of a log line: `label` padded to `width`, then ` | `.
pub open spec fn spec_line_prefix(label: Seq<char>, width: int) -> Seq<char> {
    spec_pad(label, width) + " | "@
}

/// The widest of the first `n` lengths, at least `floor`.
pub open spec fn widest(lens: Seq<int>, n: int, floor: int) -> int
    decreases n,
{
    if n <= 0 {
        floor
    } else {
        let w = widest(lens, n - 1, floor);
        if lens[n - 1] > w {
            lens[n - 1]
        } else {
            w
        }
    }
}

/// The width of the widest system prefix, `system [DEBUG]` and its peers.
pub open spec fn system_width() -> int {
    widest(
        seq![LogLevel::Debug, LogLevel::Info, LogLevel::Warn, LogLevel::Error].map_values(
            |l: LogLevel| spec_leveled_tag(system_tag(), l).len() as int,
        ),
        4,
        0,
    )
}

/// The pad width that fits every label plus the widest system prefix.
pub open spec fn spec_prefix_width(labels: Seq<Seq<char>>) -> int {
    widest(labels.map_values(|l: Seq<char>| l.len() as int), labels.len() as int, system_width())
}

/// The displayed tag for a leveled message, e.g. `system [WARN]`.
pub fn leveled_tag(tag: &str, level: LogLevel) -> (s: String)
    ensures
        s@ == spec_leveled_tag(tag@, level),
{
    let mut s = String::new();
    append_str(&mut s, tag);
    append_str(&mut s, " [");
    append_str(&mut s, level.label());
    append_str(&mut s, "]");
    assert(s@ =~= spec_leveled_tag(tag@, level));
    s
}

/// Right-pads `s` with spaces to at least `width` columns.
pub fn pad(s: &str, width: usize) -> (out: String)
    ensures
        out@ == spec_pad(s@, width as int),
{
    let mut out = String::new();
    append_str(&mut out, s);
    let n = chars_of(s).len();
    let mut k = n;
    while k < width
        invariant
            n == s@.len(),
            k >= n,
            k == n || k <= width,
            out@ == s@ + spaces(k - n),
        decreases width - k,
    {
        push_char(&mut out, ' ');
        assert(spaces(k - n).push(' ') =~= spaces(k + 1 - n));
        k = k + 1;
    }
    assert(spaces(k - n) =~= spaces(width - n));
    assert(out@ =~= spec_pad(s@, width as int));
    out
}

/// The plain, uncolored prefix for a log line: `label` padded to `width`, then
/// the ` | ` divider. Shared by stream output and a combined UI view.
pub fn line_prefix(label: &str, width: usize) -> (out: String)
    ensures
        out@ == spec_line_prefix(label@, width as int),
{
    let mut out = pad(label, width);
    append_str(&mut out, " | ");
    out
}

/// Pad width that fits every `labels` entry plus the system writer's widest
/// leveled prefix (`system [DEBUG]`), so all prefixes align.
pub fn prefix_width(labels: &Vec<String>) -> (w: usize)
    ensures
        w == spec_prefix_width(strs(labels@)),
{
    let levels = LogLevel::all();
    let ghost lens = levels@.map_values(|l: LogLevel| spec_leveled_tag(system_tag(), l).len() as int);
    assert(levels@ == seq![LogLevel::Debug, LogLevel::Info, LogLevel::Warn, LogLevel::Error]);
    let mut sys: usize = 0;
    let mut i: usize = 0;
    while i < 4
        invariant
            i <= 4,
            levels@ == seq![LogLevel::Debug, LogLevel::Info, LogLevel::Warn, LogLevel::Error],
            lens == levels@.map_values(|l: LogLevel| spec_leveled_tag(system_tag(), l).len() as int),
            sys == widest(lens, i as int, 0),
        decreases 4 - i,
    {
        let n = chars_of(leveled_tag("system", levels[i]).as_str()).len();
        assert(lens[i as int] == n);
        if n > sys {
            sys = n;
        }
        i = i + 1;
    }
    assert(sys == system_width());
    let ghost ls = strs(labels@).map_values(|l: Seq<char>| l.len() as int);
    let mut w = sys;
    let mut j: usize = 0;
    while j < labels.len()
        invariant
            j <= labels.len(),
            ls == strs(labels@).map_values(|l: Seq<char>| l.len() as int),
            w == widest(ls, j as int, system_width()),
        decreases labels.len() - j,
    {
        let n = chars_of(labels[j].as_str()).len();
        assert(ls[j as int] == n);
        if n > w {
            w = n;
        }
        j = j + 1;
    }
    w
}

} // verus!
