//! The terminal's background polarity and the colors chosen for it, plus the
//! parser for user-configured colors (`red`, `bright-green`, `#rrggbb`).
use vstd::prelude::*;

use crate::text::{chars_of, str_eq, string_of, trim, trim_bounds, lower, to_lower};

verus! {

/// The sixteen named ANSI colors.
#[derive(Clone, Copy, Debug, PartialEq, Eq, Structural)]
pub enum AnsiColor {
    Black,
    Red,
    Green,
    Yellow,
    Blue,
    Magenta,
    Cyan,
    White,
    BrightBlack,
    BrightRed,
    BrightGreen,
    BrightYellow,
    BrightBlue,
    BrightMagenta,
    BrightCyan,
    BrightWhite,
}

/// A terminal color: a named ANSI color, a 256-color palette index, or RGB.
#[derive(Clone, Copy, Debug, PartialEq, Eq, Structural)]
pub enum Color {
    Ansi(AnsiColor),
    Ansi256(u8),
    Rgb(u8, u8, u8),
}

/// Whether the terminal has a dark or light background.
#[derive(Clone, Copy, Debug, PartialEq, Eq, Structural)]
pub enum Theme {
    Dark,
    Light,
}

impl Default for Theme {
    /// A dark background, the common terminal default.
    fn default() -> (t: Theme)
        ensures
            t == Theme::Dark,
    {
        Theme::Dark
    }
}

/// The per-service palette for a background.
pub open spec fn spec_palette(t: Theme) -> Seq<AnsiColor> {
    match t {
        // Dark background: bright hues first; normals (dimmer on black) trail.
        Theme::Dark => seq![
            AnsiColor::BrightRed,
            AnsiColor::BrightYellow,
            AnsiColor::BrightGreen,
            AnsiColor::BrightCyan,
            AnsiColor::BrightMagenta,
            AnsiColor::BrightBlue,
            AnsiColor::Red,
            AnsiColor::Yellow,
            AnsiColor::Green,
            AnsiColor::Cyan,
        ],
        // Light background: saturated normals first; brights (washed out on white) trail.
        Theme::Light => seq![
            AnsiColor::Red,
            AnsiColor::Yellow,
            AnsiColor::Green,
            AnsiColor::Cyan,
            AnsiColor::Magenta,
            AnsiColor::Blue,
            AnsiColor::BrightRed,
            AnsiColor::BrightYellow,
            AnsiColor::BrightGreen,
            AnsiColor::BrightCyan,
        ],
    }
}

/// A subdued but legible neutral.
pub open spec fn spec_subtle(t: Theme) -> Color {
    match t {
        Theme::Dark => Color::Ansi(AnsiColor::White),
        Theme::Light => Color::Ansi(AnsiColor::BrightBlack),
    }
}

/// The faintest neutral.
pub open spec fn spec_faint(t: Theme) -> Color {
    match t {
        Theme::Dark => Color::Ansi(AnsiColor::BrightBlack),
        Theme::Light => Color::Ansi256(245),
    }
}

/// The success (green) accent.
pub open spec fn spec_success(t: Theme) -> Color {
    match t {
        Theme::Dark => Color::Ansi(AnsiColor::BrightGreen),
        Theme::Light => Color::Ansi(AnsiColor::Green),
    }
}

/// The warning (yellow) accent.
pub open spec fn spec_warning(t: Theme) -> Color {
    match t {
        Theme::Dark => Color::Ansi(AnsiColor::BrightYellow),
        Theme::Light => Color::Ansi(AnsiColor::Yellow),
    }
}

/// The error (red) accent.
pub open spec fn spec_error(t: Theme) -> Color {
    match t {
        Theme::Dark => Color::Ansi(AnsiColor::BrightRed),
        Theme::Light => Color::Ansi(AnsiColor::Red),
    }
}

impl Theme {
    /// The per-service palette.
    pub fn palette(self) -> (p: Vec<AnsiColor>)
        ensures
            p@ == spec_palette(self),
    {
        let mut p: Vec<AnsiColor> = Vec::new();
        match self {
            Theme::Dark => {
                p.push(AnsiColor::BrightRed);
                p.push(AnsiColor::BrightYellow);
                p.push(AnsiColor::BrightGreen);
                p.push(AnsiColor::BrightCyan);
                p.push(AnsiColor::BrightMagenta);
                p.push(AnsiColor::BrightBlue);
                p.push(AnsiColor::Red);
                p.push(AnsiColor::Yellow);
                p.push(AnsiColor::Green);
                p.push(AnsiColor::Cyan);
            },
            Theme::Light => {
                p.push(AnsiColor::Red);
                p.push(AnsiColor::Yellow);
                p.push(AnsiColor::Green);
                p.push(AnsiColor::Cyan);
                p.push(AnsiColor::Magenta);
                p.push(AnsiColor::Blue);
                p.push(AnsiColor::BrightRed);
                p.push(AnsiColor::BrightYellow);
                p.push(AnsiColor::BrightGreen);
                p.push(AnsiColor::BrightCyan);
            },
        }
        assert(p@ =~= spec_palette(self));
        p
    }

    /// A subdued but legible neutral: notes, info, dividers, idle status.
    pub fn subtle(self) -> (c: Color)
        ensures
            c == spec_subtle(self),
    {
        match self {
            Theme::Dark => Color::Ansi(AnsiColor::White),
            Theme::Light => Color::Ansi(AnsiColor::BrightBlack),
        }
    }

    /// The faintest neutral (debug), below [`Theme::subtle`]; a 256-color
    /// mid-gray on light, where no 16-color slot fits.
    pub fn faint(self) -> (c: Color)
        ensures
            c == spec_faint(self),
    {
        match self {
            Theme::Dark => Color::Ansi(AnsiColor::BrightBlack),
            Theme::Light => Color::Ansi256(245),
        }
    }

    /// A running or completed service (green).
    pub fn success(self) -> (c: Color)
        ensures
            c == spec_success(self),
    {
        match self {
            Theme::Dark => Color::Ansi(AnsiColor::BrightGreen),
            Theme::Light => Color::Ansi(AnsiColor::Green),
        }
    }

    /// Warnings, and the unread-output marker (yellow).
    pub fn warning(self) -> (c: Color)
        ensures
            c == spec_warning(self),
    {
        match self {
            Theme::Dark => Color::Ansi(AnsiColor::BrightYellow),
            Theme::Light => Color::Ansi(AnsiColor::Yellow),
        }
    }

    /// Errors (red).
    pub fn error(self) -> (c: Color)
        ensures
            c == spec_error(self),
    {
        match self {
            Theme::Dark => Color::Ansi(AnsiColor::BrightRed),
            Theme::Light => Color::Ansi(AnsiColor::Red),
        }
    }
}

/// The ANSI color a canonical (lowercase, hyphenated) name denotes.
pub open spec fn named_color(n: Seq<char>) -> Option<AnsiColor> {
    if n == "black"@ {
        Some(AnsiColor::Black)
    } else if n == "red"@ {
        Some(AnsiColor::Red)
    } else if n == "green"@ {
        Some(AnsiColor::Green)
    } else if n == "yellow"@ {
        Some(AnsiColor::Yellow)
    } else if n == "blue"@ {
        Some(AnsiColor::Blue)
    } else if n == "magenta"@ {
        Some(AnsiColor::Magenta)
    } else if n == "cyan"@ {
        Some(AnsiColor::Cyan)
    } else if n == "white"@ {
        Some(AnsiColor::White)
    } else if n == "bright-black"@ {
        Some(AnsiColor::BrightBlack)
    } else if n == "bright-red"@ {
        Some(AnsiColor::BrightRed)
    } else if n == "bright-green"@ {
        Some(AnsiColor::BrightGreen)
    } else if n == "bright-yellow"@ {
        Some(AnsiColor::BrightYellow)
    } else if n == "bright-blue"@ {
        Some(AnsiColor::BrightBlue)
    } else if n == "bright-magenta"@ {
        Some(AnsiColor::BrightMagenta)
    } else if n == "bright-cyan"@ {
        Some(AnsiColor::BrightCyan)
    } else if n == "bright-white"@ {
        Some(AnsiColor::BrightWhite)
    } else {
        None
    }
}

/// An ASCII hexadecimal digit.
pub open spec fn is_hex(c: char) -> bool {
    ('0' <= c && c <= '9') || ('a' <= c && c <= 'f') || ('A' <= c && c <= 'F')
}

/// The value of a hexadecimal digit.
pub open spec fn hex_val(c: char) -> int {
    if '0' <= c && c <= '9' {
        c as int - '0' as int
    } else if 'a' <= c && c <= 'f' {
        c as int - 'a' as int + 10
    } else {
        c as int - 'A' as int + 10
    }
}

/// The byte spelled by the two hex digits at `i` and `i + 1`.
pub open spec fn hex_byte(h: Seq<char>, i: int) -> u8 {
    (hex_val(h[i]) * 16 + hex_val(h[i + 1])) as u8
}

/// `rrggbb`: exactly six hex digits, read as an RGB color.
pub open spec fn spec_parse_hex(h: Seq<char>) -> Option<Color> {
    if h.len() == 6 && forall|i: int| 0 <= i < 6 ==> #[trigger] is_hex(h[i]) {
        Some(Color::Rgb(hex_byte(h, 0), hex_byte(h, 2), hex_byte(h, 4)))
    } else {
        None
    }
}

/// ASCII-lowercased, with `_` read as `-`.
pub open spec fn canonical_name(v: Seq<char>) -> Seq<char> {
    v.map_values(|c: char| if c == '_' { '-' } else { lower(c) })
}

/// What a configured color denotes: after trimming, `#rrggbb` hex or one of
/// the sixteen names (case-insensitive, `_` or `-` between words).
pub open spec fn spec_parse_color(s: Seq<char>) -> Option<Color> {
    let v = trim(s);
    if v.len() > 0 && v[0] == '#' {
        spec_parse_hex(v.drop_first())
    } else {
        match named_color(canonical_name(v)) {
            Some(a) => Some(Color::Ansi(a)),
            None => None,
        }
    }
}

/// The ANSI color named `n` (already canonical), if any.
fn ansi_named(n: &str) -> (r: Option<AnsiColor>)
    ensures
        r == named_color(n@),
{
    if str_eq(n, "black") {
        Some(AnsiColor::Black)
    } else if str_eq(n, "red") {
        Some(AnsiColor::Red)
    } else if str_eq(n, "green") {
        Some(AnsiColor::Green)
    } else if str_eq(n, "yellow") {
        Some(AnsiColor::Yellow)
    } else if str_eq(n, "blue") {
        Some(AnsiColor::Blue)
    } else if str_eq(n, "magenta") {
        Some(AnsiColor::Magenta)
    } else if str_eq(n, "cyan") {
        Some(AnsiColor::Cyan)
    } else if str_eq(n, "white") {
        Some(AnsiColor::White)
    } else if str_eq(n, "bright-black") {
        Some(AnsiColor::BrightBlack)
    } else if str_eq(n, "bright-red") {
        Some(AnsiColor::BrightRed)
    } else if str_eq(n, "bright-green") {
        Some(AnsiColor::BrightGreen)
    } else if str_eq(n, "bright-yellow") {
        Some(AnsiColor::BrightYellow)
    } else if str_eq(n, "bright-blue") {
        Some(AnsiColor::BrightBlue)
    } else if str_eq(n, "bright-magenta") {
        Some(AnsiColor::BrightMagenta)
    } else if str_eq(n, "bright-cyan") {
        Some(AnsiColor::BrightCyan)
    } else if str_eq(n, "bright-white") {
        Some(AnsiColor::BrightWhite)
    } else {
        None
    }
}

/// The value of one hex digit.
fn hex_digit(c: char) -> (v: u8)
    requires
        is_hex(c),
    ensures
        v == hex_val(c),
        v < 16,
{
    let u = c as u32;
    if '0' <= c && c <= '9' {
        (u - 0x30) as u8
    } else if 'a' <= c && c <= 'f' {
        (u - 0x61 + 10) as u8
    } else {
        (u - 0x41 + 10) as u8
    }
}

/// Parses the six hex digits `cs[lo..hi]` into an RGB color.
fn parse_hex(cs: &Vec<char>, lo: usize, hi: usize) -> (r: Option<Color>)
    requires
        lo <= hi <= cs.len(),
    ensures
        r == spec_parse_hex(cs@.subrange(lo as int, hi as int)),
{
    let ghost h = cs@.subrange(lo as int, hi as int);
    if hi - lo != 6 {
        return None;
    }
    let mut i: usize = lo;
    while i < hi
        invariant
            lo <= i <= hi <= cs.len(),
            hi - lo == 6,
            h == cs@.subrange(lo as int, hi as int),
            forall|j: int| 0 <= j < i - lo ==> #[trigger] is_hex(h[j]),
        decreases hi - i,
    {
        let c = cs[i];
        if !(('0' <= c && c <= '9') || ('a' <= c && c <= 'f') || ('A' <= c && c <= 'F')) {
            assert(!is_hex(h[i - lo]));
            return None;
        }
        assert(h[i - lo] == c);
        i = i + 1;
    }
    proof {
        assert(is_hex(h[0]) && is_hex(h[1]) && is_hex(h[2]) && is_hex(h[3]) && is_hex(h[4]) && is_hex(h[5]));
    }
    let r0 = hex_digit(cs[lo]) * 16 + hex_digit(cs[lo + 1]);
    let g0 = hex_digit(cs[lo + 2]) * 16 + hex_digit(cs[lo + 3]);
    let b0 = hex_digit(cs[lo + 4]) * 16 + hex_digit(cs[lo + 5]);
    proof {
        assert(h[0] == cs[lo as int]);
        assert(h[1] == cs[lo + 1]);
        assert(h[2] == cs[lo + 2]);
        assert(h[3] == cs[lo + 3]);
        assert(h[4] == cs[lo + 4]);
        assert(h[5] == cs[lo + 5]);
    }
    Some(Color::Rgb(r0, g0, b0))
}

/// Parses a color: a named ANSI color (`red`, `bright-green`, … the 16) or
/// `#rrggbb` hex. Returns `None` for an unrecognized value, which validation reports.
pub fn parse_color(s: &str) -> (r: Option<Color>)
    ensures
        r == spec_parse_color(s@),
{
    let cs = chars_of(s);
    let (lo, hi) = trim_bounds(&cs, 0, cs.len());
    assert(cs@.subrange(0, cs@.len() as int) =~= s@);
    let ghost v = cs@.subrange(lo as int, hi as int);
    if lo < hi && cs[lo] == '#' {
        assert(v.drop_first() =~= cs@.subrange(lo + 1, hi as int));
        return parse_hex(&cs, lo + 1, hi);
    }
    let mut named: Vec<char> = Vec::new();
    let mut i: usize = lo;
    while i < hi
        invariant
            lo <= i <= hi <= cs.len(),
            v == cs@.subrange(lo as int, hi as int),
            named@ == canonical_name(v.take(i - lo)),
        decreases hi - i,
    {
        let c = cs[i];
        let m = if c == '_' { '-' } else { to_lower(c) };
        named.push(m);
        assert(v.take(i + 1 - lo) =~= v.take(i - lo).push(c));
        assert(named@ =~= canonical_name(v.take(i + 1 - lo)));
        i = i + 1;
    }
    assert(v.take(hi - lo) =~= v);
    let n = string_of(&named);
    match ansi_named(n.as_str()) {
        Some(a) => Some(Color::Ansi(a)),
        None => None,
    }
}

} // verus!
