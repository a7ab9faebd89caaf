//! Log severity for leveled messages: ordering, labels, and the emphasis and
//! color each level renders with.
use vstd::prelude::*;

use crate::text::{append_str, chars_of, lower_seq, str_eq, string_of, to_lower};
use crate::theme::{Color, Theme};

verus! {

/// Severity of a leveled log message. A line is emitted only when its level is
/// at or above the configured threshold; ordering follows the declaration order.
#[derive(Clone, Copy, Debug, PartialEq, Eq, Structural, PartialOrd, Ord, Hash)]
pub enum LogLevel {
    Debug,
    Info,
    Warn,
    Error,
}

/// How a level's text is emphasized, independent of color; the single source
/// of the dim/normal/bold policy for every renderer (stream and TUI).
#[derive(Clone, Copy, Debug, PartialEq, Eq, Structural)]
pub enum Emphasis {
    Dim,
    Normal,
    Bold,
}

/// A level's position in the order `Debug < Info < Warn < Error`.
pub open spec fn spec_rank(l: LogLevel) -> int {
    match l {
        LogLevel::Debug => 0,
        LogLevel::Info => 1,
        LogLevel::Warn => 2,
        LogLevel::Error => 3,
    }
}

/// The uppercase label of a level.
pub open spec fn spec_label(l: LogLevel) -> Seq<char> {
    match l {
        LogLevel::Debug => "DEBUG"@,
        LogLevel::Info => "INFO"@,
        LogLevel::Warn => "WARN"@,
        LogLevel::Error => "ERROR"@,
    }
}

/// The level a (lowercased) name denotes: its own name, or `warning` for `Warn`.
pub open spec fn spec_named_level(n: Seq<char>) -> Option<LogLevel> {
    if n == "debug"@ {
        Some(LogLevel::Debug)
    } else if n == "info"@ {
        Some(LogLevel::Info)
    } else if n == "warn"@ || n == "warning"@ {
        Some(LogLevel::Warn)
    } else if n == "error"@ {
        Some(LogLevel::Error)
    } else {
        None
    }
}

impl LogLevel {
    /// Every level, lowest to highest.
    pub fn all() -> (v: Vec<LogLevel>)
        ensures
            v@ == seq![LogLevel::Debug, LogLevel::Info, LogLevel::Warn, LogLevel::Error],
    {
        let mut v: Vec<LogLevel> = Vec::new();
        v.push(LogLevel::Debug);
        v.push(LogLevel::Info);
        v.push(LogLevel::Warn);
        v.push(LogLevel::Error);
        assert(v@ =~= seq![LogLevel::Debug, LogLevel::Info, LogLevel::Warn, LogLevel::Error]);
        v
    }

    /// The level's position in the order, lowest first.
    pub fn rank(self) -> (r: u8)
        ensures
            r == spec_rank(self),
    {
        match self {
            LogLevel::Debug => 0,
            LogLevel::Info => 1,
            LogLevel::Warn => 2,
            LogLevel::Error => 3,
        }
    }

    /// Whether a line at this level passes the threshold `min`.
    pub fn at_least(self, min: LogLevel) -> (b: bool)
        ensures
            b == (spec_rank(self) >= spec_rank(min)),
    {
        self.rank() >= min.rank()
    }

    /// The uppercase label shown in the log prefix (e.g. `INFO`).
    pub fn label(self) -> (s: &'static str)
        ensures
            s@ == spec_label(self),
    {
        match self {
            LogLevel::Debug => "DEBUG",
            LogLevel::Info => "INFO",
            LogLevel::Warn => "WARN",
            LogLevel::Error => "ERROR",
        }
    }

    /// The dim/normal/bold emphasis for lines at this level.
    pub fn emphasis(self) -> (e: Emphasis)
        ensures
            e == (match self {
                LogLevel::Debug | LogLevel::Info => Emphasis::Dim,
                LogLevel::Warn => Emphasis::Normal,
                LogLevel::Error => Emphasis::Bold,
            }),
    {
        match self {
            LogLevel::Debug | LogLevel::Info => Emphasis::Dim,
            LogLevel::Warn => Emphasis::Normal,
            LogLevel::Error => Emphasis::Bold,
        }
    }

    /// The representative prefix color for this level on `theme`, each shade
    /// picked to stay legible on the terminal background.
    pub fn color(self, theme: Theme) -> (c: Color)
        ensures
            c == (match self {
                LogLevel::Debug => crate::theme::spec_faint(theme),
                LogLevel::Info => crate::theme::spec_subtle(theme),
                LogLevel::Warn => crate::theme::spec_warning(theme),
                LogLevel::Error => crate::theme::spec_error(theme),
            }),
    {
        match self {
            LogLevel::Debug => theme.faint(),
            LogLevel::Info => theme.subtle(),
            LogLevel::Warn => theme.warning(),
            LogLevel::Error => theme.error(),
        }
    }

    /// Reads a level name, case-insensitively (`warning` also names `Warn`).
    pub fn parse(s: &str) -> (r: Result<LogLevel, String>)
        ensures
            match spec_named_level(lower_seq(s@)) {
                Some(l) => r == Ok::<LogLevel, String>(l),
                None => r matches Err(m) && m@ == "invalid log level '"@ + s@
                    + "' (expected one of: debug, info, warn, error)"@,
            },
    {
        let cs = chars_of(s);
        let mut low: Vec<char> = Vec::new();
        let mut i: usize = 0;
        while i < cs.len()
            invariant
                i <= cs.len(),
                cs@ == s@,
                low@ == lower_seq(s@).take(i as int),
            decreases cs.len() - i,
        {
            low.push(to_lower(cs[i]));
            i = i + 1;
            assert(low@ =~= lower_seq(s@).take(i as int));
        }
        assert(lower_seq(s@).take(cs.len() as int) =~= lower_seq(s@));
        let n = string_of(&low);
        if str_eq(n.as_str(), "debug") {
            Ok(LogLevel::Debug)
        } else if str_eq(n.as_str(), "info") {
            Ok(LogLevel::Info)
        } else if str_eq(n.as_str(), "warn") || str_eq(n.as_str(), "warning") {
            Ok(LogLevel::Warn)
        } else if str_eq(n.as_str(), "error") {
            Ok(LogLevel::Error)
        } else {
            let mut m = String::new();
            append_str(&mut m, "invalid log level '");
            append_str(&mut m, s);
            append_str(&mut m, "' (expected one of: debug, info, warn, error)");
            Err(m)
        }
    }
}

impl std::str::FromStr for LogLevel {
    type Err = String;

    /// See [`LogLevel::parse`].
    fn from_str(s: &str) -> (r: Result<LogLevel, String>)
        ensures
            match spec_named_level(lower_seq(s@)) {
                Some(l) => r == Ok::<LogLevel, String>(l),
                None => r matches Err(m) && m@ == "invalid log level '"@ + s@
                    + "' (expected one of: debug, info, warn, error)"@,
            },
    {
        LogLevel::parse(s)
    }
}


/// Reading a level's label back, in any case, gives the level.
pub proof fn lemma_parse_label(l: LogLevel)
    ensures
        spec_named_level(lower_seq(spec_label(l))) == Some(l),
{
    reveal_strlit("DEBUG");
    reveal_strlit("INFO");
    reveal_strlit("WARN");
    reveal_strlit("ERROR");
    reveal_strlit("debug");
    reveal_strlit("info");
    reveal_strlit("warn");
    reveal_strlit("warning");
    reveal_strlit("error");
    match l {
        LogLevel::Debug => {
            assert(lower_seq("DEBUG"@) =~= "debug"@);
        },
        LogLevel::Info => {
            assert(lower_seq("INFO"@) =~= "info"@);
            assert("info"@ != "debug"@);
        },
        LogLevel::Warn => {
            assert(lower_seq("WARN"@) =~= "warn"@);
            assert("warn"@ != "debug"@);
            assert("warn"@[0] != "info"@[0]);
        },
        LogLevel::Error => {
            assert(lower_seq("ERROR"@) =~= "error"@);
            assert("error"@[0] != "debug"@[0]);
            assert("error"@[0] != "info"@[0]);
            assert("error"@[0] != "warn"@[0]);
            assert("error"@ != "warning"@);
        },
    }
}

/// Severity rises strictly in declaration order, Debug < Info < Warn < Error,
/// so a level is at least another exactly when it comes at or after it in that
/// order: an error passes every threshold, and only errors pass `error`.
pub proof fn lemma_levels_ordered(l: LogLevel, m: LogLevel)
    ensures
        spec_rank(LogLevel::Debug) < spec_rank(LogLevel::Info),
        spec_rank(LogLevel::Info) < spec_rank(LogLevel::Warn),
        spec_rank(LogLevel::Warn) < spec_rank(LogLevel::Error),
        (spec_rank(l) >= spec_rank(m)) <==> (m == LogLevel::Debug || l == m || (m == LogLevel::Info && (l
            == LogLevel::Warn || l == LogLevel::Error)) || (m == LogLevel::Warn && l == LogLevel::Error)),
{
}

} // verus!
