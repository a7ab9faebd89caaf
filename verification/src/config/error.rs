//! What can go wrong while loading, validating, or filtering a config, and the
//! non-fatal concerns a valid config may still raise.
use vstd::prelude::*;

use crate::text::{append_str, debug_quote, debug_str, decimal, decimal_of_u64};

verus! {

/// Errors produced while loading, validating, or filtering a config. Paths are
/// kept as written; messages of the reading and decoding layers come as text.
#[derive(Clone, Debug)]
pub enum ConfigError {
    /// The config file could not be read.
    Read { path: String, message: String },
    /// The config file is not valid TOML.
    Toml { path: String, message: String },
    /// A top-level `env_file` that is not a string.
    EnvFileNotString { path: String },
    /// A top-level `environment` that is not a table.
    EnvironmentNotTable { path: String },
    /// A top-level `environment` value that is not a string.
    EnvironmentValueNotString { path: String, key: String },
    /// A top-level key that is neither a process table nor a known setting.
    UnknownTopLevelKey { path: String, key: String },
    /// A malformed line of a plain Procfile (`line` counts from 1).
    Procfile { path: String, line: usize, reason: String },
    /// No path was given and none of the default config files exists.
    NoDefaultConfig,
    /// A process table that does not decode into a process entry.
    Process { path: String, name: String, message: String },
    /// Every rule the processes break, in process order.
    Validation(Vec<ValidationIssue>),
    /// A dependency cycle, its names joined by ` -> `.
    Cycle(String),
    /// An env file that could not be read or parsed.
    EnvFile { scope: String, file: String, message: String },
    /// Both `--only` and `--except` were given.
    OnlyAndExcept,
    /// An `--only` name that is not a process.
    UnknownOnly(String),
    /// An `--except` name that is not a process.
    UnknownExcept(String),
}

/// A non-fatal configuration concern; the config is still valid and runnable.
#[derive(Clone, Debug)]
pub enum ConfigWarning {
    /// A depended-on process with no readiness signal releases its dependents
    /// at launch.
    DependedOnReleasesAtLaunch(String),
}

/// One validation problem, tied to the process that triggered it.
#[derive(Clone, Debug)]
pub struct ValidationIssue {
    pub process: String,
    pub kind: ValidationIssueKind,
}

/// The validation rule a process broke.
#[derive(Clone, Debug)]
pub enum ValidationIssueKind {
    MissingCommand,
    ExitCodesAndReadiness,
    EmptyReadinessCommand,
    ReadinessMissingCheck,
    EmptyReadinessExitCodes,
    EmptyReadinessOutput,
    InvalidReadinessUrl(String),
    EmptyReadinessStatus,
    InvalidReadinessStatus(u16),
    RetriesWithReadiness,
    DuplicateDependency(String),
    SelfDependency,
    UndefinedDependency(String),
    NegativeMaxRetries,
    InvalidColor(String),
    DuplicateName(String),
}


/// A validation rule, with its text payloads as character sequences.
pub enum IssueKindView {
    MissingCommand,
    ExitCodesAndReadiness,
    EmptyReadinessCommand,
    ReadinessMissingCheck,
    EmptyReadinessExitCodes,
    EmptyReadinessOutput,
    InvalidReadinessUrl(Seq<char>),
    EmptyReadinessStatus,
    InvalidReadinessStatus(u16),
    RetriesWithReadiness,
    DuplicateDependency(Seq<char>),
    SelfDependency,
    UndefinedDependency(Seq<char>),
    NegativeMaxRetries,
    InvalidColor(Seq<char>),
    DuplicateName(Seq<char>),
}

impl View for ValidationIssueKind {
    type V = IssueKindView;

    open spec fn view(&self) -> IssueKindView {
        match self {
            ValidationIssueKind::MissingCommand => IssueKindView::MissingCommand,
            ValidationIssueKind::ExitCodesAndReadiness => IssueKindView::ExitCodesAndReadiness,
            ValidationIssueKind::EmptyReadinessCommand => IssueKindView::EmptyReadinessCommand,
            ValidationIssueKind::ReadinessMissingCheck => IssueKindView::ReadinessMissingCheck,
            ValidationIssueKind::EmptyReadinessExitCodes => IssueKindView::EmptyReadinessExitCodes,
            ValidationIssueKind::EmptyReadinessOutput => IssueKindView::EmptyReadinessOutput,
            ValidationIssueKind::InvalidReadinessUrl(u) => IssueKindView::InvalidReadinessUrl(u@),
            ValidationIssueKind::EmptyReadinessStatus => IssueKindView::EmptyReadinessStatus,
            ValidationIssueKind::InvalidReadinessStatus(c) => IssueKindView::InvalidReadinessStatus(*c),
            ValidationIssueKind::RetriesWithReadiness => IssueKindView::RetriesWithReadiness,
            ValidationIssueKind::DuplicateDependency(d) => IssueKindView::DuplicateDependency(d@),
            ValidationIssueKind::SelfDependency => IssueKindView::SelfDependency,
            ValidationIssueKind::UndefinedDependency(d) => IssueKindView::UndefinedDependency(d@),
            ValidationIssueKind::NegativeMaxRetries => IssueKindView::NegativeMaxRetries,
            ValidationIssueKind::InvalidColor(c) => IssueKindView::InvalidColor(c@),
            ValidationIssueKind::DuplicateName(n) => IssueKindView::DuplicateName(n@),
        }
    }
}

impl View for ValidationIssue {
    type V = (Seq<char>, IssueKindView);

    open spec fn view(&self) -> (Seq<char>, IssueKindView) {
        (self.process@, self.kind@)
    }
}

/// The views of a list of issues.
pub open spec fn issues_view(v: Seq<ValidationIssue>) -> Seq<(Seq<char>, IssueKindView)> {
    v.map_values(|i: ValidationIssue| i@)
}

/// The items of `ms` joined by `sep`.
pub open spec fn joined(ms: Seq<Seq<char>>, sep: Seq<char>) -> Seq<char>
    decreases ms.len(),
{
    if ms.len() == 0 {
        Seq::empty()
    } else if ms.len() == 1 {
        ms[0]
    } else {
        joined(ms.drop_last(), sep) + sep + ms.last()
    }
}

/// What a broken validation rule reads as.
pub open spec fn spec_kind_message(k: IssueKindView) -> Seq<char> {
    match k {
        IssueKindView::MissingCommand => "missing required key \"command\""@,
        IssueKindView::ExitCodesAndReadiness => "\"exit_codes\" and \"readiness\" are mutually exclusive"@,
        IssueKindView::EmptyReadinessCommand => "readiness shell \"cmd\" cannot be empty"@,
        IssueKindView::ReadinessMissingCheck =>
            "readiness shell requires \"exit_codes\" or \"output\" to define when it passes"@,
        IssueKindView::EmptyReadinessExitCodes => "readiness shell \"exit_codes\" cannot be empty"@,
        IssueKindView::EmptyReadinessOutput => "readiness \"output\" cannot be empty"@,
        IssueKindView::InvalidReadinessUrl(u) =>
            "readiness http \"url\" "@ + debug_str(u) + " is not a valid http(s) URL"@,
        IssueKindView::EmptyReadinessStatus => "readiness http \"status\" cannot be empty"@,
        IssueKindView::InvalidReadinessStatus(c) =>
            "readiness http \"status\" "@ + decimal(c as int) + " is not a valid HTTP status code (100–599)"@,
        IssueKindView::RetriesWithReadiness =>
            "\"max_retries\" has no effect with \"readiness\" (retries fire on exit, not a failed readiness check)"@,
        IssueKindView::DuplicateDependency(d) => "duplicate dependency "@ + debug_str(d),
        IssueKindView::SelfDependency => "cannot depend on itself"@,
        IssueKindView::UndefinedDependency(d) => "depends on "@ + debug_str(d) + ", which is not defined"@,
        IssueKindView::NegativeMaxRetries => "max_retries must be non-negative"@,
        IssueKindView::InvalidColor(c) =>
            "invalid color "@ + debug_str(c) + " (expected a named ANSI color or #rrggbb hex)"@,
        IssueKindView::DuplicateName(n) => "display name "@ + debug_str(n) + " is already used by another process"@,
    }
}

/// What a validation issue reads as: the process, then the rule it broke.
pub open spec fn spec_issue_message(i: (Seq<char>, IssueKindView)) -> Seq<char> {
    "process "@ + debug_str(i.0) + ": "@ + spec_kind_message(i.1)
}

/// What a config error reads as.
pub open spec fn spec_error_message(e: ConfigError) -> Seq<char> {
    match e {
        ConfigError::Read { path, message } => "reading config "@ + path@ + ": "@ + message@,
        ConfigError::Toml { path, message } => "parsing config "@ + path@ + ": "@ + message@,
        ConfigError::EnvFileNotString { path } =>
            "parsing config "@ + path@ + ": top-level env_file must be a string"@,
        ConfigError::EnvironmentNotTable { path } =>
            "parsing config "@ + path@ + ": top-level environment must be a table"@,
        ConfigError::EnvironmentValueNotString { path, key } =>
            "parsing config "@ + path@ + ": top-level environment value for "@ + debug_str(key@) + " must be a string"@,
        ConfigError::UnknownTopLevelKey { path, key } =>
            "parsing config "@ + path@ + ": unknown top-level key "@ + debug_str(key@) + " (expected a process table)"@,
        ConfigError::Procfile { path, line, reason } =>
            "parsing Procfile "@ + path@ + " (line "@ + decimal(line as int) + "): "@ + reason@,
        ConfigError::NoDefaultConfig => "no config file found (tried Procfile.toml, Procfile)"@,
        ConfigError::Process { path, name, message } =>
            "parsing config "@ + path@ + ": process "@ + debug_str(name@) + ": "@ + message@,
        ConfigError::Validation(issues) =>
            "config validation failed:\n  "@ + joined(issues_view(issues@).map_values(
                |i: (Seq<char>, IssueKindView)| spec_issue_message(i),
            ), "\n  "@),
        ConfigError::Cycle(c) => "dependency cycle detected: "@ + c@,
        ConfigError::EnvFile { scope, file, message } =>
            scope@ + " env_file "@ + debug_str(file@) + ": "@ + message@,
        ConfigError::OnlyAndExcept => "cannot specify both --only and --except"@,
        ConfigError::UnknownOnly(n) => "--only: unknown process "@ + debug_str(n@),
        ConfigError::UnknownExcept(n) => "--except: unknown process "@ + debug_str(n@),
    }
}

/// What a config warning reads as.
pub open spec fn spec_warning_message(w: ConfigWarning) -> Seq<char> {
    match w {
        ConfigWarning::DependedOnReleasesAtLaunch(n) =>
            "process "@ + debug_str(n@)
                + " has no \"exit_codes\" or \"readiness\"; dependents start at launch, not when ready"@,
    }
}

impl ValidationIssueKind {
    /// The rule this issue broke, as a sentence fragment.
    pub fn message(&self) -> (m: String)
        ensures
            m@ == spec_kind_message(self@),
    {
        let mut m = String::new();
        match self {
            ValidationIssueKind::MissingCommand => append_str(&mut m, "missing required key \"command\""),
            ValidationIssueKind::ExitCodesAndReadiness =>
                append_str(&mut m, "\"exit_codes\" and \"readiness\" are mutually exclusive"),
            ValidationIssueKind::EmptyReadinessCommand =>
                append_str(&mut m, "readiness shell \"cmd\" cannot be empty"),
            ValidationIssueKind::ReadinessMissingCheck => append_str(
                &mut m,
                "readiness shell requires \"exit_codes\" or \"output\" to define when it passes",
            ),
            ValidationIssueKind::EmptyReadinessExitCodes =>
                append_str(&mut m, "readiness shell \"exit_codes\" cannot be empty"),
            ValidationIssueKind::EmptyReadinessOutput => append_str(&mut m, "readiness \"output\" cannot be empty"),
            ValidationIssueKind::InvalidReadinessUrl(u) => {
                append_str(&mut m, "readiness http \"url\" ");
                let q = debug_quote(u.as_str());
                append_str(&mut m, q.as_str());
                append_str(&mut m, " is not a valid http(s) URL");
            },
            ValidationIssueKind::EmptyReadinessStatus =>
                append_str(&mut m, "readiness http \"status\" cannot be empty"),
            ValidationIssueKind::InvalidReadinessStatus(c) => {
                append_str(&mut m, "readiness http \"status\" ");
                let d = decimal_of_u64(*c as u64);
                append_str(&mut m, d.as_str());
                append_str(&mut m, " is not a valid HTTP status code (100–599)");
            },
            ValidationIssueKind::RetriesWithReadiness => append_str(
                &mut m,
                "\"max_retries\" has no effect with \"readiness\" (retries fire on exit, not a failed readiness check)",
            ),
            ValidationIssueKind::DuplicateDependency(d) => {
                append_str(&mut m, "duplicate dependency ");
                let q = debug_quote(d.as_str());
                append_str(&mut m, q.as_str());
            },
            ValidationIssueKind::SelfDependency => append_str(&mut m, "cannot depend on itself"),
            ValidationIssueKind::UndefinedDependency(d) => {
                append_str(&mut m, "depends on ");
                let q = debug_quote(d.as_str());
                append_str(&mut m, q.as_str());
                append_str(&mut m, ", which is not defined");
            },
            ValidationIssueKind::NegativeMaxRetries => append_str(&mut m, "max_retries must be non-negative"),
            ValidationIssueKind::InvalidColor(c) => {
                append_str(&mut m, "invalid color ");
                let q = debug_quote(c.as_str());
                append_str(&mut m, q.as_str());
                append_str(&mut m, " (expected a named ANSI color or #rrggbb hex)");
            },
            ValidationIssueKind::DuplicateName(n) => {
                append_str(&mut m, "display name ");
                let q = debug_quote(n.as_str());
                append_str(&mut m, q.as_str());
                append_str(&mut m, " is already used by another process");
            },
        }
        m
    }
}

impl ValidationIssue {
    /// The issue as one line: `process "name": rule`.
    pub fn message(&self) -> (m: String)
        ensures
            m@ == spec_issue_message(self@),
    {
        let mut m = String::new();
        append_str(&mut m, "process ");
        let q = debug_quote(self.process.as_str());
        append_str(&mut m, q.as_str());
        append_str(&mut m, ": ");
        let k = self.kind.message();
        append_str(&mut m, k.as_str());
        m
    }
}

/// The messages of `issues`, each indented onto its own line.
fn issue_lines(issues: &Vec<ValidationIssue>) -> (m: String)
    ensures
        m@ == joined(issues_view(issues@).map_values(|i: (Seq<char>, IssueKindView)| spec_issue_message(i)), "\n  "@),
{
    let ghost all = issues_view(issues@).map_values(|i: (Seq<char>, IssueKindView)| spec_issue_message(i));
    let mut m = String::new();
    let mut i: usize = 0;
    while i < issues.len()
        invariant
            i <= issues.len(),
            all == issues_view(issues@).map_values(|i: (Seq<char>, IssueKindView)| spec_issue_message(i)),
            m@ == joined(all.take(i as int), "\n  "@),
        decreases issues.len() - i,
    {
        let line = issues[i].message();
        assert(all[i as int] == line@);
        if i > 0 {
            append_str(&mut m, "\n  ");
        }
        append_str(&mut m, line.as_str());
        assert(all.take(i + 1).drop_last() =~= all.take(i as int));
        i = i + 1;
    }
    assert(all.take(issues.len() as int) =~= all);
    m
}

impl ConfigError {
    /// The error as its user-facing message.
    pub fn message(&self) -> (m: String)
        ensures
            m@ == spec_error_message(*self),
    {
        let mut m = String::new();
        match self {
            ConfigError::Read { path, message } => {
                append_str(&mut m, "reading config ");
                append_str(&mut m, path.as_str());
                append_str(&mut m, ": ");
                append_str(&mut m, message.as_str());
            },
            ConfigError::Toml { path, message } => {
                append_str(&mut m, "parsing config ");
                append_str(&mut m, path.as_str());
                append_str(&mut m, ": ");
                append_str(&mut m, message.as_str());
            },
            ConfigError::EnvFileNotString { path } => {
                append_str(&mut m, "parsing config ");
                append_str(&mut m, path.as_str());
                append_str(&mut m, ": top-level env_file must be a string");
            },
            ConfigError::EnvironmentNotTable { path } => {
                append_str(&mut m, "parsing config ");
                append_str(&mut m, path.as_str());
                append_str(&mut m, ": top-level environment must be a table");
            },
            ConfigError::EnvironmentValueNotString { path, key } => {
                append_str(&mut m, "parsing config ");
                append_str(&mut m, path.as_str());
                append_str(&mut m, ": top-level environment value for ");
                let q = debug_quote(key.as_str());
                append_str(&mut m, q.as_str());
                append_str(&mut m, " must be a string");
            },
            ConfigError::UnknownTopLevelKey { path, key } => {
                append_str(&mut m, "parsing config ");
                append_str(&mut m, path.as_str());
                append_str(&mut m, ": unknown top-level key ");
                let q = debug_quote(key.as_str());
                append_str(&mut m, q.as_str());
                append_str(&mut m, " (expected a process table)");
            },
            ConfigError::Procfile { path, line, reason } => {
                append_str(&mut m, "parsing Procfile ");
                append_str(&mut m, path.as_str());
                append_str(&mut m, " (line ");
                let d = decimal_of_u64(*line as u64);
                append_str(&mut m, d.as_str());
                append_str(&mut m, "): ");
                append_str(&mut m, reason.as_str());
            },
            ConfigError::NoDefaultConfig => append_str(&mut m, "no config file found (tried Procfile.toml, Procfile)"),
            ConfigError::Process { path, name, message } => {
                append_str(&mut m, "parsing config ");
                append_str(&mut m, path.as_str());
                append_str(&mut m, ": process ");
                let q = debug_quote(name.as_str());
                append_str(&mut m, q.as_str());
                append_str(&mut m, ": ");
                append_str(&mut m, message.as_str());
            },
            ConfigError::Validation(issues) => {
                append_str(&mut m, "config validation failed:\n  ");
                let l = issue_lines(issues);
                append_str(&mut m, l.as_str());
            },
            ConfigError::Cycle(c) => {
                append_str(&mut m, "dependency cycle detected: ");
                append_str(&mut m, c.as_str());
            },
            ConfigError::EnvFile { scope, file, message } => {
                append_str(&mut m, scope.as_str());
                append_str(&mut m, " env_file ");
                let q = debug_quote(file.as_str());
                append_str(&mut m, q.as_str());
                append_str(&mut m, ": ");
                append_str(&mut m, message.as_str());
            },
            ConfigError::OnlyAndExcept => append_str(&mut m, "cannot specify both --only and --except"),
            ConfigError::UnknownOnly(n) => {
                append_str(&mut m, "--only: unknown process ");
                let q = debug_quote(n.as_str());
                append_str(&mut m, q.as_str());
            },
            ConfigError::UnknownExcept(n) => {
                append_str(&mut m, "--except: unknown process ");
                let q = debug_quote(n.as_str());
                append_str(&mut m, q.as_str());
            },
        }
        m
    }
}

impl ConfigWarning {
    /// The warning as its user-facing message.
    pub fn message(&self) -> (m: String)
        ensures
            m@ == spec_warning_message(*self),
    {
        let mut m = String::new();
        match self {
            ConfigWarning::DependedOnReleasesAtLaunch(n) => {
                append_str(&mut m, "process ");
                let q = debug_quote(n.as_str());
                append_str(&mut m, q.as_str());
                append_str(
                    &mut m,
                    " has no \"exit_codes\" or \"readiness\"; dependents start at launch, not when ready",
                );
            },
        }
        m
    }
}

} // verus!
