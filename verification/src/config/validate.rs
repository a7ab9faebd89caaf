//! Validation: every rule a process entry must meet, unique display names, and
//! an acyclic dependency graph.
use vstd::prelude::*;

use super::error::{ConfigError, IssueKindView, ValidationIssue, ValidationIssueKind, issues_view};
use super::graph::{Adjacency, deps_of, detect_cycle, lemma_same_graph, spec_detect_cycle, strs};
use super::schema::{Process, Readiness, spec_display_name};
use crate::strmap::StrMap;
use crate::text::{append_str, chars_of, has_prefix, str_eq};
use crate::theme::{parse_color, spec_parse_color};

verus! {

/// One issue when `b` holds, none otherwise.
pub open spec fn opt(b: bool, k: IssueKindView) -> Seq<IssueKindView> {
    if b {
        seq![k]
    } else {
        Seq::empty()
    }
}

/// An http(s) URL with something after the scheme.
pub open spec fn url_ok(u: Seq<char>) -> bool {
    (u.len() > 7 && u.take(7) == "http://"@) || (u.len() > 8 && u.take(8) == "https://"@)
}

/// An HTTP status code in the defined range.
pub open spec fn status_ok(c: u16) -> bool {
    100 <= c <= 599
}

/// One issue for each out-of-range status code, in order.
pub open spec fn status_issues(codes: Seq<u16>) -> Seq<IssueKindView>
    decreases codes.len(),
{
    if codes.len() == 0 {
        Seq::empty()
    } else {
        status_issues(codes.drop_last()) + opt(
            !status_ok(codes.last()),
            IssueKindView::InvalidReadinessStatus(codes.last()),
        )
    }
}

/// The rules a readiness check itself breaks.
pub open spec fn readiness_issues(r: Readiness) -> Seq<IssueKindView> {
    match r {
        Readiness::Shell { cmd, exit_codes, output, .. } => opt(
            cmd@.len() == 0,
            IssueKindView::EmptyReadinessCommand,
        ) + opt(exit_codes is None && output is None, IssueKindView::ReadinessMissingCheck) + opt(
            exit_codes matches Some(e) && e.0@.len() == 0,
            IssueKindView::EmptyReadinessExitCodes,
        ) + opt(output matches Some(o) && o@.len() == 0, IssueKindView::EmptyReadinessOutput),
        Readiness::Http { url, status, output, .. } => opt(
            !url_ok(url@),
            IssueKindView::InvalidReadinessUrl(url@),
        ) + opt(status.0@.len() == 0, IssueKindView::EmptyReadinessStatus) + status_issues(status.0@)
            + opt(output matches Some(o) && o@.len() == 0, IssueKindView::EmptyReadinessOutput),
        Readiness::Output { output, .. } => opt(output@.len() == 0, IssueKindView::EmptyReadinessOutput),
        Readiness::Delay(_) => Seq::empty(),
    }
}

/// The issue, if any, of the `i`-th dependency: a repeat, the process itself,
/// or an undefined name (checked in that order).
pub open spec fn dep_issue(name: Seq<char>, deps: Seq<Seq<char>>, keys: Set<Seq<char>>, i: int) -> Seq<IssueKindView> {
    let d = deps[i];
    if deps.take(i).contains(d) {
        seq![IssueKindView::DuplicateDependency(d)]
    } else if d == name {
        seq![IssueKindView::SelfDependency]
    } else if !keys.contains(d) {
        seq![IssueKindView::UndefinedDependency(d)]
    } else {
        Seq::empty()
    }
}

/// The dependency issues of the first `n` dependencies.
pub open spec fn dep_issues(name: Seq<char>, deps: Seq<Seq<char>>, keys: Set<Seq<char>>, n: int) -> Seq<IssueKindView>
    decreases n,
{
    if n <= 0 {
        Seq::empty()
    } else {
        dep_issues(name, deps, keys, n - 1) + dep_issue(name, deps, keys, n - 1)
    }
}

/// Every rule process `name` breaks, in the order they are checked: required
/// command, exit_codes / readiness rules, dependency sanity, retry count, color.
pub open spec fn process_issues(name: Seq<char>, p: Process, keys: Set<Seq<char>>) -> Seq<IssueKindView> {
    opt(p.command@.len() == 0, IssueKindView::MissingCommand) + match p.readiness {
        Some(r) => opt(p.exit_codes.0@.len() != 0, IssueKindView::ExitCodesAndReadiness) + readiness_issues(r)
            + opt(p.max_retries > 0, IssueKindView::RetriesWithReadiness),
        None => Seq::empty(),
    } + dep_issues(name, strs(p.depends_on@), keys, p.depends_on@.len() as int) + opt(
        p.max_retries < 0,
        IssueKindView::NegativeMaxRetries,
    ) + match p.color {
        Some(c) => opt(spec_parse_color(c@) is None, IssueKindView::InvalidColor(c@)),
        None => Seq::empty(),
    }
}

/// Issues tagged with the process they belong to.
pub open spec fn tagged(name: Seq<char>, ks: Seq<IssueKindView>) -> Seq<(Seq<char>, IssueKindView)> {
    ks.map_values(|k: IssueKindView| (name, k))
}

/// The per-process issues of the first `n` processes, in name order.
pub open spec fn entry_issues(procs: &StrMap<Process>, n: int) -> Seq<(Seq<char>, IssueKindView)>
    decreases n,
{
    if n <= 0 {
        Seq::empty()
    } else {
        entry_issues(procs, n - 1) + tagged(
            procs.keys()[n - 1],
            process_issues(procs.keys()[n - 1], procs.vals()[n - 1], procs@.dom()),
        )
    }
}

/// The display names of the processes, in name order.
pub open spec fn displays(procs: &StrMap<Process>) -> Seq<Seq<char>> {
    Seq::new(procs.keys().len(), |i: int| spec_display_name(&procs.vals()[i], procs.keys()[i]))
}

/// Display-name collisions among the first `n` processes: each process whose
/// display name an earlier one already uses.
pub open spec fn name_issues(procs: &StrMap<Process>, n: int) -> Seq<(Seq<char>, IssueKindView)>
    decreases n,
{
    if n <= 0 {
        Seq::empty()
    } else {
        name_issues(procs, n - 1) + if displays(procs).take(n - 1).contains(displays(procs)[n - 1]) {
            seq![(procs.keys()[n - 1], IssueKindView::DuplicateName(displays(procs)[n - 1]))]
        } else {
            Seq::empty()
        }
    }
}

/// Every validation issue of a process table: each process's own issues in
/// name order, then the display-name collisions.
pub open spec fn spec_issues(procs: &StrMap<Process>) -> Seq<(Seq<char>, IssueKindView)> {
    entry_issues(procs, procs.keys().len() as int) + name_issues(procs, procs.keys().len() as int)
}

/// Process `name` breaks no rule, stated directly: a command; with a readiness
/// check, no expected exit codes, no retries and a well-formed check; its
/// dependencies distinct, not itself and all defined; no negative retry count;
/// a color that parses.
pub open spec fn process_sound(name: Seq<char>, p: Process, keys: Set<Seq<char>>) -> bool {
    &&& p.command@.len() > 0
    &&& (p.readiness matches Some(r) ==> p.exit_codes.0@.len() == 0 && p.max_retries <= 0 && readiness_issues(r).len() == 0)
    &&& strs(p.depends_on@).no_duplicates()
    &&& !strs(p.depends_on@).contains(name)
    &&& forall|d: Seq<char>| #[trigger] strs(p.depends_on@).contains(d) ==> keys.contains(d)
    &&& p.max_retries >= 0
    &&& (p.color matches Some(c) ==> spec_parse_color(c@) is Some)
}

proof fn lemma_dep_issues_empty(name: Seq<char>, deps: Seq<Seq<char>>, keys: Set<Seq<char>>, n: int)
    requires
        0 <= n <= deps.len(),
    ensures
        dep_issues(name, deps, keys, n).len() == 0 <==> (deps.take(n).no_duplicates() && !deps.take(n).contains(name)
            && forall|d: Seq<char>| #[trigger] deps.take(n).contains(d) ==> keys.contains(d)),
    decreases n,
{
    if n > 0 {
        lemma_dep_issues_empty(name, deps, keys, n - 1);
        let t0 = deps.take(n - 1);
        let t1 = deps.take(n);
        let d = deps[n - 1];
        assert(t1 =~= t0.push(d));
        assert(t0 == deps.take(n - 1));
        if t0.no_duplicates() && !t0.contains(d) {
            assert forall|i: int, j: int| 0 <= i < t1.len() && 0 <= j < t1.len() && i != j implies t1[i] != t1[j] by {
                if i < n - 1 && j < n - 1 {
                    assert(t1[i] == t0[i] && t1[j] == t0[j]);
                } else if i < n - 1 {
                    assert(t1[i] == t0[i]);
                    assert(t0.contains(t0[i]));
                } else if j < n - 1 {
                    assert(t1[j] == t0[j]);
                    assert(t0.contains(t0[j]));
                }
            }
        }
        if t1.no_duplicates() && t0.contains(d) {
            let q = t0.index_of(d);
            assert(t1[q] == d && t1[n - 1] == d);
        }
        if t1.no_duplicates() {
            assert forall|i: int, j: int| 0 <= i < t0.len() && 0 <= j < t0.len() && i != j implies t0[i] != t0[j] by {
                assert(t1[i] == t0[i] && t1[j] == t0[j]);
            }
        }
        assert forall|x: Seq<char>| #[trigger] t1.contains(x) <==> (t0.contains(x) || x == d) by {
            if t0.contains(x) {
                let q = t0.index_of(x);
                assert(t1[q] == x);
            }
            if t1.contains(x) && x != d {
                let q = t1.index_of(x);
                assert(t0[q] == x);
            }
            if x == d {
                assert(t1[n - 1] == d);
            }
        }
        assert(t1.no_duplicates() <==> (t0.no_duplicates() && !t0.contains(d)));
        assert(t1.contains(name) <==> (t0.contains(name) || d == name));
        assert((forall|x: Seq<char>| #[trigger] t1.contains(x) ==> keys.contains(x)) <==> ((forall|x: Seq<char>|
            #[trigger] t0.contains(x) ==> keys.contains(x)) && keys.contains(d))) by {
            if keys.contains(d) && (forall|x: Seq<char>| #[trigger] t0.contains(x) ==> keys.contains(x)) {
                assert forall|x: Seq<char>| #[trigger] t1.contains(x) implies keys.contains(x) by {
                    if x != d {
                        assert(t0.contains(x));
                    }
                }
            }
            if forall|x: Seq<char>| #[trigger] t1.contains(x) ==> keys.contains(x) {
                assert(t1.contains(d));
                assert forall|x: Seq<char>| #[trigger] t0.contains(x) implies keys.contains(x) by {
                    assert(t1.contains(x));
                }
            }
        }
        assert(dep_issues(name, deps, keys, n).len() == dep_issues(name, deps, keys, n - 1).len() + dep_issue(
            name,
            deps,
            keys,
            n - 1,
        ).len());
        assert(dep_issue(name, deps, keys, n - 1).len() == 0 <==> (!t0.contains(d) && d != name && keys.contains(d)));
    } else {
        assert(deps.take(0) =~= Seq::<Seq<char>>::empty());
    }
}

proof fn lemma_process_issues_empty(name: Seq<char>, p: Process, keys: Set<Seq<char>>)
    ensures
        process_issues(name, p, keys).len() == 0 <==> process_sound(name, p, keys),
{
    let deps = strs(p.depends_on@);
    lemma_dep_issues_empty(name, deps, keys, deps.len() as int);
    assert(deps.take(deps.len() as int) =~= deps);
    let a = opt(p.command@.len() == 0, IssueKindView::MissingCommand);
    let b = match p.readiness {
        Some(r) => opt(p.exit_codes.0@.len() != 0, IssueKindView::ExitCodesAndReadiness) + readiness_issues(r)
            + opt(p.max_retries > 0, IssueKindView::RetriesWithReadiness),
        None => Seq::empty(),
    };
    let c = dep_issues(name, deps, keys, p.depends_on@.len() as int);
    let d = opt(p.max_retries < 0, IssueKindView::NegativeMaxRetries);
    let e = match p.color {
        Some(col) => opt(spec_parse_color(col@) is None, IssueKindView::InvalidColor(col@)),
        None => Seq::empty(),
    };
    assert(process_issues(name, p, keys) == a + b + c + d + e);
    assert((a + b + c + d + e).len() == a.len() + b.len() + c.len() + d.len() + e.len());
    assert(a.len() == 0 <==> p.command@.len() > 0);
    assert(b.len() == 0 <==> (p.readiness matches Some(r) ==> p.exit_codes.0@.len() == 0 && p.max_retries <= 0
        && readiness_issues(r).len() == 0));
    assert(d.len() == 0 <==> p.max_retries >= 0);
    assert(e.len() == 0 <==> (p.color matches Some(col) ==> spec_parse_color(col@) is Some));
    assert(deps.len() == p.depends_on@.len());
}

proof fn lemma_entry_issues_empty_iff(procs: &StrMap<Process>, n: int)
    requires
        0 <= n <= procs.keys().len(),
    ensures
        entry_issues(procs, n).len() == 0 <==> forall|i: int|
            0 <= i < n ==> #[trigger] process_issues(procs.keys()[i], procs.vals()[i], procs@.dom()).len() == 0,
    decreases n,
{
    if n > 0 {
        lemma_entry_issues_empty_iff(procs, n - 1);
        let t = process_issues(procs.keys()[n - 1], procs.vals()[n - 1], procs@.dom());
        assert(tagged(procs.keys()[n - 1], t).len() == t.len());
    }
}

proof fn lemma_name_issues_empty_iff(procs: &StrMap<Process>, n: int)
    requires
        0 <= n <= procs.keys().len(),
    ensures
        name_issues(procs, n).len() == 0 <==> displays(procs).take(n).no_duplicates(),
    decreases n,
{
    if n > 0 {
        lemma_name_issues_empty_iff(procs, n - 1);
        let ds = displays(procs);
        let t0 = ds.take(n - 1);
        let t1 = ds.take(n);
        let d = ds[n - 1];
        assert(t1 =~= t0.push(d));
        if t0.no_duplicates() && !t0.contains(d) {
            assert forall|i: int, j: int| 0 <= i < t1.len() && 0 <= j < t1.len() && i != j implies t1[i] != t1[j] by {
                if i < n - 1 && j < n - 1 {
                    assert(t1[i] == t0[i] && t1[j] == t0[j]);
                } else if i < n - 1 {
                    assert(t1[i] == t0[i]);
                    assert(t0.contains(t0[i]));
                } else if j < n - 1 {
                    assert(t1[j] == t0[j]);
                    assert(t0.contains(t0[j]));
                }
            }
        }
        if t1.no_duplicates() && t0.contains(d) {
            let q = t0.index_of(d);
            assert(t1[q] == d && t1[n - 1] == d);
        }
        if t1.no_duplicates() {
            assert forall|i: int, j: int| 0 <= i < t0.len() && 0 <= j < t0.len() && i != j implies t0[i] != t0[j] by {
                assert(t1[i] == t0[i] && t1[j] == t0[j]);
            }
        }
    } else {
        assert(displays(procs).take(0) =~= Seq::<Seq<char>>::empty());
    }
}

/// A process table passes the per-process rules exactly when every process is
/// sound (see [`process_sound`]) and no two processes share a display name;
/// only then does validation go on to look for a dependency cycle.
pub proof fn lemma_no_issues_iff(procs: &StrMap<Process>)
    requires
        procs.wf(),
    ensures
        spec_issues(procs).len() == 0 <==> (forall|k: Seq<char>| #[trigger] procs@.contains_key(k) ==> process_sound(
            k,
            procs@[k],
            procs@.dom(),
        )) && displays(procs).no_duplicates(),
{
    procs.lemma_view();
    let n = procs.keys().len() as int;
    lemma_entry_issues_empty_iff(procs, n);
    lemma_name_issues_empty_iff(procs, n);
    assert(displays(procs).take(n) =~= displays(procs));
    assert forall|i: int| 0 <= i < n implies (#[trigger] process_issues(procs.keys()[i], procs.vals()[i], procs@.dom()).len()
        == 0 <==> process_sound(procs.keys()[i], procs.vals()[i], procs@.dom())) by {
        lemma_process_issues_empty(procs.keys()[i], procs.vals()[i], procs@.dom());
    }
    if forall|i: int| 0 <= i < n ==> #[trigger] process_issues(procs.keys()[i], procs.vals()[i], procs@.dom()).len() == 0 {
        assert forall|k: Seq<char>| #[trigger] procs@.contains_key(k) implies process_sound(k, procs@[k], procs@.dom()) by {
            let i = procs.keys().index_of(k);
            assert(procs.keys()[i] == k);
            assert(procs@[k] == procs.vals()[i]);
            assert(process_issues(procs.keys()[i], procs.vals()[i], procs@.dom()).len() == 0);
        }
    }
    if forall|k: Seq<char>| #[trigger] procs@.contains_key(k) ==> process_sound(k, procs@[k], procs@.dom()) {
        assert forall|i: int| 0 <= i < n implies #[trigger] process_issues(procs.keys()[i], procs.vals()[i], procs@.dom()).len()
            == 0 by {
            assert(procs@.contains_key(procs.keys()[i]));
            assert(procs@[procs.keys()[i]] == procs.vals()[i]);
        }
    }
    assert(spec_issues(procs).len() == entry_issues(procs, n).len() + name_issues(procs, n).len());
}

/// The names of a cycle joined by ` -> `.
pub open spec fn join_arrow(c: Seq<Seq<char>>) -> Seq<char>
    decreases c.len(),
{
    if c.len() == 0 {
        Seq::empty()
    } else if c.len() == 1 {
        c[0]
    } else {
        join_arrow(c.drop_last()) + " -> "@ + c.last()
    }
}

/// The `name -> depends_on` adjacency of a process table.
pub open spec fn adjacency_matches(adj: &Adjacency, procs: &StrMap<Process>) -> bool {
    &&& adj@.dom() == procs@.dom()
    &&& forall|k: Seq<char>| #[trigger] adj@.contains_key(k) ==> strs(adj@[k]@) == strs(procs@[k].depends_on@)
}

/// Tagging distributes over concatenation.
pub proof fn lemma_tagged_concat(name: Seq<char>, a: Seq<IssueKindView>, b: Seq<IssueKindView>)
    ensures
        tagged(name, a + b) == tagged(name, a) + tagged(name, b),
{
    assert(tagged(name, a + b) =~= tagged(name, a) + tagged(name, b));
}

/// Appends one issue for `name`.
fn push_issue(issues: &mut Vec<ValidationIssue>, name: &str, kind: ValidationIssueKind)
    ensures
        issues_view(final(issues)@) == issues_view(old(issues)@).push((name@, kind@)),
{
    let ghost before = issues@;
    issues.push(ValidationIssue { process: name.to_owned(), kind });
    assert(issues_view(issues@) =~= issues_view(before).push((name@, kind@)));
}

/// A copy of a list of strings.
pub fn clone_strings(v: &Vec<String>) -> (r: Vec<String>)
    ensures
        strs(r@) == strs(v@),
{
    let mut r: Vec<String> = Vec::new();
    let mut i: usize = 0;
    while i < v.len()
        invariant
            i <= v.len(),
            strs(r@) == strs(v@).take(i as int),
        decreases v.len() - i,
    {
        let ghost before = r@;
        r.push(v[i].clone());
        assert(strs(r@) =~= strs(before).push(v[i as int]@));
        i = i + 1;
        assert(strs(r@) =~= strs(v@).take(i as int));
    }
    assert(strs(v@).take(v.len() as int) =~= strs(v@));
    r
}

/// Builds the `name -> depends_on` adjacency map of a process table.
pub fn adjacency_of(procs: &StrMap<Process>) -> (adj: Adjacency)
    ensures
        adjacency_matches(&adj, procs),
{
    proof {
        use_type_invariant(procs);
        procs.lemma_view();
    }
    let mut adj: Adjacency = StrMap::new();
    let n = procs.len();
    let mut i: usize = 0;
    while i < n
        invariant
            i <= n,
            n == procs.keys().len(),
            procs.wf(),
            procs.keys().len() == procs.vals().len(),
            forall|k: Seq<char>| #[trigger] adj@.contains_key(k) <==> procs.keys().take(i as int).contains(k),
            forall|k: Seq<char>| #[trigger] adj@.contains_key(k) ==> strs(adj@[k]@) == strs(procs@[k].depends_on@),
        decreases n - i,
    {
        proof {
            procs.lemma_view();
        }
        let deps = clone_strings(&procs.value_at(i).depends_on);
        let ghost key = procs.keys()[i as int];
        adj.insert(procs.key_at(i).clone(), deps);
        proof {
            let t0 = procs.keys().take(i as int);
            let t1 = procs.keys().take(i + 1);
            assert(t1 =~= t0.push(key));
            assert(procs@[key] == procs.vals()[i as int]);
            assert forall|k: Seq<char>| #[trigger] adj@.contains_key(k) <==> t1.contains(k) by {
                if t0.contains(k) {
                    let q = t0.index_of(k);
                    assert(t1[q] == k);
                }
                if k == key {
                    assert(t1[i as int] == k);
                }
                if t1.contains(k) && k != key {
                    let q = t1.index_of(k);
                    assert(t0[q] == k);
                }
            }
        }
        i = i + 1;
    }
    proof {
        procs.lemma_view();
        assert(procs.keys().take(n as int) =~= procs.keys());
        assert(adj@.dom() =~= procs@.dom());
    }
    adj
}

/// Appends the out-of-range status codes among `codes`.
fn push_status_issues(name: &str, codes: &Vec<u16>, issues: &mut Vec<ValidationIssue>)
    ensures
        issues_view(final(issues)@) == issues_view(old(issues)@) + tagged(name@, status_issues(codes@)),
{
    let mut i: usize = 0;
    while i < codes.len()
        invariant
            i <= codes.len(),
            issues_view(issues@) == issues_view(old(issues)@) + tagged(name@, status_issues(codes@.take(i as int))),
        decreases codes.len() - i,
    {
        let c = codes[i];
        let ghost before = issues_view(issues@);
        proof {
            assert(codes@.take(i + 1).drop_last() =~= codes@.take(i as int));
            assert(codes@.take(i + 1).last() == c);
        }
        if c < 100 || c > 599 {
            push_issue(issues, name, ValidationIssueKind::InvalidReadinessStatus(c));
        }
        assert(issues_view(issues@) =~= issues_view(old(issues)@) + tagged(name@, status_issues(codes@.take(i + 1))));
        i = i + 1;
    }
    assert(codes@.take(codes.len() as int) =~= codes@);
}

/// Appends the rules a readiness check itself breaks.
fn push_readiness_issues(name: &str, r: &Readiness, issues: &mut Vec<ValidationIssue>)
    ensures
        issues_view(final(issues)@) == issues_view(old(issues)@) + tagged(name@, readiness_issues(*r)),
{
    let ghost start = issues_view(issues@);
    match r {
        Readiness::Shell { cmd, exit_codes, output, .. } => {
            if cmd.as_str().is_empty() {
                push_issue(issues, name, ValidationIssueKind::EmptyReadinessCommand);
            }
            let ghost s1 = issues_view(issues@);
            if exit_codes.is_none() && output.is_none() {
                push_issue(issues, name, ValidationIssueKind::ReadinessMissingCheck);
            }
            let ghost s2 = issues_view(issues@);
            match exit_codes {
                Some(e) => {
                    if e.is_empty() {
                        push_issue(issues, name, ValidationIssueKind::EmptyReadinessExitCodes);
                    }
                },
                None => {},
            }
            let ghost s3 = issues_view(issues@);
            match output {
                Some(o) => {
                    if o.as_str().is_empty() {
                        push_issue(issues, name, ValidationIssueKind::EmptyReadinessOutput);
                    }
                },
                None => {},
            }
            assert(issues_view(issues@) =~= start + tagged(name@, readiness_issues(*r)));
        },
        Readiness::Http { url, status, output, .. } => {
            let ulen = chars_of(url.as_str()).len();
            let ok = (has_prefix(url.as_str(), "http://") && ulen > 7) || (has_prefix(url.as_str(), "https://")
                && ulen > 8);
            proof {
                reveal_strlit("http://");
                reveal_strlit("https://");
            }
            if !ok {
                push_issue(issues, name, ValidationIssueKind::InvalidReadinessUrl(url.clone()));
            }
            let ghost s1 = issues_view(issues@);
            if status.is_empty() {
                push_issue(issues, name, ValidationIssueKind::EmptyReadinessStatus);
            }
            let ghost s2 = issues_view(issues@);
            push_status_issues(name, &status.0, issues);
            let ghost s3 = issues_view(issues@);
            match output {
                Some(o) => {
                    if o.as_str().is_empty() {
                        push_issue(issues, name, ValidationIssueKind::EmptyReadinessOutput);
                    }
                },
                None => {},
            }
            assert(issues_view(issues@) =~= start + tagged(name@, readiness_issues(*r)));
        },
        Readiness::Output { output, .. } => {
            if output.as_str().is_empty() {
                push_issue(issues, name, ValidationIssueKind::EmptyReadinessOutput);
            }
            assert(issues_view(issues@) =~= start + tagged(name@, readiness_issues(*r)));
        },
        Readiness::Delay(_) => {
            assert(issues_view(issues@) =~= start + tagged(name@, readiness_issues(*r)));
        },
    }
}

/// Whether `d` occurs among the first `n` of `deps`.
fn seen_before(deps: &Vec<String>, n: usize, d: &str) -> (b: bool)
    requires
        n <= deps.len(),
    ensures
        b == strs(deps@).take(n as int).contains(d@),
{
    let mut i: usize = 0;
    while i < n
        invariant
            i <= n <= deps.len(),
            forall|j: int| 0 <= j < i ==> deps[j]@ != d@,
        decreases n - i,
    {
        if str_eq(deps[i].as_str(), d) {
            assert(strs(deps@).take(n as int)[i as int] == d@);
            return true;
        }
        i = i + 1;
    }
    proof {
        if strs(deps@).take(n as int).contains(d@) {
            let j = strs(deps@).take(n as int).index_of(d@);
            assert(deps[j]@ == d@);
        }
    }
    false
}

/// The exit_codes / readiness rules of a process.
pub open spec fn readiness_block(p: Process) -> Seq<IssueKindView> {
    match p.readiness {
        Some(r) => opt(p.exit_codes.0@.len() != 0, IssueKindView::ExitCodesAndReadiness) + readiness_issues(r)
            + opt(p.max_retries > 0, IssueKindView::RetriesWithReadiness),
        None => Seq::empty(),
    }
}

/// The color rule of a process.
pub open spec fn color_block(p: Process) -> Seq<IssueKindView> {
    match p.color {
        Some(c) => opt(spec_parse_color(c@) is None, IssueKindView::InvalidColor(c@)),
        None => Seq::empty(),
    }
}

/// Appends the exit_codes / readiness issues of `proc`.
fn push_readiness_block(name: &str, proc: &Process, issues: &mut Vec<ValidationIssue>)
    ensures
        issues_view(final(issues)@) == issues_view(old(issues)@) + tagged(name@, readiness_block(*proc)),
{
    let ghost start = issues_view(issues@);
    match &proc.readiness {
        Some(r) => {
            if !proc.exit_codes.is_empty() {
                push_issue(issues, name, ValidationIssueKind::ExitCodesAndReadiness);
            }
            let ghost s1 = issues_view(issues@);
            push_readiness_issues(name, r, issues);
            let ghost s2 = issues_view(issues@);
            // Retries fire on exit, not a failed readiness window, so they'd be ignored.
            if proc.max_retries > 0 {
                push_issue(issues, name, ValidationIssueKind::RetriesWithReadiness);
            }
            proof {
                let a = opt(proc.exit_codes.0@.len() != 0, IssueKindView::ExitCodesAndReadiness);
                let b = readiness_issues(*r);
                let c = opt(proc.max_retries > 0, IssueKindView::RetriesWithReadiness);
                assert(s1 =~= start + tagged(name@, a));
                assert(issues_view(issues@) =~= s2 + tagged(name@, c));
                lemma_tagged_concat(name@, a, b);
                lemma_tagged_concat(name@, a + b, c);
                assert(issues_view(issues@) =~= start + tagged(name@, readiness_block(*proc)));
            }
        },
        None => {
            assert(issues_view(issues@) =~= start + tagged(name@, readiness_block(*proc)));
        },
    }
}

/// Appends the dependency issues of `proc`.
fn push_dep_issues(name: &str, proc: &Process, procs: &StrMap<Process>, issues: &mut Vec<ValidationIssue>)
    ensures
        issues_view(final(issues)@) == issues_view(old(issues)@) + tagged(
            name@,
            dep_issues(name@, strs(proc.depends_on@), procs@.dom(), proc.depends_on@.len() as int),
        ),
{
    let ghost s2 = issues_view(issues@);
    let deps = &proc.depends_on;
    let ghost ds = strs(deps@);
    let ghost keys = procs@.dom();
    let mut i: usize = 0;
    assert(issues_view(issues@) =~= s2 + tagged(name@, dep_issues(name@, ds, keys, 0)));
    while i < deps.len()
        invariant
            i <= deps.len(),
            ds == strs(deps@),
            keys == procs@.dom(),
            issues_view(issues@) == s2 + tagged(name@, dep_issues(name@, ds, keys, i as int)),
        decreases deps.len() - i,
    {
        let d = &deps[i];
        assert(ds[i as int] == d@);
        if seen_before(deps, i, d.as_str()) {
            push_issue(issues, name, ValidationIssueKind::DuplicateDependency(d.clone()));
        } else if str_eq(d.as_str(), name) {
            push_issue(issues, name, ValidationIssueKind::SelfDependency);
        } else if !procs.contains_key(d.as_str()) {
            push_issue(issues, name, ValidationIssueKind::UndefinedDependency(d.clone()));
        }
        proof {
            lemma_tagged_concat(name@, dep_issues(name@, ds, keys, i as int), dep_issue(name@, ds, keys, i as int));
        }
        assert(issues_view(issues@) =~= s2 + tagged(name@, dep_issues(name@, ds, keys, i + 1)));
        i = i + 1;
    }
}

/// Collects validation issues for one process: required command, exit_codes /
/// readiness rules, dependency sanity, retry count, and color.
fn validate_process(name: &str, proc: &Process, procs: &StrMap<Process>, issues: &mut Vec<ValidationIssue>)
    ensures
        issues_view(final(issues)@) == issues_view(old(issues)@) + tagged(
            name@,
            process_issues(name@, *proc, procs@.dom()),
        ),
{
    let ghost start = issues_view(issues@);
    if proc.command.as_str().is_empty() {
        push_issue(issues, name, ValidationIssueKind::MissingCommand);
    }
    let ghost s1 = issues_view(issues@);
    push_readiness_block(name, proc, issues);
    let ghost s2 = issues_view(issues@);
    push_dep_issues(name, proc, procs, issues);
    let ghost s3 = issues_view(issues@);
    if proc.max_retries < 0 {
        push_issue(issues, name, ValidationIssueKind::NegativeMaxRetries);
    }
    let ghost s4 = issues_view(issues@);
    match &proc.color {
        Some(c) => {
            if parse_color(c.as_str()).is_none() {
                push_issue(issues, name, ValidationIssueKind::InvalidColor(c.clone()));
            }
        },
        None => {},
    }
    proof {
        let mpart = opt(proc.command@.len() == 0, IssueKindView::MissingCommand);
        let rd = readiness_block(*proc);
        let dpart = dep_issues(name@, strs(proc.depends_on@), procs@.dom(), proc.depends_on@.len() as int);
        let npart = opt(proc.max_retries < 0, IssueKindView::NegativeMaxRetries);
        let cpart = color_block(*proc);
        assert(s1 =~= start + tagged(name@, mpart));
        assert(s4 =~= s3 + tagged(name@, npart));
        assert(issues_view(issues@) =~= s4 + tagged(name@, cpart));
        lemma_tagged_concat(name@, mpart, rd);
        lemma_tagged_concat(name@, mpart + rd, dpart);
        lemma_tagged_concat(name@, mpart + rd + dpart, npart);
        lemma_tagged_concat(name@, mpart + rd + dpart + npart, cpart);
        assert(process_issues(name@, *proc, procs@.dom()) == mpart + rd + dpart + npart + cpart);
        assert(issues_view(issues@) =~= start + tagged(name@, process_issues(name@, *proc, procs@.dom())));
    }
}

/// Flags any display name shared by more than one process: names label tabs
/// and log prefixes, so a collision makes two processes indistinguishable.
fn check_unique_names(procs: &StrMap<Process>, issues: &mut Vec<ValidationIssue>)
    ensures
        issues_view(final(issues)@) == issues_view(old(issues)@) + name_issues(procs, procs.keys().len() as int),
{
    let n = procs.len();
    let mut seen: StrMap<()> = StrMap::new();
    let mut i: usize = 0;
    while i < n
        invariant
            i <= n,
            n == procs.keys().len(),
            issues_view(issues@) == issues_view(old(issues)@) + name_issues(procs, i as int),
            forall|x: Seq<char>| #[trigger] seen@.contains_key(x) <==> displays(procs).take(i as int).contains(x),
        decreases n - i,
    {
        proof {
            use_type_invariant(procs);
            procs.lemma_view();
        }
        let key = procs.key_at(i);
        let display = procs.value_at(i).display_name(key.as_str());
        let ghost dv = displays(procs)[i as int];
        assert(display@ == dv);
        let dup = seen.contains_key(display);
        if dup {
            push_issue(issues, key.as_str(), ValidationIssueKind::DuplicateName(display.to_owned()));
        } else {
            seen.insert(display.to_owned(), ());
        }
        proof {
            let t0 = displays(procs).take(i as int);
            let t1 = displays(procs).take(i + 1);
            assert(t1 =~= t0.push(dv));
            assert forall|x: Seq<char>| #[trigger] seen@.contains_key(x) <==> t1.contains(x) by {
                if t0.contains(x) {
                    let q = t0.index_of(x);
                    assert(t1[q] == x);
                }
                if x == dv {
                    assert(t1[i as int] == x);
                }
                if t1.contains(x) && x != dv {
                    let q = t1.index_of(x);
                    assert(t0[q] == x);
                }
            }
        }
        assert(issues_view(issues@) =~= issues_view(old(issues)@) + name_issues(procs, i + 1));
        i = i + 1;
    }
}

/// Every validation issue of a process table (see [`spec_issues`]).
pub fn collect_issues(procs: &StrMap<Process>) -> (issues: Vec<ValidationIssue>)
    ensures
        issues_view(issues@) == spec_issues(procs),
{
    let mut issues: Vec<ValidationIssue> = Vec::new();
    let n = procs.len();
    let mut i: usize = 0;
    assert(issues_view(issues@) =~= entry_issues(procs, 0));
    while i < n
        invariant
            i <= n,
            n == procs.keys().len(),
            issues_view(issues@) == entry_issues(procs, i as int),
        decreases n - i,
    {
        proof {
            use_type_invariant(procs);
            procs.lemma_view();
        }
        validate_process(procs.key_at(i).as_str(), procs.value_at(i), procs, &mut issues);
        i = i + 1;
    }
    check_unique_names(procs, &mut issues);
    issues
}

/// Joins a cycle's names with ` -> `.
fn join_cycle(c: &Vec<String>) -> (s: String)
    ensures
        s@ == join_arrow(strs(c@)),
{
    let mut s = String::new();
    let mut i: usize = 0;
    while i < c.len()
        invariant
            i <= c.len(),
            s@ == join_arrow(strs(c@).take(i as int)),
        decreases c.len() - i,
    {
        let ghost t1 = strs(c@).take(i + 1);
        proof {
            assert(t1.drop_last() =~= strs(c@).take(i as int));
            assert(t1.last() == c[i as int]@);
        }
        if i > 0 {
            append_str(&mut s, " -> ");
        }
        append_str(&mut s, c[i].as_str());
        proof {
            if i == 0 {
                assert(strs(c@).take(0) =~= Seq::<Seq<char>>::empty());
                assert(s@ =~= t1[0]);
            }
        }
        i = i + 1;
    }
    assert(strs(c@).take(c.len() as int) =~= strs(c@));
    s
}

/// What validating a process table yields: all issues when there are any,
/// else the first dependency cycle, else success.
pub open spec fn validation_ok(procs: &StrMap<Process>, adj: &Adjacency, r: Result<(), ConfigError>) -> bool {
    if spec_issues(procs).len() > 0 {
        r matches Err(ConfigError::Validation(is)) && issues_view(is@) == spec_issues(procs)
    } else {
        match spec_detect_cycle(adj) {
            Some(c) => r matches Err(ConfigError::Cycle(s)) && s@ == join_arrow(c),
            None => r is Ok,
        }
    }
}

/// `r` is what validating `procs` yields, read through its adjacency maps
/// (there is one, and they all agree).
pub open spec fn validated(procs: &StrMap<Process>, r: Result<(), ConfigError>) -> bool {
    &&& exists|adj: Adjacency| #[trigger] adjacency_matches(&adj, procs)
    &&& forall|adj: Adjacency| #[trigger] adjacency_matches(&adj, procs) ==> validation_ok(procs, &adj, r)
}

/// Checks every process for correctness, then detects dependency cycles.
pub fn validate(procs: &StrMap<Process>) -> (r: Result<(), ConfigError>)
    ensures
        validated(procs, r),
{
    let adj = adjacency_of(procs);
    let issues = collect_issues(procs);
    if issues.len() > 0 {
        let r = Err(ConfigError::Validation(issues));
        assert(adjacency_matches(&adj, procs));
        return r;
    }
    let r = match detect_cycle(&adj) {
        Some(cycle) => Err(ConfigError::Cycle(join_cycle(&cycle))),
        None => Ok(()),
    };
    proof {
        assert forall|a2: Adjacency| #[trigger] adjacency_matches(&a2, procs) implies validation_ok(procs, &a2, r) by {
            lemma_adjacency_unique(&adj, &a2, procs);
        }
        assert(adjacency_matches(&adj, procs));
    }
    r
}

/// Two adjacency maps of one process table describe the same graph.
pub proof fn lemma_adjacency_unique(a: &Adjacency, b: &Adjacency, procs: &StrMap<Process>)
    requires
        adjacency_matches(a, procs),
        adjacency_matches(b, procs),
    ensures
        spec_detect_cycle(a) == spec_detect_cycle(b),
{
    assert(a@.dom() =~= b@.dom());
    assert forall|k: Seq<char>| #[trigger] a@.contains_key(k) implies deps_of(a, k) == deps_of(b, k) by {}
    lemma_same_graph(a, b);
}

} // verus!
