//! Configuration: the process table, its dependency graph, validation,
//! environment layering and filtering.

pub mod dfs;
pub mod environment;
pub mod error;
pub mod reach;
pub mod graph;
pub mod procfile;
pub mod schema;
pub mod validate;

use vstd::prelude::*;

use crate::strmap::{StrMap, sorted_keys, lemma_sorted_unique};
use crate::text::seq_lt;
use crate::text::{chars_of, lower, str_eq, string_from, to_lower, trim, trim_bounds};
use error::{ConfigError, ConfigWarning};
use graph::{index_in, Adjacency, dependents, depends_on_any, deps_of, is_reachable, reachable, strs, deps_closed, dependents_closed};
use schema::Process;
use validate::{adjacency_matches, adjacency_of, displays, validate, validated, spec_issues, entry_issues, name_issues, process_issues, dep_issues, dep_issue, tagged, opt, readiness_block, color_block};
use environment::{EnvFiles, files_present, resolve, resolve_ok, same_but_env};
use procfile::{Parsed, TopValue, parse_plain, parse_toml, plain_lines, plain_table, strip_bom, toml_ok};

verus! {

/// Every dependency of every process is itself a process.
pub open spec fn deps_defined(procs: &StrMap<Process>) -> bool {
    forall|k: Seq<char>, d: Seq<char>|
        procs@.contains_key(k) && #[trigger] strs(procs@[k].depends_on@).contains(d) ==> procs@.contains_key(d)
}

/// A process that releases its dependents at launch: no expected exit codes
/// and no readiness check.
pub open spec fn releases_at_launch(p: Process) -> bool {
    p.exit_codes.0@.len() == 0 && p.readiness is None
}

/// Some process depends on `k`.
pub open spec fn depended_on(procs: &StrMap<Process>, k: Seq<char>) -> bool {
    exists|j: Seq<char>| #[trigger] procs@.contains_key(j) && strs(procs@[j].depends_on@).contains(k)
}

/// The names (in name order, among the first `n`) that are depended on yet
/// release their dependents at launch.
pub open spec fn warned(procs: &StrMap<Process>, n: int) -> Seq<Seq<char>>
    decreases n,
{
    if n <= 0 {
        Seq::empty()
    } else if depended_on(procs, procs.keys()[n - 1]) && releases_at_launch(procs.vals()[n - 1]) {
        warned(procs, n - 1).push(procs.keys()[n - 1])
    } else {
        warned(procs, n - 1)
    }
}

/// The names the warnings are about.
pub open spec fn warning_names(ws: Seq<ConfigWarning>) -> Seq<Seq<char>> {
    ws.map_values(|w: ConfigWarning| match w {
        ConfigWarning::DependedOnReleasesAtLaunch(n) => n@,
    })
}

/// The names a filter keeps: with `only`, the named processes and their
/// transitive dependencies; with `except`, all but the named processes and
/// everything that transitively depends on them; with neither, all.
pub open spec fn kept(procs: &StrMap<Process>, adj: &Adjacency, only: Seq<Seq<char>>, except: Seq<Seq<char>>, k: Seq<char>) -> bool {
    if only.len() > 0 {
        is_reachable(adj, only, k)
    } else if except.len() > 0 {
        !except.contains(k) && !depends_on_any(adj, except, k)
    } else {
        true
    }
}

/// A fully-loaded configuration: a name-keyed table of process definitions
/// with resolved environments, iterated in name order.
pub struct Config {
    /// Private so mutation stays inside `Config`, preserving the validated
    /// invariant that every dependency is defined; read via [`Config::processes`].
    processes: StrMap<Process>,
    /// The file this config was loaded from; read via [`Config::file_path`].
    file_path: String,
}

impl Config {
    /// The invariant: every dependency names a process of the table.
    #[verifier::type_invariant]
    closed spec fn inv(&self) -> bool {
        deps_defined(&self.processes)
    }

    /// The process table.
    pub closed spec fn table(&self) -> StrMap<Process> {
        self.processes
    }

    /// The path the config was loaded from.
    pub closed spec fn path(&self) -> Seq<char> {
        self.file_path@
    }

    /// Builds the `name -> depends_on` adjacency map for graph traversal.
    pub fn adjacency(&self) -> (adj: Adjacency)
        ensures
            adjacency_matches(&adj, &self.table()),
    {
        adjacency_of(&self.processes)
    }

    /// Returns the processes, keyed by name in alphabetical order.
    pub fn processes(&self) -> (p: &StrMap<Process>)
        ensures
            *p == self.table(),
            deps_defined(p),
    {
        proof {
            use_type_invariant(self);
        }
        &self.processes
    }

    /// The file this config was loaded from.
    pub fn file_path(&self) -> (p: &str)
        ensures
            p@ == self.path(),
    {
        self.file_path.as_str()
    }

    /// Returns all process names in alphabetical order.
    pub fn names(&self) -> (names: Vec<String>)
        ensures
            strs(names@) == self.table().keys(),
    {
        let mut names: Vec<String> = Vec::new();
        let n = self.processes.len();
        let mut i: usize = 0;
        while i < n
            invariant
                i <= n,
                n == self.processes.keys().len(),
                strs(names@) == self.processes.keys().take(i as int),
            decreases n - i,
        {
            let ghost before = names@;
            let k = self.processes.key_at(i).clone();
            names.push(k);
            assert(strs(names@) =~= strs(before).push(k@));
            i = i + 1;
            assert(strs(names@) =~= self.processes.keys().take(i as int));
        }
        assert(self.processes.keys().take(n as int) =~= self.processes.keys());
        names
    }

    /// The display name (the `name` override, else the key) for each process, in
    /// alphabetical key order. Sizes the log prefix width and the tab labels.
    pub fn display_names(&self) -> (names: Vec<String>)
        ensures
            strs(names@) == displays(&self.table()),
    {
        let mut names: Vec<String> = Vec::new();
        let n = self.processes.len();
        let mut i: usize = 0;
        while i < n
            invariant
                i <= n,
                n == self.processes.keys().len(),
                strs(names@) == displays(&self.processes).take(i as int),
            decreases n - i,
        {
            proof {
                use_type_invariant(&self.processes);
                self.processes.lemma_view();
            }
            let ghost before = names@;
            let d = self.processes.value_at(i).display_name(self.processes.key_at(i).as_str()).to_owned();
            names.push(d);
            assert(strs(names@) =~= strs(before).push(d@));
            i = i + 1;
            assert(strs(names@) =~= displays(&self.processes).take(i as int));
        }
        assert(displays(&self.processes).take(n as int) =~= displays(&self.processes));
        names
    }

    /// Non-fatal concerns: a depended-on process with no readiness signal
    /// releases its dependents at launch, which is valid but easy to mistake.
    pub fn warnings(&self) -> (ws: Vec<ConfigWarning>)
        ensures
            warning_names(ws@) == warned(&self.table(), self.table().keys().len() as int),
    {
        proof {
            use_type_invariant(&self.processes);
            self.processes.lemma_view();
        }
        let n = self.processes.len();
        // Every name some process depends on.
        let mut depended: StrMap<()> = StrMap::new();
        let mut i: usize = 0;
        while i < n
            invariant
                i <= n,
                n == self.processes.keys().len(),
                self.processes.keys().len() == self.processes.vals().len(),
                forall|x: Seq<char>| #[trigger] depended@.contains_key(x) <==> exists|j: int|
                    0 <= j < i && #[trigger] strs(self.processes.vals()[j].depends_on@).contains(x),
            decreases n - i,
        {
            let deps = &self.processes.value_at(i).depends_on;
            let mut q: usize = 0;
            while q < deps.len()
                invariant
                    i < n,
                    n == self.processes.keys().len(),
                    self.processes.keys().len() == self.processes.vals().len(),
                    *deps == self.processes.vals()[i as int].depends_on,
                    q <= deps.len(),
                    forall|x: Seq<char>| #[trigger] depended@.contains_key(x) <==> (exists|j: int|
                        0 <= j < i && #[trigger] strs(self.processes.vals()[j].depends_on@).contains(x))
                        || strs(deps@).take(q as int).contains(x),
                decreases deps.len() - q,
            {
                depended.insert(deps[q].clone(), ());
                proof {
                    let t0 = strs(deps@).take(q as int);
                    let t1 = strs(deps@).take(q + 1);
                    assert(t1 =~= t0.push(deps[q as int]@));
                    assert forall|x: Seq<char>| #[trigger] depended@.contains_key(x) <==> (exists|j: int|
                        0 <= j < i && #[trigger] strs(self.processes.vals()[j].depends_on@).contains(x))
                        || t1.contains(x) by {
                        if t0.contains(x) {
                            let p = t0.index_of(x);
                            assert(t1[p] == x);
                        }
                        if x == deps[q as int]@ {
                            assert(t1[q as int] == x);
                        }
                        if t1.contains(x) && x != deps[q as int]@ {
                            let p = t1.index_of(x);
                            assert(t0[p] == x);
                        }
                    }
                }
                q = q + 1;
            }
            proof {
                assert(strs(deps@).take(deps.len() as int) =~= strs(deps@));
                assert forall|x: Seq<char>| #[trigger] depended@.contains_key(x) <==> exists|j: int|
                    0 <= j < i + 1 && #[trigger] strs(self.processes.vals()[j].depends_on@).contains(x) by {
                    if strs(deps@).contains(x) {
                        assert(strs(self.processes.vals()[i as int].depends_on@).contains(x));
                    }
                    if exists|j: int| 0 <= j < i + 1 && #[trigger] strs(self.processes.vals()[j].depends_on@).contains(x) {
                        let j = choose|j: int| 0 <= j < i + 1 && #[trigger] strs(self.processes.vals()[j].depends_on@).contains(x);
                        if j == i {
                            assert(strs(deps@).contains(x));
                        }
                    }
                }
            }
            i = i + 1;
        }
        let mut ws: Vec<ConfigWarning> = Vec::new();
        let mut i: usize = 0;
        while i < n
            invariant
                i <= n,
                n == self.processes.keys().len(),
                self.processes.keys().len() == self.processes.vals().len(),
                forall|x: Seq<char>| #[trigger] depended@.contains_key(x) <==> exists|j: int|
                    0 <= j < n && #[trigger] strs(self.processes.vals()[j].depends_on@).contains(x),
                warning_names(ws@) == warned(&self.processes, i as int),
            decreases n - i,
        {
            proof {
                use_type_invariant(&self.processes);
                self.processes.lemma_view();
                let k = self.processes.keys()[i as int];
                assert(depended@.contains_key(k) <==> depended_on(&self.processes, k)) by {
                    if depended@.contains_key(k) {
                        let j = choose|j: int| 0 <= j < n && #[trigger] strs(self.processes.vals()[j].depends_on@).contains(k);
                        let kj = self.processes.keys()[j];
                        assert(self.processes@[kj] == self.processes.vals()[j]);
                    }
                    if depended_on(&self.processes, k) {
                        let kj = choose|kj: Seq<char>| #[trigger] self.processes@.contains_key(kj) && strs(self.processes@[kj].depends_on@).contains(k);
                        let j = self.processes.keys().index_of(kj);
                        assert(self.processes@[kj] == self.processes.vals()[j]);
                    }
                }
            }
            let key = self.processes.key_at(i);
            let p = self.processes.value_at(i);
            if depended.contains_key(key.as_str()) && p.exit_codes.is_empty() && p.readiness.is_none() {
                let ghost before = ws@;
                ws.push(ConfigWarning::DependedOnReleasesAtLaunch(key.clone()));
                assert(warning_names(ws@) =~= warning_names(before).push(key@));
            }
            i = i + 1;
        }
        ws
    }
}


/// The first of `names` that is not in `keys`.
pub open spec fn first_unknown(names: Seq<Seq<char>>, keys: Set<Seq<char>>) -> Option<Seq<char>>
    decreases names.len(),
{
    if names.len() == 0 {
        None
    } else if !keys.contains(names[0]) {
        Some(names[0])
    } else {
        first_unknown(names.drop_first(), keys)
    }
}

/// A dependency of a reachable name is reachable.
pub proof fn lemma_reach_dep(adj: &Adjacency, start: Seq<Seq<char>>, k: Seq<char>, d: Seq<char>)
    requires
        is_reachable(adj, start, k),
        deps_of(adj, k).contains(d),
    ensures
        is_reachable(adj, start, d),
{
    assert forall|s: Set<Seq<char>>| #[trigger] deps_closed(adj, s) && start.to_set().subset_of(s) implies s.contains(d) by {
        assert(s.contains(k));
    }
}

/// A name with a dependency on a root, or on a dependent of one, is a dependent.
pub proof fn lemma_dependent_step(adj: &Adjacency, roots: Seq<Seq<char>>, k: Seq<char>, d: Seq<char>)
    requires
        deps_of(adj, k).contains(d),
        roots.contains(d) || depends_on_any(adj, roots, d),
    ensures
        depends_on_any(adj, roots, k),
{
    assert forall|s: Set<Seq<char>>| #[trigger] dependents_closed(adj, roots.to_set(), s) implies s.contains(k) by {
        if roots.contains(d) {
            assert(roots.to_set().contains(d));
        } else {
            assert(s.contains(d));
        }
    }
}

/// The first of `names` that is not a process.
fn first_missing(names: &Vec<String>, procs: &StrMap<Process>) -> (r: Option<String>)
    ensures
        match first_unknown(strs(names@), procs@.dom()) {
            Some(n) => r matches Some(m) && m@ == n,
            None => r is None,
        },
{
    let mut i: usize = 0;
    assert(strs(names@).skip(0) =~= strs(names@));
    while i < names.len()
        invariant
            i <= names.len(),
            first_unknown(strs(names@), procs@.dom()) == first_unknown(strs(names@).skip(i as int), procs@.dom()),
        decreases names.len() - i,
    {
        let ghost rest = strs(names@).skip(i as int);
        assert(rest[0] == names[i as int]@);
        assert(rest.drop_first() =~= strs(names@).skip(i + 1));
        if !procs.contains_key(names[i].as_str()) {
            return Some(names[i].clone());
        }
        i = i + 1;
    }
    assert(strs(names@).skip(names.len() as int) =~= Seq::<Seq<char>>::empty());
    None
}

/// Whether `s` is one of `names`.
fn listed(names: &Vec<String>, s: &str) -> (b: bool)
    ensures
        b == strs(names@).contains(s@),
{
    match index_in(names, s) {
        Some(i) => {
            assert(strs(names@)[i as int] == s@);
            true
        },
        None => false,
    }
}

impl Config {
    /// Restricts the config: `only` keeps the named processes and their deps;
    /// `except` drops them and everything that depends on them. Both, or unknown
    /// names, error and leave the config as it was.
    pub fn filter(&mut self, only: &Vec<String>, except: &Vec<String>) -> (r: Result<(), ConfigError>)
        ensures
            final(self).path() == old(self).path(),
            deps_defined(&final(self).table()),
            only@.len() > 0 && except@.len() > 0 ==> r matches Err(ConfigError::OnlyAndExcept),
            !(only@.len() > 0 && except@.len() > 0) ==> match first_unknown(strs(only@), old(self).table()@.dom()) {
                Some(n) => r matches Err(ConfigError::UnknownOnly(m)) && m@ == n,
                None => match first_unknown(strs(except@), old(self).table()@.dom()) {
                    Some(n) => r matches Err(ConfigError::UnknownExcept(m)) && m@ == n,
                    None => r is Ok,
                },
            },
            r is Err ==> final(self).table()@ == old(self).table()@,
            r is Ok ==> forall|adj: Adjacency| #[trigger] adjacency_matches(&adj, &old(self).table()) ==> final(self).table()@
                == old(self).table()@.restrict(
                Set::new(|k: Seq<char>| kept(&old(self).table(), &adj, strs(only@), strs(except@), k)),
            ),
    {
        proof {
            use_type_invariant(&*self);
        }
        if only.len() > 0 && except.len() > 0 {
            return Err(ConfigError::OnlyAndExcept);
        }
        match first_missing(only, &self.processes) {
            Some(name) => {
                return Err(ConfigError::UnknownOnly(name));
            },
            None => {},
        }
        match first_missing(except, &self.processes) {
            Some(name) => {
                return Err(ConfigError::UnknownExcept(name));
            },
            None => {},
        }
        if only.len() == 0 && except.len() == 0 {
            proof {
                assert forall|adj: Adjacency| #[trigger] adjacency_matches(&adj, &self.processes) implies self.processes@
                    == self.processes@.restrict(
                    Set::new(|k: Seq<char>| kept(&self.processes, &adj, strs(only@), strs(except@), k)),
                ) by {
                    assert(self.processes@ =~= self.processes@.restrict(
                        Set::new(|k: Seq<char>| kept(&self.processes, &adj, strs(only@), strs(except@), k)),
                    ));
                }
            }
            return Ok(());
        }
        let adj = self.adjacency();
        let ghost old_table = self.processes;
        let mut procs: StrMap<Process> = StrMap::new();
        std::mem::swap(&mut procs, &mut self.processes);
        proof {
            use_type_invariant(&procs);
            procs.lemma_view();
        }
        let n = procs.len();
        let mut flags: Vec<bool> = Vec::new();
        let ghost keepset = Set::new(|k: Seq<char>| kept(&old_table, &adj, strs(only@), strs(except@), k));
        if only.len() > 0 {
            let keep = reachable(only, &adj);
            let mut i: usize = 0;
            while i < n
                invariant
                    i <= n,
                    n == procs.keys().len(),
                    flags.len() == i,
                    procs == old_table,
                    keepset == Set::new(|k: Seq<char>| kept(&old_table, &adj, strs(only@), strs(except@), k)),
                    only@.len() > 0,
                    forall|x: Seq<char>| #[trigger] strs(keep@).contains(x) <==> is_reachable(&adj, strs(only@), x),
                    forall|j: int| 0 <= j < i ==> #[trigger] flags[j] == keepset.contains(procs.keys()[j]),
                decreases n - i,
            {
                let f = listed(&keep, procs.key_at(i).as_str());
                proof {
                    let k = procs.keys()[i as int];
                    assert(keepset.contains(k) == kept(&old_table, &adj, strs(only@), strs(except@), k));
                }
                flags.push(f);
                i = i + 1;
            }
        } else {
            let drop = dependents(except, &adj);
            let mut i: usize = 0;
            while i < n
                invariant
                    i <= n,
                    n == procs.keys().len(),
                    flags.len() == i,
                    procs == old_table,
                    keepset == Set::new(|k: Seq<char>| kept(&old_table, &adj, strs(only@), strs(except@), k)),
                    only@.len() == 0,
                    except@.len() > 0,
                    forall|x: Seq<char>| #[trigger] strs(drop@).contains(x) <==> (depends_on_any(&adj, strs(except@), x)
                        && !strs(except@).contains(x)),
                    forall|j: int| 0 <= j < i ==> #[trigger] flags[j] == keepset.contains(procs.keys()[j]),
                decreases n - i,
            {
                let k = procs.key_at(i);
                let gone = listed(except, k.as_str()) || listed(&drop, k.as_str());
                proof {
                    let kk = procs.keys()[i as int];
                    assert(keepset.contains(kk) == kept(&old_table, &adj, strs(only@), strs(except@), kk));
                }
                flags.push(!gone);
                i = i + 1;
            }
        }
        procs.retain_flagged(&flags);
        proof {
            assert(procs@ =~= old_table@.restrict(keepset)) by {
                assert forall|k: Seq<char>| #[trigger] keepset.contains(k) && old_table@.contains_key(k) ==> exists|i: int|
                    0 <= i < flags.len() && flags[i] && old_table.keys()[i] == k by {
                    if keepset.contains(k) && old_table@.contains_key(k) {
                        let i = old_table.keys().index_of(k);
                        assert(flags[i] == keepset.contains(old_table.keys()[i]));
                    }
                }
            }
            // Every dependency of a kept process is kept.
            assert forall|k: Seq<char>, d: Seq<char>|
                procs@.contains_key(k) && #[trigger] strs(procs@[k].depends_on@).contains(d) implies procs@.contains_key(d) by {
                assert(old_table@.contains_key(k));
                assert(deps_of(&adj, k) == strs(old_table@[k].depends_on@));
                assert(old_table@.contains_key(d));
                if only@.len() > 0 {
                    lemma_reach_dep(&adj, strs(only@), k, d);
                } else {
                    if strs(except@).contains(d) || depends_on_any(&adj, strs(except@), d) {
                        lemma_dependent_step(&adj, strs(except@), k, d);
                    }
                }
            }
            assert forall|a2: Adjacency| #[trigger] adjacency_matches(&a2, &old_table) implies procs@ == old_table@.restrict(
                Set::new(|k: Seq<char>| kept(&old_table, &a2, strs(only@), strs(except@), k)),
            ) by {
                lemma_kept_same(&old_table, &adj, &a2, strs(only@), strs(except@));
                assert(Set::new(|k: Seq<char>| kept(&old_table, &a2, strs(only@), strs(except@), k)) =~= keepset);
            }
        }
        self.processes = procs;
        Ok(())
    }
}

/// Whether a filter keeps a name does not depend on which adjacency map of the
/// table it is read through.
proof fn lemma_kept_same(procs: &StrMap<Process>, a: &Adjacency, b: &Adjacency, only: Seq<Seq<char>>, except: Seq<Seq<char>>)
    requires
        adjacency_matches(a, procs),
        adjacency_matches(b, procs),
    ensures
        forall|k: Seq<char>| #[trigger] kept(procs, a, only, except, k) == kept(procs, b, only, except, k),
{
    assert forall|k: Seq<char>| #[trigger] deps_of(a, k) == deps_of(b, k) by {
        if !a@.contains_key(k) {
            assert(!b@.contains_key(k));
        }
    }
    assert forall|s: Set<Seq<char>>| #[trigger] deps_closed(a, s) == deps_closed(b, s) by {
        if deps_closed(a, s) {
            assert forall|x: Seq<char>, d: Seq<char>| s.contains(x) && #[trigger] deps_of(b, x).contains(d) implies s.contains(d) by {
                assert(deps_of(a, x) == deps_of(b, x));
            }
        }
        if deps_closed(b, s) {
            assert forall|x: Seq<char>, d: Seq<char>| s.contains(x) && #[trigger] deps_of(a, x).contains(d) implies s.contains(d) by {
                assert(deps_of(a, x) == deps_of(b, x));
            }
        }
    }
    assert forall|r: Set<Seq<char>>, s: Set<Seq<char>>| #[trigger] dependents_closed(a, r, s) == dependents_closed(b, r, s) by {
        if dependents_closed(a, r, s) {
            assert forall|x: Seq<char>, d: Seq<char>| #[trigger] deps_of(b, x).contains(d) && (r.contains(d) || s.contains(d)) implies s.contains(x) by {
                assert(deps_of(a, x) == deps_of(b, x));
            }
        }
        if dependents_closed(b, r, s) {
            assert forall|x: Seq<char>, d: Seq<char>| #[trigger] deps_of(a, x).contains(d) && (r.contains(d) || s.contains(d)) implies s.contains(x) by {
                assert(deps_of(a, x) == deps_of(b, x));
            }
        }
    }
    assert forall|k: Seq<char>| #[trigger] kept(procs, a, only, except, k) == kept(procs, b, only, except, k) by {
        if is_reachable(a, only, k) {
            assert forall|s: Set<Seq<char>>| #[trigger] deps_closed(b, s) && only.to_set().subset_of(s) implies s.contains(k) by {
                assert(deps_closed(a, s));
            }
        }
        if is_reachable(b, only, k) {
            assert forall|s: Set<Seq<char>>| #[trigger] deps_closed(a, s) && only.to_set().subset_of(s) implies s.contains(k) by {
                assert(deps_closed(b, s));
            }
        }
        if depends_on_any(a, except, k) {
            assert forall|s: Set<Seq<char>>| #[trigger] dependents_closed(b, except.to_set(), s) implies s.contains(k) by {
                assert(dependents_closed(a, except.to_set(), s));
            }
        }
        if depends_on_any(b, except, k) {
            assert forall|s: Set<Seq<char>>| #[trigger] dependents_closed(a, except.to_set(), s) implies s.contains(k) by {
                assert(dependents_closed(b, except.to_set(), s));
            }
        }
    }
}


/// Where a config's text comes from, as the loader reads it.
pub enum Source {
    /// A TOML config: its decoded top-level entries, or why it does not parse.
    Toml(Result<StrMap<TopValue>, String>),
    /// A plain Procfile: its text, and whether a sibling `.env` file exists.
    Plain { text: String, env_file_exists: bool },
}

/// The config file names tried, in order, when no path is given: TOML, then plain.
pub fn default_config_files() -> (names: Vec<String>)
    ensures
        strs(names@) == seq!["Procfile.toml"@, "Procfile"@],
{
    let mut names: Vec<String> = Vec::new();
    names.push("Procfile.toml".to_owned());
    names.push("Procfile".to_owned());
    assert(strs(names@) =~= seq!["Procfile.toml"@, "Procfile"@]);
    names
}

/// The first index whose flag is set, among the first `n`.
pub open spec fn first_set(flags: Seq<bool>, n: int) -> Option<int>
    decreases n,
{
    if n <= 0 {
        None
    } else {
        match first_set(flags, n - 1) {
            Some(i) => Some(i),
            None => if flags[n - 1] {
                Some(n - 1)
            } else {
                None
            },
        }
    }
}

/// The explicit path if given, else the first default config file that exists
/// (`exists[i]` tells whether the `i`-th of [`default_config_files`] does).
pub fn resolve_path(explicit: Option<String>, exists: &Vec<bool>) -> (r: Result<String, ConfigError>)
    requires
        exists@.len() == 2,
    ensures
        match explicit {
            Some(p) => r == Ok::<String, ConfigError>(p),
            None => match first_set(exists@, 2) {
                Some(i) => r matches Ok(p) && p@ == seq!["Procfile.toml"@, "Procfile"@][i],
                None => r matches Err(ConfigError::NoDefaultConfig),
            },
        },
{
    if let Some(path) = explicit {
        return Ok(path);
    }
    let names = default_config_files();
    assert(strs(names@).len() == 2);
    let mut i: usize = 0;
    while i < 2
        invariant
            i <= 2,
            names.len() == 2,
            exists@.len() == 2,
            strs(names@) == seq!["Procfile.toml"@, "Procfile"@],
            explicit is None,
            first_set(exists@, i as int) is None,
        decreases 2 - i,
    {
        if exists[i] {
            proof {
                lemma_first_set_at(exists@, 2, i as int);
                assert(strs(names@)[i as int] == names[i as int]@);
            }
            return Ok(names[i].clone());
        }
        i = i + 1;
    }
    Err(ConfigError::NoDefaultConfig)
}

proof fn lemma_first_set_at(flags: Seq<bool>, n: int, i: int)
    requires
        first_set(flags, i) is None,
        0 <= i < n,
        flags[i],
    ensures
        first_set(flags, n) == Some(i),
    decreases n,
{
    if i < n - 1 {
        lemma_first_set_at(flags, n - 1, i);
    }
}

/// The last path component, trailing slashes ignored.
pub open spec fn file_name(p: Seq<char>) -> Seq<char>
    decreases p.len(),
{
    if p.len() == 0 {
        p
    } else if p.last() == '/' {
        file_name(p.drop_last())
    } else {
        last_segment(p)
    }
}

/// What follows the last `/` (all of `p` when there is none).
pub open spec fn last_segment(p: Seq<char>) -> Seq<char>
    decreases p.len(),
{
    if p.len() == 0 {
        p
    } else if p.last() == '/' {
        Seq::empty()
    } else {
        last_segment(p.drop_last()).push(p.last())
    }
}

/// The extension of a file name: what follows its last `.`, unless that dot
/// starts the name (a hidden file) or the name is `..`.
pub open spec fn extension(name: Seq<char>) -> Option<Seq<char>>
    decreases name.len(),
{
    if name == ".."@ || name.len() == 0 {
        None
    } else {
        dot_suffix(name, name.len() as int)
    }
}

/// The text after the last `.` among the first `n` characters (not counting a
/// dot in first position).
pub open spec fn dot_suffix(name: Seq<char>, n: int) -> Option<Seq<char>>
    decreases n,
{
    if n <= 1 {
        None
    } else if name[n - 1] == '.' {
        Some(name.subrange(n, name.len() as int))
    } else {
        dot_suffix(name, n - 1)
    }
}

/// Whether a path should be read as TOML: a `.toml` extension, case-insensitive.
pub open spec fn spec_is_toml(path: Seq<char>) -> bool {
    match extension(file_name(path)) {
        Some(e) => e.map_values(|c: char| lower(c)) == "toml"@,
        None => false,
    }
}

/// The bounds of the last path component of `cs`, trailing slashes ignored.
fn file_name_bounds(cs: &Vec<char>) -> (r: (usize, usize))
    ensures
        r.0 <= r.1 <= cs.len(),
        cs@.subrange(r.0 as int, r.1 as int) == file_name(cs@),
{
    let mut end = cs.len();
    assert(cs@.take(end as int) =~= cs@);
    while end > 0 && cs[end - 1] == '/'
        invariant
            end <= cs.len(),
            file_name(cs@) == file_name(cs@.take(end as int)),
        decreases end,
    {
        assert(cs@.take(end as int).drop_last() =~= cs@.take(end - 1));
        end = end - 1;
    }
    let mut start = end;
    assert(cs@.subrange(start as int, end as int) =~= Seq::<char>::empty());
    assert(last_segment(cs@.take(end as int)) =~= last_segment(cs@.take(start as int)) + cs@.subrange(start as int, end as int));
    while start > 0 && cs[start - 1] != '/'
        invariant
            start <= end <= cs.len(),
            last_segment(cs@.take(end as int)) == last_segment(cs@.take(start as int)) + cs@.subrange(start as int, end as int),
        decreases start,
    {
        proof {
            let t = cs@.take(start as int);
            assert(t.drop_last() =~= cs@.take(start - 1));
            assert(cs@.subrange(start - 1, end as int) =~= seq![cs@[start - 1]] + cs@.subrange(start as int, end as int));
            assert(last_segment(t) == last_segment(cs@.take(start - 1)).push(cs@[start - 1]));
            assert(last_segment(cs@.take(start - 1)).push(cs@[start - 1]) + cs@.subrange(start as int, end as int)
                =~= last_segment(cs@.take(start - 1)) + cs@.subrange(start - 1, end as int));
        }
        start = start - 1;
    }
    proof {
        assert(last_segment(cs@.take(start as int)) =~= Seq::<char>::empty()) by {
            if start > 0 {
                assert(cs@.take(start as int).last() == '/');
            }
        }
        assert(last_segment(cs@.take(end as int)) =~= cs@.subrange(start as int, end as int));
        if end > 0 {
            assert(cs@.take(end as int).last() != '/');
        }
    }
    (start, end)
}

/// Whether the extension of the name `cs[start..end]` is `toml`, any case.
fn has_toml_extension(cs: &Vec<char>, start: usize, end: usize) -> (b: bool)
    requires
        start <= end <= cs.len(),
    ensures
        b == (match extension(cs@.subrange(start as int, end as int)) {
            Some(e) => e.map_values(|c: char| lower(c)) == "toml"@,
            None => false,
        }),
{
    let ghost name = cs@.subrange(start as int, end as int);
    proof {
        reveal_strlit("..");
        reveal_strlit("toml");
    }
    let len = end - start;
    if len == 0 || (len == 2 && cs[start] == '.' && cs[start + 1] == '.') {
        proof {
            if len == 2 {
                assert(name =~= ".."@);
            }
        }
        return false;
    }
    proof {
        if name == ".."@ {
            assert(name[0] == '.' && name[1] == '.');
        }
    }
    // The extension follows the last dot, unless that dot starts the name.
    let mut k = end;
    while k > start + 1 && cs[k - 1] != '.'
        invariant
            start < k <= end <= cs.len(),
            name == cs@.subrange(start as int, end as int),
            dot_suffix(name, name.len() as int) == dot_suffix(name, k - start),
        decreases k,
    {
        assert(name[k - 1 - start] == cs@[k - 1]);
        k = k - 1;
    }
    if k <= start + 1 {
        return false;
    }
    assert(name[k - 1 - start] == '.');
    assert(name.subrange(k - start, name.len() as int) =~= cs@.subrange(k as int, end as int));
    if end - k != 4 {
        assert(cs@.subrange(k as int, end as int).map_values(|c: char| lower(c)).len() != 4);
        return false;
    }
    let ok = to_lower(cs[k]) == 't' && to_lower(cs[k + 1]) == 'o' && to_lower(cs[k + 2]) == 'm' && to_lower(cs[k + 3]) == 'l';
    proof {
        let e = cs@.subrange(k as int, end as int).map_values(|c: char| lower(c));
        if ok {
            assert(e =~= "toml"@);
        } else {
            assert(e != "toml"@) by {
                if e == "toml"@ {
                    assert(e[0] == 't' && e[1] == 'o' && e[2] == 'm' && e[3] == 'l');
                }
            }
        }
    }
    ok
}

/// Whether a path should be read as TOML: a `.toml` extension, case-insensitive.
pub fn is_toml(path: &str) -> (b: bool)
    ensures
        b == spec_is_toml(path@),
{
    let cs = chars_of(path);
    let (start, end) = file_name_bounds(&cs);
    has_toml_extension(&cs, start, end)
}

/// What reading a config's text yields (see [`Config::parse`]).
pub open spec fn parse_ok(path: Seq<char>, source: Source, r: Result<Parsed, ConfigError>) -> bool {
    match source {
        Source::Toml(Err(m)) => r matches Err(ConfigError::Toml { path: p, message }) && p@ == path && message@ == m@,
        Source::Toml(Ok(top)) => toml_ok(&top, path, r),
        Source::Plain { text, env_file_exists } => match plain_lines(strip_bom(text@), 1, Map::empty()) {
            Ok(table) => r matches Ok(p) && (match p.global_env_file {
                Some(f) => env_file_exists && f@ == ".env"@,
                None => !env_file_exists,
            }) && p.global_env@ == Map::<Seq<char>, String>::empty() && plain_table(&p.processes, table),
            Err((line, reason)) => r matches Err(ConfigError::Procfile { path: pp, line: l, reason: rr })
                && pp@ == path && l == line && rr@ == reason,
        },
    }
}


/// Dependency issues of the first `n` dependencies are none only when each of
/// those dependencies names a process.
proof fn lemma_dep_issues_empty(name: Seq<char>, ds: Seq<Seq<char>>, keys: Set<Seq<char>>, n: int)
    requires
        0 <= n <= ds.len(),
        dep_issues(name, ds, keys, n).len() == 0,
    ensures
        forall|j: int| 0 <= j < n ==> keys.contains(#[trigger] ds[j]),
    decreases n,
{
    if n > 0 {
        lemma_dep_issues_empty(name, ds, keys, n - 1);
        assert(dep_issue(name, ds, keys, n - 1).len() == 0);
    }
}

/// With no per-process issues among the first `n`, each of them has none.
proof fn lemma_entry_issues_empty(procs: &StrMap<Process>, n: int)
    requires
        0 <= n <= procs.keys().len(),
        entry_issues(procs, n).len() == 0,
    ensures
        forall|i: int| 0 <= i < n ==> (#[trigger] process_issues(procs.keys()[i], procs.vals()[i], procs@.dom())).len() == 0,
    decreases n,
{
    if n > 0 {
        lemma_entry_issues_empty(procs, n - 1);
    }
}

/// The warned names among the first `n` keys: each one of those keys, in
/// key order.
proof fn lemma_warned(procs: &StrMap<Process>, n: int)
    requires
        procs.wf(),
        0 <= n <= procs.keys().len(),
    ensures
        sorted_keys(warned(procs, n)),
        forall|k: Seq<char>| #[trigger] warned(procs, n).contains(k) <==> exists|i: int|
            0 <= i < n && procs.keys()[i] == k && depended_on(procs, k) && releases_at_launch(#[trigger] procs.vals()[i]),
    decreases n,
{
    procs.lemma_view();
    if n > 0 {
        lemma_warned(procs, n - 1);
        let w = warned(procs, n - 1);
        let kn = procs.keys()[n - 1];
        if depended_on(procs, kn) && releases_at_launch(procs.vals()[n - 1]) {
            let w2 = w.push(kn);
            assert forall|i: int, j: int| 0 <= i < j < w2.len() implies seq_lt(#[trigger] w2[i], #[trigger] w2[j]) by {
                if j < w.len() {
                    assert(w2[i] == w[i] && w2[j] == w[j]);
                } else {
                    assert(w2[i] == w[i]);
                    assert(w.contains(w[i]));
                    let q = choose|q: int| 0 <= q < n - 1 && procs.keys()[q] == w[i] && depended_on(procs, w[i])
                        && releases_at_launch(#[trigger] procs.vals()[q]);
                }
            }
            assert forall|k: Seq<char>| #[trigger] w2.contains(k) <==> exists|i: int|
                0 <= i < n && procs.keys()[i] == k && depended_on(procs, k) && releases_at_launch(#[trigger] procs.vals()[i]) by {
                if w2.contains(k) && k != kn {
                    let p = w2.index_of(k);
                    assert(w[p] == k);
                    assert(w.contains(k));
                }
                if exists|i: int| 0 <= i < n && procs.keys()[i] == k && depended_on(procs, k) && releases_at_launch(#[trigger] procs.vals()[i]) {
                    let i = choose|i: int| 0 <= i < n && procs.keys()[i] == k && depended_on(procs, k) && releases_at_launch(#[trigger] procs.vals()[i]);
                    if i < n - 1 {
                        assert(w.contains(k));
                        let p = w.index_of(k);
                        assert(w2[p] == k);
                    } else {
                        assert(w2[w.len() as int] == k);
                    }
                }
            }
        } else {
            assert forall|k: Seq<char>| #[trigger] w.contains(k) <==> exists|i: int|
                0 <= i < n && procs.keys()[i] == k && depended_on(procs, k) && releases_at_launch(#[trigger] procs.vals()[i]) by {
                if exists|i: int| 0 <= i < n && procs.keys()[i] == k && depended_on(procs, k) && releases_at_launch(#[trigger] procs.vals()[i]) {
                    let i = choose|i: int| 0 <= i < n && procs.keys()[i] == k && depended_on(procs, k) && releases_at_launch(#[trigger] procs.vals()[i]);
                    if i == n - 1 {
                        assert(false);
                    }
                }
            }
        }
    }
}

/// The warnings name, once each and in ascending order, exactly the
/// processes that some process depends on and that release their dependents
/// at launch (no expected exit codes, no readiness check).
pub proof fn lemma_warnings_once_ascending(procs: &StrMap<Process>)
    requires
        procs.wf(),
    ensures
        sorted_keys(warned(procs, procs.keys().len() as int)),
        warned(procs, procs.keys().len() as int).no_duplicates(),
        forall|k: Seq<char>| #[trigger] warned(procs, procs.keys().len() as int).contains(k) <==> (procs@.contains_key(k)
            && depended_on(procs, k) && releases_at_launch(procs@[k])),
{
    procs.lemma_view();
    let n = procs.keys().len() as int;
    lemma_warned(procs, n);
    let w = warned(procs, n);
    assert forall|i: int, j: int| 0 <= i < w.len() && 0 <= j < w.len() && i != j implies w[i] != w[j] by {
        if w[i] == w[j] {
            lemma_sorted_unique(w, i, j);
        }
    }
    assert forall|k: Seq<char>| #[trigger] w.contains(k) <==> (procs@.contains_key(k) && depended_on(procs, k)
        && releases_at_launch(procs@[k])) by {
        if procs@.contains_key(k) {
            let i = procs.keys().index_of(k);
            assert(procs.keys()[i] == k);
            assert(procs@[k] == procs.vals()[i]);
        }
    }
}


/// A table that validates cleanly defines every dependency.
pub proof fn lemma_valid_deps_defined(procs: &StrMap<Process>)
    requires
        procs.wf(),
        spec_issues(procs).len() == 0,
    ensures
        deps_defined(procs),
{
    procs.lemma_view();
    let n = procs.keys().len() as int;
    lemma_entry_issues_empty(procs, n);
    assert forall|k: Seq<char>, d: Seq<char>|
        procs@.contains_key(k) && #[trigger] strs(procs@[k].depends_on@).contains(d) implies procs@.contains_key(d) by {
        let i = procs.keys().index_of(k);
        let p = procs.vals()[i];
        assert(procs@[k] == p);
        let pi = process_issues(k, p, procs@.dom());
        assert(pi.len() == 0);
        let ds = strs(p.depends_on@);
        let di = dep_issues(k, ds, procs@.dom(), p.depends_on@.len() as int);
        assert(pi == opt(p.command@.len() == 0, crate::config::error::IssueKindView::MissingCommand) + readiness_block(p) + di
            + opt(p.max_retries < 0, crate::config::error::IssueKindView::NegativeMaxRetries) + color_block(p));
        assert(di.len() == 0);
        lemma_dep_issues_empty(k, ds, procs@.dom(), p.depends_on@.len() as int);
        let j = ds.index_of(d);
        assert(procs@.dom().contains(ds[j]));
    }
}

impl Config {
    /// Reads a config's text: TOML splits into settings and process tables; a
    /// plain Procfile gets the sibling `.env` file, foreman-style, when it exists.
    pub fn parse(path: &str, source: Source) -> (r: Result<Parsed, ConfigError>)
        requires
            source matches Source::Plain { text, .. } ==> text@.len() < usize::MAX,
        ensures
            parse_ok(path@, source, r),
    {
        match source {
            Source::Toml(Err(m)) => Err(ConfigError::Toml { path: path.to_owned(), message: m }),
            Source::Toml(Ok(top)) => parse_toml(top, path),
            Source::Plain { text, env_file_exists } => {
                match parse_plain(text.as_str(), path) {
                    Ok(mut parsed) => {
                        if env_file_exists {
                            parsed.global_env_file = Some(".env".to_owned());
                        }
                        Ok(parsed)
                    },
                    Err(e) => Err(e),
                }
            },
        }
    }

    /// Validates a parsed config, then resolves every process's environment
    /// (`env_files` holds the env files its layers read).
    pub fn load(path: &str, parsed: Parsed, base_env: StrMap<String>, env_files: &EnvFiles) -> (r: Result<Config, ConfigError>)
        requires
            files_present(&parsed, env_files),
        ensures
            match r {
                Ok(c) => validated(&parsed.processes, Ok(())) && resolve_ok(&parsed, &base_env, env_files, Ok(c.table()))
                    && c.path() == path@,
                Err(e) => validated(&parsed.processes, Err(e)) || (validated(&parsed.processes, Ok(()))
                    && resolve_ok(&parsed, &base_env, env_files, Err(e))),
            },
    {
        let ghost gp = parsed;
        match validate(&parsed.processes) {
            Ok(()) => {},
            Err(e) => {
                return Err(e);
            },
        }
        proof {
            use_type_invariant(&parsed.processes);
            let adj = choose|adj: Adjacency| #[trigger] adjacency_matches(&adj, &parsed.processes);
            assert(validation_ok_ok(&parsed.processes, &adj));
            lemma_valid_deps_defined(&parsed.processes);
        }
        match resolve(parsed, base_env, env_files) {
            Ok(processes) => {
                proof {
                    assert forall|k: Seq<char>, d: Seq<char>|
                        processes@.contains_key(k) && #[trigger] strs(processes@[k].depends_on@).contains(d)
                        implies processes@.contains_key(d) by {
                        assert(same_but_env(processes@[k], gp.processes@[k]));
                        assert(gp.processes@.contains_key(k));
                    }
                }
                Ok(Config { processes, file_path: path.to_owned() })
            },
            Err(e) => Err(e),
        }
    }
}

/// A clean validation reports neither issues nor a cycle.
pub open spec fn validation_ok_ok(procs: &StrMap<Process>, adj: &Adjacency) -> bool {
    validate::validation_ok(procs, adj, Ok(())) ==> spec_issues(procs).len() == 0
}


/// `dependents` is the reverse of `reachable`: a name other than `r` depends,
/// directly or transitively, on `r` exactly when `r` is reachable from it.
pub proof fn lemma_dependents_reverse_reachable(adj: &Adjacency, r: Seq<char>, x: Seq<char>)
    requires
        x != r,
    ensures
        depends_on_any(adj, seq![r], x) <==> is_reachable(adj, seq![x], r),
{
    let roots = seq![r];
    assert(roots.contains(r)) by {
        assert(roots[0] == r);
    }
    if depends_on_any(adj, roots, x) {
        // The names from which `r` is reachable are closed under "depends on".
        let e = Set::new(|k: Seq<char>| is_reachable(adj, seq![k], r));
        assert forall|k: Seq<char>, d: Seq<char>|
            #[trigger] deps_of(adj, k).contains(d) && (roots.to_set().contains(d) || e.contains(d)) implies e.contains(k) by {
            assert forall|s: Set<Seq<char>>| #[trigger] deps_closed(adj, s) && seq![k].to_set().subset_of(s) implies s.contains(r) by {
                assert(seq![k].to_set().contains(k)) by {
                    assert(seq![k][0] == k);
                }
                assert(s.contains(k));
                assert(s.contains(d));
                if roots.to_set().contains(d) {
                    assert(roots.contains(d));
                    let q = roots.index_of(d);
                    assert(d == r);
                } else {
                    assert(is_reachable(adj, seq![d], r));
                    assert(seq![d].to_set().subset_of(s)) by {
                        assert forall|z: Seq<char>| seq![d].to_set().contains(z) implies s.contains(z) by {
                            let q = seq![d].index_of(z);
                            assert(seq![d][q] == d);
                        }
                    }
                }
            }
        }
        assert(dependents_closed(adj, roots.to_set(), e));
    }
    if is_reachable(adj, seq![x], r) && !depends_on_any(adj, roots, x) {
        // The names that neither are `r` nor depend on it are closed under
        // dependencies, hold `x`, and so would hold `r`.
        let d_set = Set::new(|k: Seq<char>| k != r && !depends_on_any(adj, roots, k));
        assert forall|k: Seq<char>, d: Seq<char>| d_set.contains(k) && #[trigger] deps_of(adj, k).contains(d) implies d_set.contains(d) by {
            if d == r || depends_on_any(adj, roots, d) {
                lemma_dependent_step(adj, roots, k, d);
            }
        }
        assert(deps_closed(adj, d_set));
        assert(seq![x].to_set().subset_of(d_set)) by {
            assert forall|z: Seq<char>| seq![x].to_set().contains(z) implies d_set.contains(z) by {
                let q = seq![x].index_of(z);
                assert(seq![x][q] == x);
            }
        }
        assert(d_set.contains(r));
    }
}

/// A plain Procfile yields only valid names with non-empty commands.
pub proof fn lemma_plain_names_valid(s: Seq<char>, line: int, acc: Map<Seq<char>, Seq<char>>)
    requires
        forall|k: Seq<char>| #[trigger] acc.contains_key(k) ==> procfile::valid_name(k) && acc[k].len() > 0,
    ensures
        plain_lines(s, line, acc) matches Ok(m) ==> forall|k: Seq<char>| #[trigger] m.contains_key(k) ==> procfile::valid_name(k)
            && m[k].len() > 0,
    decreases s.len(),
{
    if s.len() > 0 {
        let e = crate::text::find_char(s, '\n');
        crate::text::lemma_find_char(s, '\n');
        let rest = if e < s.len() {
            s.subrange(e + 1, s.len() as int)
        } else {
            Seq::empty()
        };
        let t = crate::text::trim(s.subrange(0, e));
        if t.len() == 0 || t[0] == '#' {
            lemma_plain_names_valid(rest, line + 1, acc);
        } else {
            let k = crate::text::find_char(t, ':');
            if k < t.len() {
                crate::text::lemma_find_char(t, ':');
                let name = crate::text::trim(t.subrange(0, k));
                let cmd = crate::text::trim(t.subrange(k + 1, t.len() as int));
                if procfile::entry_issue(acc, name, cmd) is None {
                    lemma_plain_names_valid(rest, line + 1, acc.insert(name, cmd));
                }
            }
        }
    }
}

/// Each value trimmed, the empty ones dropped, in order.
pub open spec fn trimmed_values(vs: Seq<Seq<char>>) -> Seq<Seq<char>>
    decreases vs.len(),
{
    if vs.len() == 0 {
        Seq::empty()
    } else if trim(vs.last()).len() > 0 {
        trimmed_values(vs.drop_last()).push(trim(vs.last()))
    } else {
        trimmed_values(vs.drop_last())
    }
}

/// Trims each value of a comma-split command-line flag and drops the empties.
pub fn non_empty_trimmed(values: &Vec<String>) -> (r: Vec<String>)
    ensures
        strs(r@) == trimmed_values(strs(values@)),
{
    let mut r: Vec<String> = Vec::new();
    let mut i: usize = 0;
    while i < values.len()
        invariant
            i <= values.len(),
            strs(r@) == trimmed_values(strs(values@).take(i as int)),
        decreases values.len() - i,
    {
        let cs = chars_of(values[i].as_str());
        let (lo, hi) = trim_bounds(&cs, 0, cs.len());
        assert(cs@.subrange(0, cs@.len() as int) =~= cs@);
        assert(strs(values@).take(i + 1).drop_last() =~= strs(values@).take(i as int));
        assert(strs(values@).take(i + 1).last() == values@[i as int]@);
        if lo < hi {
            let t = string_from(&cs, lo, hi);
            let ghost r0 = strs(r@);
            r.push(t);
            assert(strs(r@) =~= r0.push(trim(values@[i as int]@)));
        }
        i = i + 1;
    }
    assert(strs(values@).take(values.len() as int) =~= strs(values@));
    r
}

} // verus!
