//! Environment layering: each process's environment is built from the base
//! (inherited) environment, the global env file and table, then its own.
use vstd::prelude::*;

use super::error::ConfigError;
use super::procfile::Parsed;
use super::schema::Process;
use crate::strmap::StrMap;
use crate::text::{append_str, debug_quote, debug_str};

verus! {

/// Env file contents by path as written: the variables, or why the file could
/// not be read.
pub type EnvFiles = StrMap<Result<StrMap<String>, String>>;

/// A layered environment, or the env file that failed and why.
pub type Layered = Result<Map<Seq<char>, Seq<char>>, (Seq<char>, Seq<char>)>;

/// The text view of a string map.
pub open spec fn text_map(m: &StrMap<String>) -> Map<Seq<char>, Seq<char>> {
    m@.map_values(|v: String| v@)
}

/// Treats an absent or empty `env_file` path as unset, so an explicit
/// `env_file = ""` is ignored rather than read as a (missing) file.
pub open spec fn env_path(f: Option<String>) -> Option<Seq<char>> {
    match f {
        Some(p) => if p@.len() > 0 {
            Some(p@)
        } else {
            None
        },
        None => None,
    }
}

/// What the env file at `p` holds, or why it could not be read.
pub open spec fn file_view(files: &EnvFiles, p: Seq<char>) -> Result<Map<Seq<char>, Seq<char>>, Seq<char>> {
    match files@[p] {
        Ok(m) => Ok(text_map(&m)),
        Err(e) => Err(e@),
    }
}

/// One scope layered onto `env`: its env file (if set), then its explicit
/// entries, each overriding what came before. A failed file gives its path and
/// the reason.
pub open spec fn layer(
    env: Map<Seq<char>, Seq<char>>,
    file: Option<Seq<char>>,
    files: &EnvFiles,
    entries: Map<Seq<char>, Seq<char>>,
) -> Result<Map<Seq<char>, Seq<char>>, (Seq<char>, Seq<char>)> {
    match file {
        Some(p) => match file_view(files, p) {
            Ok(m) => Ok(env.union_prefer_right(m).union_prefer_right(entries)),
            Err(e) => Err((p, e)),
        },
        None => Ok(env.union_prefer_right(entries)),
    }
}

/// The environment process `k` gets on top of the shared layers `g`.
pub open spec fn process_layer(procs: &StrMap<Process>, g: Map<Seq<char>, Seq<char>>, files: &EnvFiles, i: int) -> Result<
    Map<Seq<char>, Seq<char>>,
    (Seq<char>, Seq<char>),
> {
    layer(g, env_path(procs.vals()[i].env_file), files, text_map(&procs.vals()[i].environment))
}

/// The first of the first `n` processes (in name order) whose layer fails.
pub open spec fn first_failure(procs: &StrMap<Process>, g: Map<Seq<char>, Seq<char>>, files: &EnvFiles, n: int) -> Option<
    (int, (Seq<char>, Seq<char>)),
>
    decreases n,
{
    if n <= 0 {
        None
    } else {
        match first_failure(procs, g, files, n - 1) {
            Some(x) => Some(x),
            None => match process_layer(procs, g, files, n - 1) {
                Err(pe) => Some((n - 1, pe)),
                Ok(_) => None,
            },
        }
    }
}

/// Every env file the layers will read is in `files`.
pub open spec fn files_present(parsed: &Parsed, files: &EnvFiles) -> bool {
    &&& (env_path(parsed.global_env_file) matches Some(p) ==> files@.contains_key(p))
    &&& forall|k: Seq<char>|
        #[trigger] parsed.processes@.contains_key(k) ==> (env_path(parsed.processes@[k].env_file) matches Some(p)
            ==> files@.contains_key(p))
}

/// `a` is `b` with only its resolved environment changed.
pub open spec fn same_but_env(a: Process, b: Process) -> bool {
    &&& a.command == b.command
    &&& a.exit_codes == b.exit_codes
    &&& a.readiness == b.readiness
    &&& a.depends_on == b.depends_on
    &&& a.environment == b.environment
    &&& a.log_file == b.log_file
    &&& a.env_file == b.env_file
    &&& a.max_retries == b.max_retries
    &&& a.name == b.name
    &&& a.color == b.color
}

/// Copies every entry of `other` into `env`, replacing equal keys.
pub fn extend(env: &mut StrMap<String>, other: &StrMap<String>)
    ensures
        text_map(final(env)) == text_map(old(env)).union_prefer_right(text_map(other)),
{
    proof {
        use_type_invariant(other);
        other.lemma_view();
    }
    let n = other.len();
    let mut i: usize = 0;
    while i < n
        invariant
            i <= n,
            n == other.keys().len(),
            other.wf(),
            other.keys().len() == other.vals().len(),
            text_map(env) == text_map(old(env)).union_prefer_right(
                Map::new(|k: Seq<char>| other.keys().take(i as int).contains(k), |k: Seq<char>| text_map(other)[k]),
            ),
        decreases n - i,
    {
        proof {
            other.lemma_view();
        }
        let ghost key = other.keys()[i as int];
        let ghost before = text_map(env);
        env.insert(other.key_at(i).clone(), other.value_at(i).clone());
        proof {
            let t0 = other.keys().take(i as int);
            let t1 = other.keys().take(i + 1);
            assert(t1 =~= t0.push(key));
            assert(text_map(other)[key] == other.vals()[i as int]@);
            let m0 = Map::new(|k: Seq<char>| t0.contains(k), |k: Seq<char>| text_map(other)[k]);
            let m1 = Map::new(|k: Seq<char>| t1.contains(k), |k: Seq<char>| text_map(other)[k]);
            assert(text_map(env) =~= before.insert(key, text_map(other)[key]));
            assert forall|k: Seq<char>| #[trigger] m1.contains_key(k) <==> m0.insert(key, text_map(other)[key]).contains_key(k) by {
                if t0.contains(k) {
                    let q = t0.index_of(k);
                    assert(t1[q] == k);
                }
                if k == key {
                    assert(t1[i as int] == k);
                }
                if t1.contains(k) && k != key {
                    let q = t1.index_of(k);
                    assert(t0[q] == k);
                }
            }
            assert(m1 =~= m0.insert(key, text_map(other)[key]));
            assert(text_map(env) =~= text_map(old(env)).union_prefer_right(m1));
        }
        i = i + 1;
    }
    proof {
        assert(other.keys().take(n as int) =~= other.keys());
        assert(Map::new(|k: Seq<char>| other.keys().take(n as int).contains(k), |k: Seq<char>| text_map(other)[k])
            =~= text_map(other));
    }
}

/// A copy of a string map.
pub fn copy_env(m: &StrMap<String>) -> (c: StrMap<String>)
    ensures
        text_map(&c) == text_map(m),
{
    let mut c: StrMap<String> = StrMap::new();
    extend(&mut c, m);
    assert(text_map(&c) =~= text_map(m));
    c
}

/// Layers one scope onto `env`: its `env_file` (if set), then its explicit
/// `environment` entries. A failed file gives its path and the reason.
fn apply_layer(
    env: &mut StrMap<String>,
    env_file: &Option<String>,
    environment: &StrMap<String>,
    files: &EnvFiles,
) -> (r: Result<(), (String, String)>)
    requires
        env_path(*env_file) matches Some(p) ==> files@.contains_key(p),
    ensures
        match layer(text_map(old(env)), env_path(*env_file), files, text_map(environment)) {
            Ok(m) => r is Ok && text_map(final(env)) == m,
            Err((p, e)) => r matches Err((fp, fe)) && fp@ == p && fe@ == e,
        },
{
    match env_file {
        Some(path) => {
            if !path.as_str().is_empty() {
                match files.get(path.as_str()) {
                    Some(Ok(vars)) => {
                        extend(env, vars);
                    },
                    Some(Err(e)) => {
                        return Err((path.clone(), e.clone()));
                    },
                    None => {
                        assert(false);
                        return Err((path.clone(), String::new()));
                    },
                }
            }
        },
        None => {},
    }
    extend(env, environment);
    Ok(())
}

/// The env file paths a parsed config's layers read, global first.
pub fn env_file_paths(parsed: &Parsed) -> (paths: Vec<String>)
    ensures
        forall|p: Seq<char>| (env_path(parsed.global_env_file) == Some(p) || exists|k: Seq<char>|
            #[trigger] parsed.processes@.contains_key(k) && env_path(parsed.processes@[k].env_file) == Some(p))
            ==> paths@.map_values(|s: String| s@).contains(p),
{
    let mut paths: Vec<String> = Vec::new();
    match &parsed.global_env_file {
        Some(p) => {
            if !p.as_str().is_empty() {
                paths.push(p.clone());
                assert(paths@.map_values(|s: String| s@)[0] == p@);
            }
        },
        None => {},
    }
    proof {
        use_type_invariant(&parsed.processes);
        parsed.processes.lemma_view();
    }
    let n = parsed.processes.len();
    let mut i: usize = 0;
    while i < n
        invariant
            i <= n,
            n == parsed.processes.keys().len(),
            parsed.processes.keys().len() == parsed.processes.vals().len(),
            env_path(parsed.global_env_file) matches Some(p) ==> paths@.map_values(|s: String| s@).contains(p),
            forall|j: int| 0 <= j < i ==> (env_path(#[trigger] parsed.processes.vals()[j].env_file) matches Some(p)
                ==> paths@.map_values(|s: String| s@).contains(p)),
        decreases n - i,
    {
        let ghost before = paths@;
        match &parsed.processes.value_at(i).env_file {
            Some(p) => {
                if !p.as_str().is_empty() {
                    paths.push(p.clone());
                }
            },
            None => {},
        }
        proof {
            let pv = paths@.map_values(|s: String| s@);
            let bv = before.map_values(|s: String| s@);
            assert forall|x: Seq<char>| bv.contains(x) implies pv.contains(x) by {
                let q = bv.index_of(x);
                assert(pv[q] == x);
            }
            if let Some(p) = env_path(parsed.processes.vals()[i as int].env_file) {
                assert(pv[pv.len() - 1] == p);
            }
        }
        i = i + 1;
    }
    proof {
        parsed.processes.lemma_view();
        assert forall|p: Seq<char>| (env_path(parsed.global_env_file) == Some(p) || exists|k: Seq<char>|
            #[trigger] parsed.processes@.contains_key(k) && env_path(parsed.processes@[k].env_file) == Some(p))
            implies paths@.map_values(|s: String| s@).contains(p) by {
            if env_path(parsed.global_env_file) != Some(p) {
                let k = choose|k: Seq<char>|
                    #[trigger] parsed.processes@.contains_key(k) && env_path(parsed.processes@[k].env_file) == Some(p);
                let j = parsed.processes.keys().index_of(k);
                assert(parsed.processes@[k] == parsed.processes.vals()[j]);
            }
        }
    }
    paths
}

/// The error for a failed env file in `scope`.
fn env_file_error(scope: String, fe: (String, String)) -> (e: ConfigError)
    ensures
        e matches ConfigError::EnvFile { scope: s, file, message } && s == scope && file == fe.0 && message == fe.1,
{
    let (file, message) = fe;
    ConfigError::EnvFile { scope, file, message }
}

/// What resolving yields: the first failed env file (global first, then the
/// processes in name order), else every process with its layered environment.
pub open spec fn resolve_ok(parsed: &Parsed, base_env: &StrMap<String>, files: &EnvFiles, r: Result<StrMap<Process>, ConfigError>) -> bool {
    match layer(text_map(base_env), env_path(parsed.global_env_file), files, text_map(&parsed.global_env)) {
        Err((p, e)) => r matches Err(ConfigError::EnvFile { scope, file, message }) && scope@ == "top-level"@
            && file@ == p && message@ == e,
        Ok(g) => match first_failure(&parsed.processes, g, files, parsed.processes.keys().len() as int) {
            Some((i, (p, e))) => r matches Err(ConfigError::EnvFile { scope, file, message }) && scope@ == "process "@
                + debug_str(parsed.processes.keys()[i]) && file@ == p && message@ == e,
            None => r matches Ok(ps) && ps@.dom() == parsed.processes@.dom() && forall|k: Seq<char>|
                #[trigger] ps@.contains_key(k) ==> same_but_env(ps@[k], parsed.processes@[k]) && layer(
                    g,
                    env_path(parsed.processes@[k].env_file),
                    files,
                    text_map(&parsed.processes@[k].environment),
                ) == Layered::Ok(text_map(&ps@[k].env)),
        },
    }
}

/// The value of `v` in the last of `layers` that defines it, if any does.
pub open spec fn last_defining(layers: Seq<Map<Seq<char>, Seq<char>>>, v: Seq<char>) -> Option<Seq<char>>
    decreases layers.len(),
{
    if layers.len() == 0 {
        None
    } else if layers.last().contains_key(v) {
        Some(layers.last()[v])
    } else {
        last_defining(layers.drop_last(), v)
    }
}

/// The value of `v` in `m`, if any.
pub open spec fn value_of(m: Map<Seq<char>, Seq<char>>, v: Seq<char>) -> Option<Seq<char>> {
    if m.contains_key(v) {
        Some(m[v])
    } else {
        None
    }
}

/// The variables an env file layer adds: none without a file.
pub open spec fn file_layer(files: &EnvFiles, p: Option<Seq<char>>) -> Map<Seq<char>, Seq<char>> {
    match p {
        Some(path) => match file_view(files, path) {
            Ok(m) => m,
            Err(_) => Map::empty(),
        },
        None => Map::empty(),
    }
}

/// The layers of process `k`'s environment, lowest precedence first: the base
/// environment, the global env file, the global table, the process's env file,
/// the process's table.
pub open spec fn env_layers(parsed: &Parsed, base_env: &StrMap<String>, files: &EnvFiles, k: Seq<char>) -> Seq<
    Map<Seq<char>, Seq<char>>,
> {
    seq![
        text_map(base_env),
        file_layer(files, env_path(parsed.global_env_file)),
        text_map(&parsed.global_env),
        file_layer(files, env_path(parsed.processes@[k].env_file)),
        text_map(&parsed.processes@[k].environment),
    ]
}

/// A layer that succeeds is the environment with the file's variables and then
/// the entries laid over it.
proof fn lemma_layer_lookup(
    env: Map<Seq<char>, Seq<char>>,
    file: Option<Seq<char>>,
    files: &EnvFiles,
    entries: Map<Seq<char>, Seq<char>>,
    out: Map<Seq<char>, Seq<char>>,
    v: Seq<char>,
)
    requires
        layer(env, file, files, entries) == Layered::Ok(out),
    ensures
        value_of(out, v) == (if entries.contains_key(v) {
            Some(entries[v])
        } else if file_layer(files, file).contains_key(v) {
            Some(file_layer(files, file)[v])
        } else {
            value_of(env, v)
        }),
{
}

/// Resolving gives each variable of a process the value of the last layer that
/// defines it (base environment, global env file, global table, the process's
/// env file, the process's table), and leaves it unset when none does.
pub proof fn lemma_env_precedence(
    parsed: &Parsed,
    base_env: &StrMap<String>,
    files: &EnvFiles,
    r: Result<StrMap<Process>, ConfigError>,
    k: Seq<char>,
    v: Seq<char>,
)
    requires
        resolve_ok(parsed, base_env, files, r),
        r is Ok,
        r->Ok_0@.contains_key(k),
    ensures
        value_of(text_map(&r->Ok_0@[k].env), v) == last_defining(env_layers(parsed, base_env, files, k), v),
{
    let ls = env_layers(parsed, base_env, files, k);
    reveal_with_fuel(last_defining, 6);
    let ps = r->Ok_0;
    match layer(text_map(base_env), env_path(parsed.global_env_file), files, text_map(&parsed.global_env)) {
        Err(_) => {},
        Ok(g) => {
            lemma_layer_lookup(text_map(base_env), env_path(parsed.global_env_file), files, text_map(&parsed.global_env), g, v);
            lemma_layer_lookup(
                g,
                env_path(parsed.processes@[k].env_file),
                files,
                text_map(&parsed.processes@[k].environment),
                text_map(&ps@[k].env),
                v,
            );
            assert(ls.drop_last().drop_last().drop_last().drop_last().drop_last() =~= Seq::<Map<Seq<char>, Seq<char>>>::empty());
            assert(ls.last() == text_map(&parsed.processes@[k].environment));
            assert(ls.drop_last().last() == file_layer(files, env_path(parsed.processes@[k].env_file)));
            assert(ls.drop_last().drop_last().last() == text_map(&parsed.global_env));
            assert(ls.drop_last().drop_last().drop_last().last() == file_layer(files, env_path(parsed.global_env_file)));
            assert(ls.drop_last().drop_last().drop_last().drop_last().last() == text_map(base_env));
        },
    }
}

/// Every env file the layers name is present and was read.
pub open spec fn files_readable(parsed: &Parsed, files: &EnvFiles) -> bool {
    &&& (env_path(parsed.global_env_file) matches Some(p) ==> files@.contains_key(p) && files@[p] is Ok)
    &&& forall|k: Seq<char>|
        #[trigger] parsed.processes@.contains_key(k) ==> (env_path(parsed.processes@[k].env_file) matches Some(p)
            ==> files@.contains_key(p) && files@[p] is Ok)
}

/// With every named file read, no process layer fails.
proof fn lemma_readable_no_failure(parsed: &Parsed, g: Map<Seq<char>, Seq<char>>, files: &EnvFiles, n: int)
    requires
        files_readable(parsed, files),
        parsed.processes.wf(),
        0 <= n <= parsed.processes.keys().len(),
    ensures
        first_failure(&parsed.processes, g, files, n) is None,
    decreases n,
{
    if n > 0 {
        lemma_readable_no_failure(parsed, g, files, n - 1);
        parsed.processes.lemma_view();
        let k = parsed.processes.keys()[n - 1];
        assert(parsed.processes@.contains_key(k));
        assert(parsed.processes@[k] == parsed.processes.vals()[n - 1]);
    }
}

/// Resolving with every named env file read succeeds, keeps the processes and
/// every field but the resolved environment, and gives each variable of a
/// process the value of the last layer that defines it (base environment,
/// global env file, global table, the process's env file, its table), or
/// leaves it unset when none does.
pub proof fn lemma_resolve_layering(
    parsed: &Parsed,
    base_env: &StrMap<String>,
    files: &EnvFiles,
    r: Result<StrMap<Process>, ConfigError>,
)
    requires
        parsed.processes.wf(),
        files_readable(parsed, files),
        resolve_ok(parsed, base_env, files, r),
    ensures
        r is Ok,
        r->Ok_0@.dom() == parsed.processes@.dom(),
        forall|k: Seq<char>| #[trigger] r->Ok_0@.contains_key(k) ==> same_but_env(r->Ok_0@[k], parsed.processes@[k]),
        forall|k: Seq<char>, v: Seq<char>|
            #[trigger] r->Ok_0@.contains_key(k) ==> #[trigger] value_of(text_map(&r->Ok_0@[k].env), v) == last_defining(
                env_layers(parsed, base_env, files, k),
                v,
            ),
{
    let gl = layer(text_map(base_env), env_path(parsed.global_env_file), files, text_map(&parsed.global_env));
    assert(gl is Ok);
    let g = gl->Ok_0;
    lemma_readable_no_failure(parsed, g, files, parsed.processes.keys().len() as int);
    assert forall|k: Seq<char>, v: Seq<char>|
        #[trigger] r->Ok_0@.contains_key(k) implies #[trigger] value_of(text_map(&r->Ok_0@[k].env), v) == last_defining(
            env_layers(parsed, base_env, files, k),
            v,
        ) by {
        lemma_env_precedence(parsed, base_env, files, r, k, v);
    }
}

/// Resolves each process's environment by layering, lowest precedence first:
/// `base_env`, global `env_file`, global `environment`, per-process `env_file`,
/// then per-process `environment`.
pub fn resolve(parsed: Parsed, base_env: StrMap<String>, files: &EnvFiles) -> (r: Result<StrMap<Process>, ConfigError>)
    requires
        files_present(&parsed, files),
    ensures
        resolve_ok(&parsed, &base_env, files, r),
{
    let ghost gp = parsed;
    let Parsed { global_env_file, global_env, processes } = parsed;
    let mut base = copy_env(&base_env);
    match apply_layer(&mut base, &global_env_file, &global_env, files) {
        Ok(()) => {},
        Err(fe) => {
            let mut scope = String::new();
            append_str(&mut scope, "top-level");
            return Err(env_file_error(scope, fe));
        },
    }
    let ghost g = text_map(&base);
    proof {
        use_type_invariant(&processes);
        processes.lemma_view();
    }
    let ghost keys = processes.keys();
    let ghost vals = processes.vals();
    assert(keys.len() == vals.len());
    let n = processes.len();
    let mut entries = processes.into_entries();
    let ghost es = entries@;
    let mut out: StrMap<Process> = StrMap::new();
    let mut j: usize = 0;
    while j < n
        invariant
            j <= n,
            n == keys.len(),
            es.map_values(|e: (String, Process)| e.0@) == keys,
            es.map_values(|e: (String, Process)| e.1) == vals,
            entries@ == es.subrange(j as int, n as int),
            keys.len() == vals.len(),
            g == text_map(&base),
            gp == parsed,
            layer(text_map(&base_env), env_path(gp.global_env_file), files, text_map(&gp.global_env)) == Layered::Ok(g),
            first_failure(&gp.processes, g, files, j as int) is None,
            files_present(&gp, files),
            keys == gp.processes.keys(),
            vals == gp.processes.vals(),
            gp.processes.wf(),
            forall|k: Seq<char>| #[trigger] out@.contains_key(k) <==> keys.take(j as int).contains(k),
            forall|q: int| 0 <= q < j ==> #[trigger] out@.contains_key(keys[q]) && same_but_env(out@[keys[q]], vals[q])
                && process_layer(&gp.processes, g, files, q) == Layered::Ok(text_map(&out@[keys[q]].env)),
        decreases n - j,
    {
        let (name, mut p) = entries.remove(0);
        proof {
            assert(es[j as int].0@ == keys[j as int]);
            assert(es[j as int].1 == vals[j as int]);
            gp.processes.lemma_view();
            assert(gp.processes@[keys[j as int]] == vals[j as int]);
            assert(gp.processes@.contains_key(keys[j as int]));
        }
        let mut env = copy_env(&base);
        assert(text_map(&env) == g);
        match apply_layer(&mut env, &p.env_file, &p.environment, files) {
            Ok(()) => {},
            Err(fe) => {
                let mut scope = String::new();
                append_str(&mut scope, "process ");
                let q = debug_quote(name.as_str());
                append_str(&mut scope, q.as_str());
                proof {
                    assert(process_layer(&gp.processes, g, files, j as int) == layer(g, env_path(p.env_file), files, text_map(&p.environment)));
                    assert(process_layer(&gp.processes, g, files, j as int) is Err);
                    lemma_first_failure_at(&gp.processes, g, files, n as int, j as int);
                    assert(scope@ =~= "process "@ + debug_str(keys[j as int]));
                }
                let err = env_file_error(scope, fe);
                proof {
                    let pe = process_layer(&gp.processes, g, files, j as int)->Err_0;
                    assert(first_failure(&gp.processes, g, files, gp.processes.keys().len() as int) == Some((j as int, pe)));
                    assert(err matches ConfigError::EnvFile { scope, file, message } && file@ == pe.0);
                    assert(err matches ConfigError::EnvFile { scope, file, message } && message@ == pe.1);
                    assert(err matches ConfigError::EnvFile { scope, file, message } && scope@ == "process "@ + debug_str(gp.processes.keys()[j as int]));
                    assert(resolve_ok(&gp, &base_env, files, Err(err)));
                }
                return Err(err);
            },
        }
        let ghost pv = p;
        p.env = env;
        out.insert(name, p);
        proof {
            let t0 = keys.take(j as int);
            let t1 = keys.take(j + 1);
            assert(t1 =~= t0.push(keys[j as int]));
            assert forall|k: Seq<char>| #[trigger] out@.contains_key(k) <==> t1.contains(k) by {
                if t0.contains(k) {
                    let q = t0.index_of(k);
                    assert(t1[q] == k);
                }
                if k == keys[j as int] {
                    assert(t1[j as int] == k);
                }
                if t1.contains(k) && k != keys[j as int] {
                    let q = t1.index_of(k);
                    assert(t0[q] == k);
                }
            }
            assert forall|q: int| 0 <= q < j + 1 implies #[trigger] out@.contains_key(keys[q]) && same_but_env(out@[keys[q]], vals[q])
                && process_layer(&gp.processes, g, files, q) == Layered::Ok(text_map(&out@[keys[q]].env)) by {
                if q < j {
                    assert(t1[q] == keys[q]);
                    gp.processes.lemma_view();
                    if keys[q] == keys[j as int] {
                        lemma_sorted_distinct(keys, q, j as int);
                    }
                } else {
                    assert(t1[j as int] == keys[q]);
                }
            }
        }
        j = j + 1;
        assert(entries@ =~= es.subrange(j as int, n as int));
    }
    proof {
        gp.processes.lemma_view();
        assert(keys.take(n as int) =~= keys);
        assert forall|k: Seq<char>| #[trigger] out@.contains_key(k) implies same_but_env(out@[k], gp.processes@[k]) && layer(
            g,
            env_path(gp.processes@[k].env_file),
            files,
            text_map(&gp.processes@[k].environment),
        ) == Layered::Ok(text_map(&out@[k].env)) by {
            let q = keys.index_of(k);
            assert(gp.processes@[k] == vals[q]);
        }
        assert(out@.dom() =~= gp.processes@.dom());
    }
    Ok(out)
}

/// Distinct positions of a map's keys hold distinct keys.
proof fn lemma_sorted_distinct(keys: Seq<Seq<char>>, i: int, j: int)
    requires
        crate::strmap::sorted_keys(keys),
        0 <= i < keys.len(),
        0 <= j < keys.len(),
        keys[i] == keys[j],
    ensures
        i == j,
{
    crate::strmap::lemma_sorted_unique(keys, i, j);
}

/// The first failure is the first failing process.
proof fn lemma_first_failure_at(procs: &StrMap<Process>, g: Map<Seq<char>, Seq<char>>, files: &EnvFiles, n: int, j: int)
    requires
        first_failure(procs, g, files, j) is None,
        process_layer(procs, g, files, j) is Err,
        0 <= j < n,
    ensures
        first_failure(procs, g, files, n) == Some((j, process_layer(procs, g, files, j)->Err_0)),
    decreases n,
{
    if j < n - 1 {
        lemma_first_failure_at(procs, g, files, n - 1, j);
    }
}

/// With no failure among the first `n`, none of them fails.
proof fn lemma_no_failure(procs: &StrMap<Process>, g: Map<Seq<char>, Seq<char>>, files: &EnvFiles, n: int, j: int)
    requires
        first_failure(procs, g, files, n) is None,
        0 <= j < n,
    ensures
        process_layer(procs, g, files, j) is Ok,
    decreases n,
{
    if j < n - 1 {
        lemma_no_failure(procs, g, files, n - 1, j);
    }
}

} // verus!
