//! Tests for config parsing, validation, ordering, filtering, and environment
//! resolution. Configs are given as their decoded top-level entries, the form
//! the loader reads once the TOML text is decoded.

use proccie::config::environment::EnvFiles;
use proccie::config::error::ConfigError;
use proccie::config::graph::{dependents, topo_order};
use proccie::config::procfile::{parse_plain, TopValue};
use proccie::config::schema::{
    duration_fits, parse_duration, readiness_from_parts, ExitCodes, HttpSpec, Process, Readiness, ReadinessParts,
    ShellSpec, Span, StatusCodes,
};
use proccie::config::{non_empty_trimmed, resolve_path, Config, Source};
use proccie::strmap::StrMap;
use proccie::theme::{AnsiColor, Color};

/// A process entry running `command`, everything else at its default.
fn proc(command: &str) -> Process {
    Process::with_command(command.to_string())
}

/// A process entry running `command` after `deps`.
fn after(command: &str, deps: &[&str]) -> Process {
    let mut p = proc(command);
    p.depends_on = deps.iter().map(|d| d.to_string()).collect();
    p
}

fn map<V>(entries: Vec<(&str, V)>) -> StrMap<V> {
    let mut m = StrMap::new();
    for (k, v) in entries {
        m.insert(k.to_string(), v);
    }
    m
}

fn strings(entries: &[(&str, &str)]) -> StrMap<String> {
    map(entries.iter().map(|(k, v)| (*k, v.to_string())).collect())
}

fn table(p: Process) -> TopValue {
    TopValue::Table { entries: StrMap::new(), process: Ok(p) }
}

/// A top-level `environment` table whose values are all strings.
fn env_table(entries: &[(&str, &str)]) -> TopValue {
    TopValue::Table {
        entries: map(entries.iter().map(|(k, v)| (*k, Some(v.to_string()))).collect()),
        process: Err("not a process".to_string()),
    }
}

/// Loads a config from its top-level entries with the given inherited
/// environment and env file contents.
fn load_with(
    top: Vec<(&str, TopValue)>,
    base: StrMap<String>,
    files: &EnvFiles,
) -> Result<Config, ConfigError> {
    let parsed = Config::parse("Procfile.toml", Source::Toml(Ok(map(top))))?;
    Config::load("Procfile.toml", parsed, base, files)
}

fn load(top: Vec<(&str, TopValue)>) -> Config {
    load_with(top, StrMap::new(), &EnvFiles::new()).expect("config should load")
}

fn load_err(top: Vec<(&str, TopValue)>) -> String {
    match load_with(top, StrMap::new(), &EnvFiles::new()) {
        Ok(_) => panic!("config should fail"),
        Err(e) => e.message(),
    }
}

/// The message of the error a load or parse ends in.
fn fail<T>(r: Result<T, ConfigError>) -> String {
    match r {
        Ok(_) => panic!("expected an error"),
        Err(e) => e.message(),
    }
}

fn get<'a>(cfg: &'a Config, name: &str) -> &'a Process {
    cfg.processes().get(name).expect("process exists")
}

fn env_of(cfg: &Config, name: &str, key: &str) -> Option<String> {
    get(cfg, name).env().get(key).cloned()
}

fn shell_readiness() -> Readiness {
    Readiness::Shell {
        cmd: "curl -sf http://localhost:3000/health".to_string(),
        interval: None,
        timeout: None,
        exit_codes: Some(ExitCodes(vec![0])),
        output: None,
    }
}

#[test]
fn loads_basic_config() {
    let mut worker = after("bundle exec sidekiq", &["web"]);
    worker.exit_codes = ExitCodes(vec![0, 1]);
    let cfg = load(vec![("web", table(proc("npm start"))), ("worker", table(worker))]);

    assert_eq!(cfg.processes().len(), 2);
    let web = get(&cfg, "web");
    assert_eq!(web.command, "npm start");
    assert!(web.exit_codes.is_empty());
    let worker = get(&cfg, "worker");
    assert!(worker.exit_codes.allows(0) && worker.exit_codes.allows(1));
    assert_eq!(worker.depends_on, ["web"]);
}

#[test]
fn parses_exit_codes_array() {
    let mut task = proc("run-checks");
    task.exit_codes = ExitCodes(vec![0, 2, 3]);
    let cfg = load(vec![("task", table(task))]);
    let codes = &get(&cfg, "task").exit_codes;
    assert!(codes.allows(0) && codes.allows(2) && codes.allows(3));
    assert!(!codes.allows(1));
}

#[test]
fn rejects_unknown_top_level_key() {
    let err = load_err(vec![
        ("bogus", TopValue::Text("something".to_string())),
        ("web", table(proc("npm start"))),
    ]);
    assert!(err.contains("unknown top-level key"), "{err}");
    assert!(err.contains("\"bogus\""), "{err}");
}

#[test]
fn undecodable_process_table_names_the_process() {
    let err = load_err(vec![(
        "web",
        TopValue::Table { entries: StrMap::new(), process: Err("unknown field `exit_code`".to_string()) },
    )]);
    assert_eq!(err, "parsing config Procfile.toml: process \"web\": unknown field `exit_code`");
}

#[test]
fn rejects_missing_command() {
    let mut p = proc("");
    p.exit_codes = ExitCodes(vec![0]);
    let err = load_err(vec![("web", table(p))]);
    assert!(err.contains("missing required key"), "{err}");
}

#[test]
fn rejects_undefined_dependency() {
    let err = load_err(vec![("web", table(after("npm start", &["db"])))]);
    assert!(err.contains("not defined"), "{err}");
}

#[test]
fn rejects_self_dependency() {
    let err = load_err(vec![("web", table(after("npm start", &["web"])))]);
    assert!(err.contains("cannot depend on itself"), "{err}");
}

#[test]
fn rejects_duplicate_display_name() {
    let mut a = proc("true");
    a.name = Some("Web".to_string());
    let mut b = proc("true");
    b.name = Some("Web".to_string());
    let err = load_err(vec![("web1", table(a)), ("web2", table(b))]);
    assert!(err.contains("display name \"Web\" is already used"), "{err}");
}

#[test]
fn rejects_name_colliding_with_another_key() {
    let mut web = proc("true");
    web.name = Some("api".to_string());
    let err = load_err(vec![("web", table(web)), ("api", table(proc("true")))]);
    assert!(err.contains("display name \"api\" is already used"), "{err}");
}

#[test]
fn rejects_duplicate_dependency() {
    let err = load_err(vec![
        ("db", table(proc("echo db"))),
        ("web", table(after("npm start", &["db", "db"]))),
    ]);
    assert!(err.contains("duplicate dependency"), "{err}");
}

#[test]
fn rejects_cyclic_dependency() {
    let err = load_err(vec![("a", table(after("echo a", &["b"]))), ("b", table(after("echo b", &["a"])))]);
    assert!(err.contains("cycle"), "{err}");
}

#[test]
fn cycle_error_reports_only_the_cycle() {
    // `a` leads into the cycle but is not part of it; the message names just
    // the cycle (`b -> c -> b`), not the path that reached it.
    let err = load_err(vec![
        ("a", table(after("echo a", &["b"]))),
        ("b", table(after("echo b", &["c"]))),
        ("c", table(after("echo c", &["b"]))),
    ]);
    assert!(err.contains("b -> c -> b"), "{err}");
    assert!(!err.contains("a ->"), "{err}");
}

#[test]
fn reports_multiple_errors() {
    let mut web = proc("");
    web.exit_codes = ExitCodes(vec![0]);
    let mut worker = proc("");
    worker.exit_codes = ExitCodes(vec![0]);
    let err = load_err(vec![("web", table(web)), ("worker", table(worker))]);
    assert!(err.contains("web") && err.contains("worker"), "{err}");
    assert_eq!(
        err,
        "config validation failed:\n  process \"web\": missing required key \"command\"\n  \
         process \"worker\": missing required key \"command\""
    );
}

#[test]
fn readiness_and_exit_codes_are_mutually_exclusive() {
    let mut web = proc("npm start");
    web.readiness = Some(shell_readiness());
    web.exit_codes = ExitCodes(vec![0]);
    let err = load_err(vec![("web", table(web))]);
    assert!(err.contains("mutually exclusive"), "{err}");
}

#[test]
fn rejects_negative_max_retries() {
    let mut web = proc("npm start");
    web.max_retries = -1;
    let err = load_err(vec![("web", table(web))]);
    assert!(err.contains("max_retries must be non-negative"), "{err}");
}

#[test]
fn max_retries_defaults_to_zero() {
    let cfg = load(vec![("web", table(proc("npm start")))]);
    assert_eq!(get(&cfg, "web").max_retries, 0);
}

#[test]
fn rejects_retries_with_readiness() {
    let mut web = proc("npm start");
    web.readiness = Some(shell_readiness());
    web.max_retries = 3;
    let err = load_err(vec![("web", table(web))]);
    assert!(err.contains("\"max_retries\" has no effect with \"readiness\""), "{err}");
}

#[test]
fn readiness_with_default_retries_is_allowed() {
    let mut web = proc("npm start");
    web.readiness = Some(shell_readiness());
    let cfg = load(vec![("web", table(web))]);
    assert!(get(&cfg, "web").readiness.is_some());
}

#[test]
fn readiness_rules_are_checked_at_load() {
    let mut web = proc("npm start");
    web.readiness = Some(Readiness::Shell {
        cmd: String::new(),
        interval: None,
        timeout: None,
        exit_codes: None,
        output: None,
    });
    let err = load_err(vec![("web", table(web))]);
    assert!(err.contains("readiness shell \"cmd\" cannot be empty"), "{err}");
    assert!(err.contains("requires \"exit_codes\" or \"output\""), "{err}");

    let mut api = proc("npm start");
    api.readiness = Some(Readiness::Http {
        url: "ftp://example".to_string(),
        status: StatusCodes(vec![700]),
        output: None,
        interval: None,
        timeout: None,
    });
    let err = load_err(vec![("api", table(api))]);
    assert!(err.contains("is not a valid http(s) URL"), "{err}");
    assert!(err.contains("\"status\" 700 is not a valid HTTP status code"), "{err}");
}

#[test]
fn exit_codes_allows() {
    assert!(!ExitCodes(vec![]).allows(0));
    assert!(ExitCodes(vec![0]).allows(0));
    assert!(!ExitCodes(vec![0]).allows(1));
    assert!(ExitCodes(vec![0, 1, 2]).allows(2));
    assert!(!ExitCodes(vec![0, 1, 2]).allows(3));
}

#[test]
fn start_order_respects_dependencies() {
    let cfg = load(vec![
        ("db", table(proc("echo db"))),
        ("migrate", table(after("echo migrate", &["db"]))),
        ("web", table(after("echo web", &["db", "migrate"]))),
    ]);
    let order = topo_order(&cfg.adjacency());
    let pos = |name: &str| order.iter().position(|n| n == name).unwrap();
    assert!(pos("db") < pos("migrate"));
    assert!(pos("migrate") < pos("web"));
}

#[test]
fn start_order_is_deterministic_and_alphabetical() {
    let cfg = load(vec![
        ("zebra", table(proc("echo zebra"))),
        ("alpha", table(proc("echo alpha"))),
        ("middle", table(proc("echo middle"))),
    ]);
    assert_eq!(topo_order(&cfg.adjacency()), ["alpha", "middle", "zebra"]);
}

#[test]
fn names_are_sorted() {
    let cfg = load(vec![("web", table(proc("a"))), ("db", table(proc("b"))), ("api", table(proc("c")))]);
    assert_eq!(cfg.names(), ["api", "db", "web"]);
}

fn three() -> Config {
    load(vec![("web", table(proc("a"))), ("worker", table(proc("b"))), ("scheduler", table(proc("c")))])
}

#[test]
fn filter_only_keeps_named_process() {
    let mut cfg = three();
    cfg.filter(&vec!["web".into()], &vec![]).unwrap();
    assert_eq!(cfg.names(), ["web"]);
}

#[test]
fn filter_only_includes_transitive_dependencies() {
    let mut migrate = after("rake db:migrate", &["db"]);
    migrate.exit_codes = ExitCodes(vec![0]);
    let mut cfg = load(vec![
        ("db", table(proc("postgres"))),
        ("migrate", table(migrate)),
        ("web", table(after("npm start", &["migrate"]))),
        ("worker", table(proc("bundle exec sidekiq"))),
    ]);
    cfg.filter(&vec!["web".into()], &vec![]).unwrap();
    assert_eq!(cfg.names(), ["db", "migrate", "web"]);
}

#[test]
fn filter_except_removes_named_processes() {
    let mut cfg = three();
    cfg.filter(&vec![], &vec!["worker".into(), "scheduler".into()]).unwrap();
    assert_eq!(cfg.names(), ["web"]);
}

#[test]
fn filter_except_cascades_to_dependents() {
    let mut cfg = load(vec![
        ("db", table(proc("postgres"))),
        ("web", table(after("npm start", &["db"]))),
        ("worker", table(after("run worker", &["web"]))),
        ("lonely", table(proc("idle"))),
    ]);
    // Excluding `db` also excludes `web` and `worker`, its transitive dependents.
    cfg.filter(&vec![], &vec!["db".into()]).unwrap();
    assert_eq!(cfg.names(), ["lonely"]);
}

#[test]
fn filter_rejects_unknown_and_conflicting_flags() {
    let base = || load(vec![("web", table(proc("a"))), ("worker", table(proc("b")))]);

    let mut cfg = base();
    assert!(fail(cfg.filter(&vec!["nope".into()], &vec![])).contains("unknown process"));

    let mut cfg = base();
    assert!(fail(cfg.filter(&vec![], &vec!["nope".into()])).contains("unknown process"));

    let mut cfg = base();
    assert!(fail(cfg.filter(&vec!["web".into()], &vec!["worker".into()])).contains("cannot specify both"));
}

#[test]
fn filter_with_no_args_is_a_noop() {
    let mut cfg = load(vec![("web", table(proc("a"))), ("worker", table(proc("b")))]);
    cfg.filter(&vec![], &vec![]).unwrap();
    assert_eq!(cfg.processes().len(), 2);
}

#[test]
fn resolves_global_and_per_process_env() {
    let mut web = proc("npm start");
    web.env_file = Some("/cfg/.env.web".to_string());
    let files: EnvFiles = map(vec![
        ("/cfg/.env", Ok(strings(&[("SHARED_VAR", "global_value")]))),
        ("/cfg/.env.web", Ok(strings(&[("WEB_PORT", "3000")]))),
    ]);
    let cfg = load_with(
        vec![("env_file", TopValue::Text("/cfg/.env".to_string())), ("web", table(web))],
        StrMap::new(),
        &files,
    )
    .unwrap();
    assert_eq!(env_of(&cfg, "web", "SHARED_VAR").as_deref(), Some("global_value"));
    assert_eq!(env_of(&cfg, "web", "WEB_PORT").as_deref(), Some("3000"));
}

#[test]
fn base_env_is_inherited_and_overridden_by_every_config_layer() {
    let mut web = proc("npm start");
    web.environment = strings(&[("FROM_INLINE", "inline")]);
    let files: EnvFiles = map(vec![(".env", Ok(strings(&[("FROM_FILE", "file")])))]);
    let base = strings(&[("INHERITED", "from_base"), ("FROM_FILE", "base_loses"), ("FROM_INLINE", "base_loses")]);
    let cfg = load_with(vec![("env_file", TopValue::Text(".env".to_string())), ("web", table(web))], base, &files)
        .unwrap();
    assert_eq!(env_of(&cfg, "web", "INHERITED").as_deref(), Some("from_base"));
    assert_eq!(env_of(&cfg, "web", "FROM_FILE").as_deref(), Some("file"));
    assert_eq!(env_of(&cfg, "web", "FROM_INLINE").as_deref(), Some("inline"));
}

#[test]
fn empty_env_file_is_treated_as_unset() {
    // An explicit empty path is ignored, not read as a missing file.
    let mut web = proc("npm start");
    web.env_file = Some(String::new());
    let cfg = load(vec![("env_file", TopValue::Text(String::new())), ("web", table(web))]);
    assert!(cfg.processes().contains_key("web"));
}

#[test]
fn resolves_global_environment_table() {
    let cfg = load(vec![
        ("environment", env_table(&[("SHARED_KEY", "shared_val"), ("ANOTHER", "two")])),
        ("web", table(proc("npm start"))),
    ]);
    assert_eq!(env_of(&cfg, "web", "SHARED_KEY").as_deref(), Some("shared_val"));
    assert_eq!(env_of(&cfg, "web", "ANOTHER").as_deref(), Some("two"));
}

#[test]
fn env_merge_order_respects_precedence() {
    let mut app = proc("echo hi");
    app.exit_codes = ExitCodes(vec![0]);
    app.env_file = Some("/cfg/.env.app".to_string());
    app.environment = strings(&[("VAR", "inline")]);
    let files: EnvFiles = map(vec![
        (
            "/cfg/.env",
            Ok(strings(&[("VAR", "global"), ("ONLY_GLOBAL", "yes"), ("GFILE_VS_GTABLE", "from_gfile")])),
        ),
        ("/cfg/.env.app", Ok(strings(&[("VAR", "proc"), ("ONLY_PROC", "yes")]))),
    ]);
    let cfg = load_with(
        vec![
            ("env_file", TopValue::Text("/cfg/.env".to_string())),
            (
                "environment",
                env_table(&[("VAR", "global_table"), ("GFILE_VS_GTABLE", "from_gtable"), ("ONLY_GTABLE", "yes")]),
            ),
            ("app", table(app)),
        ],
        StrMap::new(),
        &files,
    )
    .unwrap();
    // Per-process inline table wins outright.
    assert_eq!(env_of(&cfg, "app", "VAR").as_deref(), Some("inline"));
    // Global env file value survives.
    assert_eq!(env_of(&cfg, "app", "ONLY_GLOBAL").as_deref(), Some("yes"));
    // Global table overrides the global file.
    assert_eq!(env_of(&cfg, "app", "GFILE_VS_GTABLE").as_deref(), Some("from_gtable"));
    assert_eq!(env_of(&cfg, "app", "ONLY_GTABLE").as_deref(), Some("yes"));
    // Per-process file value survives.
    assert_eq!(env_of(&cfg, "app", "ONLY_PROC").as_deref(), Some("yes"));
}

#[test]
fn missing_env_file_is_an_error() {
    let files: EnvFiles = map(vec![("/nonexistent/.env", Err("path not found".to_string()))]);
    let err = fail(load_with(
        vec![("env_file", TopValue::Text("/nonexistent/.env".to_string())), ("web", table(proc("npm start")))],
        StrMap::new(),
        &files,
    ));
    assert!(err.contains("env_file"), "{err}");
    assert_eq!(err, "top-level env_file \"/nonexistent/.env\": path not found");

    let mut web = proc("npm start");
    web.env_file = Some("/nonexistent/.env.web".to_string());
    let files: EnvFiles = map(vec![("/nonexistent/.env.web", Err("path not found".to_string()))]);
    let err = fail(load_with(vec![("web", table(web))], StrMap::new(), &files));
    assert!(err.contains("env_file"), "{err}");
}

#[test]
fn rejects_non_string_top_level_env_settings() {
    assert!(load_err(vec![("env_file", TopValue::Other), ("web", table(proc("x")))]).contains("must be a string"));
    assert!(load_err(vec![("environment", TopValue::Text("nope".to_string())), ("web", table(proc("x")))])
        .contains("must be a table"));
    let bad = TopValue::Table {
        entries: map(vec![("GOOD", Some("ok".to_string())), ("BAD", None)]),
        process: Err("not a process".to_string()),
    };
    assert!(load_err(vec![("environment", bad), ("web", table(proc("x")))]).contains("must be a string"));
}

#[test]
fn display_name_falls_back_to_key() {
    let cfg = load(vec![("web", table(proc("x")))]);
    let web = get(&cfg, "web");
    assert_eq!(web.display_name("web"), "web");
    assert!(web.color().is_none());
}

#[test]
fn configured_name_and_named_color_resolve() {
    let mut web = proc("x");
    web.name = Some("Web Server".to_string());
    web.color = Some("bright-green".to_string());
    let cfg = load(vec![("web", table(web))]);
    let web = get(&cfg, "web");
    assert_eq!(web.display_name("web"), "Web Server");
    assert_eq!(web.color(), Some(Color::Ansi(AnsiColor::BrightGreen)));
    assert_eq!(cfg.display_names(), ["Web Server"]);
}

#[test]
fn hex_color_resolves_to_rgb() {
    let mut web = proc("x");
    web.color = Some("#ff8800".to_string());
    let cfg = load(vec![("web", table(web))]);
    assert_eq!(get(&cfg, "web").color(), Some(Color::Rgb(0xff, 0x88, 0x00)));
}

#[test]
fn invalid_color_is_rejected() {
    for bad in ["chartreuse", "#zzzzzz", "#héllo"] {
        let mut web = proc("x");
        web.color = Some(bad.to_string());
        let err = load_err(vec![("web", table(web))]);
        assert!(err.contains("invalid color"), "{err}");
    }
}

#[test]
fn dependents_collects_transitive_chain() {
    // db <- api <- web, and a standalone cache; stopping db hits api and web.
    let cfg = load(vec![
        ("db", table(proc("x"))),
        ("api", table(after("x", &["db"]))),
        ("web", table(after("x", &["api"]))),
        ("cache", table(proc("x"))),
    ]);
    let adj = cfg.adjacency();
    let mut deps = dependents(&vec!["db".to_owned()], &adj);
    deps.sort();
    assert_eq!(deps, vec!["api".to_owned(), "web".to_owned()]);
    assert!(dependents(&vec!["web".to_owned()], &adj).is_empty());
    assert!(dependents(&vec!["cache".to_owned()], &adj).is_empty());
}

#[test]
fn warns_when_a_depended_on_process_releases_at_launch() {
    let cfg = load(vec![("db", table(proc("postgres"))), ("web", table(after("npm start", &["db"])))]);
    let ws: Vec<String> = cfg.warnings().iter().map(|w| w.message()).collect();
    assert_eq!(
        ws,
        ["process \"db\" has no \"exit_codes\" or \"readiness\"; dependents start at launch, not when ready"]
    );
}

#[test]
fn plain_procfile_lines_become_processes() {
    let parsed = parse_plain("# comment\nweb: npm start\n\nworker:  bundle exec sidekiq  \n", "Procfile").unwrap();
    let cfg = Config::load("Procfile", parsed, StrMap::new(), &EnvFiles::new()).unwrap();
    assert_eq!(cfg.names(), ["web", "worker"]);
    assert_eq!(get(&cfg, "worker").command, "bundle exec sidekiq");
}

#[test]
fn plain_procfile_errors_name_the_line() {
    let err = fail(parse_plain("web: npm start\nnot a process line\n", "Procfile"));
    assert!(err.starts_with("parsing Procfile Procfile (line 2): "), "{err}");
}

#[test]
fn plain_procfile_picks_up_a_sibling_env_file() {
    let parsed = Config::parse(
        "Procfile",
        Source::Plain { text: "web: npm start\n".to_string(), env_file_exists: true },
    )
    .unwrap();
    let files: EnvFiles = map(vec![(".env", Ok(strings(&[("PORT", "5000")])))]);
    let cfg = Config::load("Procfile", parsed, StrMap::new(), &files).unwrap();
    assert_eq!(env_of(&cfg, "web", "PORT").as_deref(), Some("5000"));
}

#[test]
fn toml_decode_errors_carry_the_path() {
    let err = Config::parse("Procfile.toml", Source::Toml(Err("expected `=`".to_string())));
    assert_eq!(fail(err), "parsing config Procfile.toml: expected `=`");
}

#[test]
fn resolve_path_prefers_explicit_then_the_first_existing_default() {
    assert_eq!(resolve_path(Some("my.toml".to_string()), &vec![false, false]).unwrap(), "my.toml");
    assert_eq!(resolve_path(None, &vec![true, true]).unwrap(), "Procfile.toml");
    assert_eq!(resolve_path(None, &vec![false, true]).unwrap(), "Procfile");
    assert_eq!(
        fail(resolve_path(None, &vec![false, false])),
        "no config file found (tried Procfile.toml, Procfile)"
    );
}

#[test]
fn readiness_table_modes_are_exclusive_and_defaulted() {
    let parts = |shell: bool, http: bool, delay: bool| ReadinessParts {
        shell: shell.then(|| ShellSpec { cmd: "check".to_string(), exit_codes: None, output: Some("ok".to_string()) }),
        http: http.then(|| HttpSpec { url: "http://localhost".to_string(), status: None, output: None }),
        output: None,
        interval: None,
        timeout: None,
        delay: delay.then(|| Span::from_secs(2)),
    };
    let err = readiness_from_parts(parts(true, true, false)).unwrap_err();
    assert!(err.contains("mutually exclusive"), "{err}");
    match readiness_from_parts(parts(false, true, false)).unwrap() {
        Readiness::Http { status, .. } => assert_eq!(status.0, vec![200]),
        other => panic!("unexpected {other:?}"),
    }
    match readiness_from_parts(parts(false, false, true)).unwrap() {
        Readiness::Delay(d) => assert_eq!(d, Span::from_secs(2)),
        other => panic!("unexpected {other:?}"),
    }
    let err = readiness_from_parts(parts(false, false, false)).unwrap_err();
    assert_eq!(err, "readiness requires \"shell\", \"http\", \"output\", or \"delay\"");
}

#[test]
fn durations_parse_humantime_strings() {
    assert_eq!(parse_duration("500ms").unwrap(), Span { secs: 0, nanos: 500_000_000 });
    assert_eq!(parse_duration("2s").unwrap(), Span::from_secs(2));
    let err = parse_duration("soon").unwrap_err();
    assert!(err.starts_with("invalid duration \"soon\": "), "{err}");
}

#[test]
fn cli_lists_are_trimmed_and_empties_dropped() {
    let raw = vec![" web ".to_string(), "".to_string(), "  ".to_string(), "db".to_string()];
    assert_eq!(non_empty_trimmed(&raw), ["web", "db"]);
}

#[test]
fn parses_inline_and_subtable_environment() {
    // Inline and sub-table forms decode to the same entry; both reach the process.
    let mut web = proc("npm start");
    web.environment = strings(&[("PORT", "3000"), ("NODE_ENV", "development")]);
    let cfg = load(vec![("web", table(web))]);
    let env = &get(&cfg, "web").environment;
    assert_eq!(env.get("PORT").map(String::as_str), Some("3000"));
    assert_eq!(env.get("NODE_ENV").map(String::as_str), Some("development"));
    assert_eq!(env_of(&cfg, "web", "PORT").as_deref(), Some("3000"));
}

#[test]
fn parses_log_file_option() {
    let mut web = proc("npm start");
    web.log_file = Some("tmp/web.log".to_string());
    let cfg = load(vec![("web", table(web))]);
    assert_eq!(get(&cfg, "web").log_file.as_deref(), Some("tmp/web.log"));

    let cfg = load(vec![("web", table(proc("npm start")))]);
    assert_eq!(get(&cfg, "web").log_file, None);
}

#[test]
fn durations_too_large_for_seconds_are_refused() {
    let err = parse_duration("18446744073709551615s 500ms 500ms").unwrap_err();
    assert!(err.contains("number is too large"), "{err}");
    // Exactly the longest whole-second duration still fits and parses.
    assert!(duration_fits("18446744073709551615s"));
    assert_eq!(parse_duration("18446744073709551615s").unwrap(), Span { secs: u64::MAX, nanos: 0 });
    assert!(!duration_fits("18446744073709551616s"));
    // Many digits in a small unit are fine.
    assert_eq!(parse_duration("100000000000ns").unwrap(), Span::from_secs(100));
    assert!(duration_fits("1h 30min 15s 500ms 250us"));
    assert_eq!(
        parse_duration("1h 30min 15s 500ms 250us").unwrap(),
        Span { secs: 5415, nanos: 500_250_000 }
    );
    assert!(duration_fits("99999999999y"));
    assert!(!duration_fits("999999999999y"));
}
