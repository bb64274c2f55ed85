use dokono::bfs::{BackendError, LspBackend, Recorder};
use dokono::cve::exit::{exit_code, verdict, Verdict};
use dokono::cve::input::{InputResult, UnsupportedAdvisory, UnsupportedReason, VulnSymbol};
use dokono::cve::output::{
    reachability_str, render, resolve_text, Format, JsonReport, Rendered, SCHEMA_VERSION,
};
use dokono::cve::probe::{ResolveResult, ResolvedSeed, UnresolvedReason, UnresolvedSeed};
use dokono::cve::runner::{
    classify, classify_seeds, open_and_search, ordered_bins, search_from, Reachability, RunResult,
    SeedReachability,
};
use dokono::cve::version::Version;
use dokono::path::PathBuf;
use dokono::types::{DocumentSymbol, Location, Position, Range};
use serde_json::Value;

fn run_with(bins: &[(&str, Reachability)]) -> RunResult {
    RunResult {
        all_bins: bins.iter().map(|(p, _)| PathBuf::parse(p)).collect(),
        per_seed: vec![SeedReachability {
            seed: ResolvedSeed {
                symbol: VulnSymbol {
                    advisory_id: None,
                    crate_name: "x".into(),
                    path: "x::y".into(),
                    version_reqs: vec![],
                },
                file: PathBuf::parse("/x"),
                position: Position { line: 0, character: 0 },
            },
            bins: bins.iter().map(|(p, r)| (PathBuf::parse(p), *r)).collect(),
        }],
    }
}

#[test]
fn no_seeds_is_clean() {
    let r = RunResult { all_bins: vec![], per_seed: vec![] };
    assert_eq!(verdict(&r), Verdict::Clean);
    assert_eq!(exit_code(verdict(&r), false), 0);
    assert_eq!(exit_code(verdict(&r), true), 0);
}

#[test]
fn all_not_reachable_is_clean() {
    let r = run_with(&[("/a", Reachability::NotReachable)]);
    assert_eq!(verdict(&r), Verdict::Clean);
    assert_eq!(exit_code(verdict(&r), false), 0);
    assert_eq!(exit_code(verdict(&r), true), 0);
}

#[test]
fn production_reachable_exits_1() {
    let r = run_with(&[("/a", Reachability::Production), ("/b", Reachability::NotReachable)]);
    assert_eq!(verdict(&r), Verdict::ProductionReachable);
    assert_eq!(exit_code(verdict(&r), false), 1);
    assert_eq!(exit_code(verdict(&r), true), 1);
}

#[test]
fn tests_only_default_is_0_strict_is_1() {
    let r = run_with(&[("/a", Reachability::TestsOnly), ("/b", Reachability::NotReachable)]);
    assert_eq!(verdict(&r), Verdict::TestsOnlyReachable);
    assert_eq!(exit_code(verdict(&r), false), 0);
    assert_eq!(exit_code(verdict(&r), true), 1);
}

#[test]
fn mix_production_and_tests_is_production() {
    let r = run_with(&[("/a", Reachability::Production), ("/b", Reachability::TestsOnly)]);
    assert_eq!(verdict(&r), Verdict::ProductionReachable);
    assert_eq!(exit_code(verdict(&r), false), 1);
}

fn workspace() -> PathBuf {
    PathBuf::parse("/work")
}

fn sample_input() -> InputResult {
    InputResult {
        vuln_symbols: vec![],
        unsupported: vec![UnsupportedAdvisory {
            advisory_id: "RUSTSEC-2099-0001".into(),
            crate_name: "hyper".into(),
            reason: UnsupportedReason::NoAffectedFunctions,
        }],
    }
}

fn sample_resolve() -> ResolveResult {
    ResolveResult {
        resolved: vec![],
        unresolved: vec![UnresolvedSeed {
            symbol: VulnSymbol {
                advisory_id: None,
                crate_name: "ghost".into(),
                path: "ghost::foo".into(),
                version_reqs: vec![],
            },
            reason: UnresolvedReason::NoDependency,
        }],
    }
}

fn seed() -> ResolvedSeed {
    ResolvedSeed {
        symbol: VulnSymbol {
            advisory_id: Some("RUSTSEC-2025-0022".into()),
            crate_name: "openssl".into(),
            path: "openssl::md::Md::fetch".into(),
            version_reqs: vec![],
        },
        file: PathBuf::parse("/cargo/registry/src/index.crates.io/openssl-0.10.68/src/md.rs"),
        position: Position { line: 98, character: 11 },
    }
}

fn sample_run() -> RunResult {
    let bin_a = PathBuf::parse("/work/bin/a.rs");
    let bin_b = PathBuf::parse("/work/bin/b.rs");
    let bin_c = PathBuf::parse("/work/bin/c.rs");
    RunResult {
        all_bins: vec![bin_a.clone(), bin_b.clone(), bin_c.clone()],
        per_seed: vec![SeedReachability {
            seed: seed(),
            bins: vec![
                (bin_a, Reachability::Production),
                (bin_b, Reachability::TestsOnly),
                (bin_c, Reachability::NotReachable),
            ],
        }],
    }
}

#[test]
fn text_snapshot() {
    let out = match render(
        &workspace(),
        &sample_input(),
        &sample_resolve(),
        &sample_run(),
        Format::Text,
    ) {
        Rendered::Text(t) => t,
        Rendered::Json(j) => panic!("{j:?}"),
    };
    assert_eq!(
        out,
        "Workspace: /work (3 bins)\n\
         \n\
         RUSTSEC-2025-0022  openssl  openssl::md::Md::fetch\n  \
         seed: /cargo/registry/src/index.crates.io/openssl-0.10.68/src/md.rs:99:12\n  \
         REACHABLE\n    bin/a.rs\n  \
         REACHABLE FROM TESTS ONLY\n    bin/b.rs\n  \
         NOT REACHABLE\n    bin/c.rs\n\
         \n\
         Unresolved seeds:\n  \
         (direct)  ghost::foo  (no_dependency)\n\
         \n\
         Unsupported advisories (no affected.functions in DB):\n  \
         RUSTSEC-2099-0001  hyper\n"
    );
}

#[test]
fn empty_sections_say_so() {
    let run = run_with(&[("/work/a.rs", Reachability::NotReachable)]);
    let none = InputResult { vuln_symbols: vec![], unsupported: vec![] };
    let resolve = ResolveResult { resolved: vec![], unresolved: vec![] };
    let out = render(&workspace(), &none, &resolve, &run, Format::Text);
    assert_eq!(
        out,
        Rendered::Text(
            "Workspace: /work (1 bins)\n\n(direct)  x  x::y\n  seed: /x:1:1\n  REACHABLE\n    (none)\n  REACHABLE FROM TESTS ONLY\n    (none)\n  NOT REACHABLE\n    a.rs\n"
                .to_string()
        )
    );
}

fn sample_object() -> JsonReport {
    match render(
        &workspace(),
        &sample_input(),
        &sample_resolve(),
        &sample_run(),
        Format::Json,
    ) {
        Rendered::Json(j) => j,
        Rendered::Text(t) => panic!("{t}"),
    }
}

#[test]
fn json_snapshot() {
    let j = sample_object();
    assert_eq!(j.schema_version, SCHEMA_VERSION);
    assert_eq!(j.workspace, "/work");
    assert_eq!(j.all_bins, vec!["bin/a.rs", "bin/b.rs", "bin/c.rs"]);
    assert_eq!(j.advisories.len(), 1);
    let a = &j.advisories[0];
    assert_eq!(a.advisory_id.as_deref(), Some("RUSTSEC-2025-0022"));
    assert_eq!(a.crate_name, "openssl");
    assert_eq!(a.vulnerable_symbol, "openssl::md::Md::fetch");
    assert_eq!(
        a.seed_file,
        "/cargo/registry/src/index.crates.io/openssl-0.10.68/src/md.rs"
    );
    assert_eq!((a.seed_line, a.seed_character), (99, 12));
    let bins: Vec<(&str, &str)> =
        a.bins.iter().map(|b| (b.path.as_str(), b.reachability.as_str())).collect();
    assert_eq!(
        bins,
        vec![
            ("bin/a.rs", "production"),
            ("bin/b.rs", "tests_only"),
            ("bin/c.rs", "not_reachable"),
        ]
    );
    assert_eq!(j.unresolved.len(), 1);
    assert_eq!(j.unresolved[0].advisory_id, None);
    assert_eq!(j.unresolved[0].crate_name, "ghost");
    assert_eq!(j.unresolved[0].vulnerable_symbol, "ghost::foo");
    assert_eq!(j.unresolved[0].reason, "no_dependency");
    assert_eq!(j.unsupported.len(), 1);
    assert_eq!(j.unsupported[0].advisory_id, "RUSTSEC-2099-0001");
    assert_eq!(j.unsupported[0].crate_name, "hyper");
    assert_eq!(j.unsupported[0].reason, "no_affected_functions");
}

#[test]
fn json_parses_as_object() {
    let j = sample_object();
    let bins: Vec<Value> = j.advisories[0]
        .bins
        .iter()
        .map(|b| {
            let mut m = serde_json::Map::new();
            m.insert("path".into(), Value::from(b.path.as_str()));
            m.insert("reachability".into(), Value::from(b.reachability.as_str()));
            Value::Object(m)
        })
        .collect();
    let mut advisory = serde_json::Map::new();
    advisory.insert(
        "advisory_id".into(),
        j.advisories[0].advisory_id.clone().map(Value::from).unwrap_or(Value::Null),
    );
    advisory.insert("bins".into(), Value::Array(bins));
    let mut top = serde_json::Map::new();
    top.insert("schema_version".into(), Value::from(j.schema_version));
    top.insert("advisories".into(), Value::Array(vec![Value::Object(advisory)]));
    let out = serde_json::to_string_pretty(&Value::Object(top)).unwrap();
    let v: Value = serde_json::from_str(&out).unwrap();
    assert_eq!(v["schema_version"], 1);
    assert_eq!(v["advisories"][0]["advisory_id"], "RUSTSEC-2025-0022");
    assert_eq!(v["advisories"][0]["bins"][0]["reachability"], "production");
    assert_eq!(v["advisories"][0]["bins"][1]["reachability"], "tests_only");
    assert_eq!(v["advisories"][0]["bins"][2]["reachability"], "not_reachable");
}

#[test]
fn places_are_printed() {
    let mut resolve = sample_resolve();
    resolve.resolved.push(seed());
    resolve.unresolved.push(UnresolvedSeed {
        symbol: seed().symbol,
        reason: UnresolvedReason::NotAffectedVersion(Version::parse("1.0.0").unwrap()),
    });
    resolve.unresolved.push(UnresolvedSeed {
        symbol: seed().symbol,
        reason: UnresolvedReason::ProbeFailed("no server".to_string()),
    });
    assert_eq!(
        resolve_text(&sample_input(), &resolve),
        "Resolved: 1 seed(s), 3 unresolved\n  \
         resolved  RUSTSEC-2025-0022  openssl::md::Md::fetch  -> /cargo/registry/src/index.crates.io/openssl-0.10.68/src/md.rs:99:12\n  \
         unresolved  (direct)  ghost::foo  (no_dependency)\n  \
         unresolved  RUSTSEC-2025-0022  openssl::md::Md::fetch  (not_affected_version (in use: 1.0.0))\n  \
         unresolved  RUSTSEC-2025-0022  openssl::md::Md::fetch  (probe_failed: no server)\n  \
         unsupported RUSTSEC-2099-0001  hyper  (no affected.functions in DB)\n"
    );
    assert_eq!(reachability_str(Reachability::TestsOnly), "tests_only");
}

#[test]
fn binaries_are_classified() {
    let p = |s: &str| PathBuf::parse(s);
    let bins = ordered_bins(&workspace(), vec![p("/c"), p("/a"), p("/b"), p("/a")]).unwrap();
    assert_eq!(bins, vec![p("/a"), p("/b"), p("/c")]);
    assert_eq!(
        classify(&bins, &vec![p("/a"), p("/b")], &vec![p("/a")]),
        vec![
            (p("/a"), Reachability::Production),
            (p("/b"), Reachability::TestsOnly),
            (p("/c"), Reachability::NotReachable),
        ]
    );
    assert_eq!(
        ordered_bins(&workspace(), vec![]).unwrap_err(),
        "no binary entrypoints found in /work"
    );
}

/// A server on which every symbol is referred to from `/w/main.rs`, and from a test if that is
/// not hidden.
struct TwoCallers {
    opened: usize,
    hide_tests: bool,
}

impl LspBackend for TwoCallers {
    fn open(&mut self, _: &PathBuf) -> Result<(), BackendError> {
        self.opened += 1;
        Ok(())
    }
    fn declaration(
        &mut self,
        file: &PathBuf,
        pos: Position,
    ) -> Result<(PathBuf, Position), BackendError> {
        Ok((file.clone(), pos))
    }
    fn references(&mut self, _: &PathBuf, _: Position) -> Result<Vec<Location>, BackendError> {
        let at = Position { line: 3, character: 0 };
        let range = Range { start: at, end: at };
        let mut out = vec![Location { path: PathBuf::parse("/w/main.rs"), range }];
        if !self.hide_tests {
            out.push(Location { path: PathBuf::parse("/w/tool.rs"), range });
        }
        Ok(out)
    }
    fn document_symbols(&mut self, _: &PathBuf) -> Result<Vec<DocumentSymbol>, BackendError> {
        Ok(Vec::new())
    }
}

#[test]
fn searches_start_from_the_seed() {
    let main = PathBuf::parse("/w/main.rs");
    let tool = PathBuf::parse("/w/tool.rs");
    let other = PathBuf::parse("/w/zzz.rs");
    let bins = vec![main.clone(), tool.clone(), other.clone()];
    let mut all = Recorder::new(TwoCallers { opened: 0, hide_tests: false });
    let everything = open_and_search(&mut all, &seed(), &bins).unwrap();
    assert_eq!(everything, vec![main.clone(), tool.clone()]);
    assert!(all.into_backend().opened >= 1);
    let mut production = Recorder::new(TwoCallers { opened: 0, hide_tests: true });
    let found = search_from(&mut production, &seed(), &bins).unwrap();
    assert_eq!(found, vec![main.clone()]);
    assert_eq!(
        classify(&bins, &everything, &found),
        vec![
            (main, Reachability::Production),
            (tool, Reachability::TestsOnly),
            (other, Reachability::NotReachable),
        ]
    );
}

/// A server on which every symbol is referred to from two binaries. It fails from some request
/// for references on.
struct Sources {
    asked: usize,
    fail_at: usize,
    read: Vec<PathBuf>,
}

impl LspBackend for Sources {
    fn open(&mut self, _: &PathBuf) -> Result<(), BackendError> {
        Ok(())
    }
    fn declaration(
        &mut self,
        file: &PathBuf,
        pos: Position,
    ) -> Result<(PathBuf, Position), BackendError> {
        Ok((file.clone(), pos))
    }
    fn references(&mut self, _: &PathBuf, _: Position) -> Result<Vec<Location>, BackendError> {
        self.asked += 1;
        if self.asked == self.fail_at {
            return Err(BackendError { message: "no answer".to_string() });
        }
        let at = Position { line: 1, character: 0 };
        let range = Range { start: at, end: at };
        Ok(["/w/main.rs", "/w/tool.rs", "/w/gone.rs"]
            .iter()
            .map(|p| Location { path: PathBuf::parse(p), range })
            .collect())
    }
    fn document_symbols(&mut self, _: &PathBuf) -> Result<Vec<DocumentSymbol>, BackendError> {
        Ok(Vec::new())
    }
    fn source(&mut self, file: &PathBuf) -> Option<String> {
        self.read.push(file.clone());
        if *file == PathBuf::parse("/w/main.rs") {
            Some("fn a() {}\nfn main() {}\n".to_string())
        } else if *file == PathBuf::parse("/w/tool.rs") {
            Some("#[cfg(test)]\nfn b() {}\nfn main() {}\n".to_string())
        } else {
            None
        }
    }
}

#[test]
fn every_symbol_is_searched_for_twice() {
    let path = |p: &str| PathBuf::parse(p);
    let bins = vec![path("/w/gone.rs"), path("/w/main.rs"), path("/w/other.rs"), path("/w/tool.rs")];
    let mut second = seed();
    second.position = Position { line: 7, character: 2 };
    let seeds = vec![seed(), second];
    let mut server = Recorder::new(Sources { asked: 0, fail_at: 0, read: Vec::new() });
    let found = classify_seeds(&mut server, &seeds, &bins).unwrap();
    assert_eq!(found.len(), 2);
    for (entry, s) in found.iter().zip(&seeds) {
        assert_eq!(entry.seed, *s);
        assert_eq!(
            entry.bins,
            vec![
                (path("/w/gone.rs"), Reachability::Production),
                (path("/w/main.rs"), Reachability::Production),
                (path("/w/other.rs"), Reachability::NotReachable),
                (path("/w/tool.rs"), Reachability::TestsOnly),
            ]
        );
    }
    let server = server.into_backend();
    assert_eq!(server.asked, 4);
    assert_eq!(server.read.len(), 6);
    let mut failing = Recorder::new(Sources { asked: 0, fail_at: 4, read: Vec::new() });
    assert_eq!(classify_seeds(&mut failing, &seeds, &bins).unwrap_err().message, "no answer");
    let mut idle = Recorder::new(Sources { asked: 0, fail_at: 1, read: Vec::new() });
    assert_eq!(classify_seeds(&mut idle, &Vec::new(), &bins).unwrap(), Vec::new());
}
