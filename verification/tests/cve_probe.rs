use dokono::cve::input::VulnSymbol;
use dokono::cve::probe::{
    build_probe_main, gather_seeds, plan_seeds, probe_answer, probe_dir_name, probe_manifest,
    probe_outcome, symbol_position_in_probe, workspace_dep_versions, Outcome, UnresolvedReason,
};
use dokono::cve::version::{Version, VersionReq};
use dokono::lsp::{FoundLocation, LocationResponse, RequestFailure};
use dokono::path::PathBuf;
use dokono::types::{Position, Range};

fn sym(path: &str) -> VulnSymbol {
    VulnSymbol {
        advisory_id: None,
        crate_name: path.split("::").next().unwrap().to_string(),
        path: path.to_string(),
        version_reqs: Vec::new(),
    }
}

fn sym_for(path: &str, req: &str) -> VulnSymbol {
    VulnSymbol { version_reqs: vec![VersionReq::parse(req).unwrap()], ..sym(path) }
}

#[test]
fn position_points_at_leaf() {
    let cases = [
        ("openssl::ssl::SslContext::new", "new"),
        ("openssl::md::Md::fetch", "fetch"),
        ("openssl::md::fetch_md_by_name", "fetch_md_by_name"),
        ("foo::bar", "bar"),
    ];
    let symbols: Vec<VulnSymbol> = cases.iter().map(|(p, _)| sym(p)).collect();
    let main_rs = build_probe_main(&symbols);
    let lines: Vec<&str> = main_rs.lines().collect();
    for (i, (path, leaf)) in cases.iter().enumerate() {
        let pos = symbol_position_in_probe(i, path);
        let line = lines[pos.line as usize];
        let from = &line[pos.character as usize..];
        assert!(
            from.starts_with(leaf),
            "case {i} ({path}): expected leaf {leaf:?}, line {line:?}, slice {from:?}"
        );
    }
}

#[test]
fn positions_count_bytes() {
    let path = "größe::wert";
    let main_rs = build_probe_main(&vec![sym(path)]);
    let pos = symbol_position_in_probe(0, path);
    assert_eq!(pos, Position { line: 2, character: 12 + 9 });
    assert!(main_rs.lines().nth(2).unwrap()[21..].starts_with("wert"));
    assert_eq!(symbol_position_in_probe(5, "bare"), Position { line: 7, character: 12 });
}

#[test]
fn probe_main_includes_all_paths() {
    let symbols = vec![sym("openssl::ssl::SslContext::new"), sym("openssl::md::Md::fetch")];
    let main_rs = build_probe_main(&symbols);
    assert!(main_rs.contains("openssl::ssl::SslContext::new"));
    assert!(main_rs.contains("openssl::md::Md::fetch"));
    assert!(main_rs.starts_with("#!"));
    assert_eq!(
        main_rs,
        "#![allow(unused, dead_code, clippy::all)]\nfn __dokono_cve_probe() {\n    let _ = openssl::ssl::SslContext::new;\n    let _ = openssl::md::Md::fetch;\n}\n"
    );
}

#[test]
fn probe_crates_pin_the_version() {
    assert_eq!(probe_dir_name("openssl", Some("0.10.68")), "probe-openssl-0.10.68");
    assert_eq!(probe_dir_name("openssl", None), "probe-openssl-any");
    assert!(probe_manifest("openssl", None).contains("\nopenssl = \"*\"\n"));
    assert_eq!(
        probe_manifest("openssl", Some("0.10.68")),
        "[package]\nname = \"dokono-cve-probe\"\nversion = \"0.0.1\"\nedition = \"2021\"\n\n[dependencies]\nopenssl = \"=0.10.68\"\n\n[workspace]\n"
    );
}

fn versions(list: &[(&str, &str)]) -> Vec<(String, Version)> {
    let given: Vec<(String, String)> =
        list.iter().map(|(n, v)| (n.to_string(), v.to_string())).collect();
    workspace_dep_versions(&given).unwrap()
}

#[test]
fn the_lowest_version_is_in_use() {
    let v = versions(&[("a", "1.10.0"), ("b", "3.0.0"), ("a", "1.9.0"), ("a", "2.0.0")]);
    let shown: Vec<(&str, &str)> = v.iter().map(|(n, v)| (n.as_str(), v.as_str())).collect();
    assert_eq!(shown, vec![("a", "1.9.0"), ("b", "3.0.0")]);
    let faulty = vec![("a".to_string(), "1.0".to_string())];
    assert_eq!(workspace_dep_versions(&faulty).unwrap_err(), "1.0");
}

fn advised(path: &str) -> VulnSymbol {
    VulnSymbol { advisory_id: Some("RUSTSEC-2025-0022".to_string()), ..sym(path) }
}

fn place(line: u32) -> (PathBuf, Position) {
    (PathBuf::parse("/reg/lib.rs"), Position { line, character: 0 })
}

#[test]
fn every_symbol_gets_its_due() {
    let symbols = vec![
        sym("b::z"),
        advised("gone::x"),
        sym("direct::x"),
        sym_for("a::y", "^1"),
        sym("b::a"),
        sym_for("a::w", "^2"),
        sym("c::m"),
    ];
    let v = versions(&[("a", "1.5.0"), ("b", "0.3.0"), ("c", "1.0.0")]);
    let plan = plan_seeds(&symbols, &v);
    assert_eq!(plan.unresolved.len(), 2);
    let groups: Vec<(&str, Option<&str>, usize)> = plan
        .groups
        .iter()
        .map(|g| (g.crate_name.as_str(), g.version.as_ref().map(|v| v.as_str()), g.symbols.len()))
        .collect();
    assert_eq!(
        groups,
        vec![
            ("b", Some("0.3.0"), 2),
            ("direct", None, 1),
            ("a", Some("1.5.0"), 1),
            ("c", Some("1.0.0"), 1),
        ]
    );
    let outcomes: Vec<Outcome> = vec![
        Ok(vec![place(1), place(2)]),
        Ok(vec![place(4)]),
        Err("no server".to_string()),
        Ok(vec![place(3)]),
    ];
    let r = gather_seeds(plan, &outcomes);
    let resolved: Vec<(&str, u32)> =
        r.resolved.iter().map(|s| (s.symbol.path.as_str(), s.position.line)).collect();
    assert_eq!(resolved, vec![("b::a", 2), ("b::z", 1), ("c::m", 3), ("direct::x", 4)]);
    let unresolved: Vec<&str> = r.unresolved.iter().map(|s| s.symbol.path.as_str()).collect();
    assert_eq!(unresolved, vec!["a::w", "a::y", "gone::x"]);
    assert_eq!(
        r.unresolved[0].reason,
        UnresolvedReason::NotAffectedVersion(Version::parse("1.5.0").unwrap())
    );
    assert_eq!(r.unresolved[1].reason, UnresolvedReason::ProbeFailed("no server".to_string()));
    assert_eq!(r.unresolved[2].reason, UnresolvedReason::NoDependency);
    assert_eq!(r.resolved.len() + r.unresolved.len(), symbols.len());
}

#[test]
fn equal_paths_keep_their_order() {
    let mut first = sym("a::x");
    first.advisory_id = Some("one".to_string());
    let mut second = sym("a::x");
    second.advisory_id = Some("two".to_string());
    let plan = plan_seeds(&vec![first, sym("a::b"), second], &versions(&[("a", "1.0.0")]));
    let outcomes: Vec<Outcome> = vec![Ok(vec![place(1), place(2), place(3)])];
    let r = gather_seeds(plan, &outcomes);
    let ids: Vec<Option<&str>> =
        r.resolved.iter().map(|s| s.symbol.advisory_id.as_deref()).collect();
    assert_eq!(ids, vec![None, Some("one"), Some("two")]);
}

#[test]
fn answers_without_a_place_fail() {
    let at = FoundLocation {
        path: Some(PathBuf::parse("/reg/md.rs")),
        range: Range {
            start: Position { line: 4, character: 2 },
            end: Position { line: 4, character: 9 },
        },
    };
    assert_eq!(
        probe_answer("a::b", Some(LocationResponse::Scalar(at))),
        Ok((PathBuf::parse("/reg/md.rs"), Position { line: 4, character: 2 }))
    );
    assert_eq!(
        probe_answer("a::b", None),
        Err("no definition returned for a::b".to_string())
    );
}

#[test]
fn the_first_reply_without_a_place_fails_a_group() {
    let symbols = vec![sym("a::x"), sym("a::y"), sym("a::z")];
    let at = |line: u32| {
        let start = Position { line, character: 3 };
        Ok(Some(LocationResponse::Scalar(FoundLocation {
            path: Some(PathBuf::parse("/reg/lib.rs")),
            range: Range { start, end: start },
        })))
    };
    let lost = || Err(RequestFailure { message: "lost".to_string(), gave_up: false });
    let place = |line| (PathBuf::parse("/reg/lib.rs"), Position { line, character: 3 });
    assert_eq!(
        probe_outcome(&symbols, vec![at(1), at(2), at(3)]),
        Ok(vec![place(1), place(2), place(3)])
    );
    assert_eq!(
        probe_outcome(&symbols, vec![at(1), Ok(None), lost()]),
        Err("no definition returned for a::y".to_string())
    );
    assert_eq!(probe_outcome(&symbols, vec![at(1), lost(), Ok(None)]), Err("lost".to_string()));
    assert_eq!(probe_outcome(&Vec::new(), Vec::new()), Ok(Vec::new()));
}
