use dokono::cve::input::{
    check_advisory_id, collect_from_audit_json, collect_from_entries, collect_from_symbol,
    input_mode, AdvisoryEntry, AffectedFunction, InputError, InputMode, UnsupportedReason,
};
use dokono::cve::output::dry_run_text;
use dokono::cve::report::is_in_good_order;
use dokono::cve::version::{do_clash, meets_limits, version_matches, Version, VersionReq};
use dokono::path::PathBuf;

fn vulnerability(id: &str, package: &str, functions: Option<&str>) -> String {
    let affected = match functions {
        Some(f) => format!("{{\"arch\":[],\"os\":[],\"functions\":{f}}}"),
        None => "null".to_string(),
    };
    format!(
        "{{\"advisory\":{{\"id\":\"{id}\",\"package\":\"{package}\",\"title\":\"t\",\
         \"description\":\"d\",\"date\":\"2025-04-04\",\"aliases\":[],\"related\":[],\
         \"collection\":\"crates\",\"categories\":[],\"keywords\":[],\"cvss\":null,\
         \"informational\":null,\"references\":[],\"source\":null,\"url\":null,\
         \"withdrawn\":null}},\"versions\":{{\"patched\":[\">=0.10.72\"],\"unaffected\":[]}},\
         \"affected\":{affected},\"package\":{{\"name\":\"{package}\",\"version\":\"0.10.68\",\
         \"source\":null,\"checksum\":null,\"replace\":null}}}}"
    )
}

fn report(list: &[String]) -> String {
    format!(
        "{{\"database\":{{\"advisory-count\":1,\"last-commit\":null,\"last-updated\":null}},\
         \"lockfile\":{{\"dependency-count\":3}},\"settings\":{{\"target_arch\":[],\
         \"target_os\":[],\"severity\":null,\"ignore\":[],\"informational_warnings\":[]}},\
         \"vulnerabilities\":{{\"found\":{},\"count\":{},\"list\":[{}]}},\"warnings\":{{}}}}",
        !list.is_empty(),
        list.len(),
        list.join(",")
    )
}

fn tier_a() -> String {
    vulnerability(
        "RUSTSEC-2025-0022",
        "openssl",
        Some("{\"openssl::md::Md::fetch\":[\">=0.10.39, <0.10.72\"]}"),
    )
}

fn tier_b() -> String {
    vulnerability("RUSTSEC-2099-0001", "hyper", None)
}

#[test]
fn direct_symbol_extracts_crate_name() {
    let r = collect_from_symbol("openssl::ssl::SslContext::new").unwrap();
    assert_eq!(r.vuln_symbols.len(), 1);
    assert_eq!(r.vuln_symbols[0].crate_name, "openssl");
    assert_eq!(r.vuln_symbols[0].path, "openssl::ssl::SslContext::new");
    assert!(r.vuln_symbols[0].advisory_id.is_none());
    assert!(r.unsupported.is_empty());
}

#[test]
fn direct_symbol_rejects_empty() {
    assert!(collect_from_symbol("").is_err());
}

#[test]
fn direct_symbol_rejects_single_segment() {
    // RUSTSEC requires `crate::item` at minimum; mirror the constraint.
    assert_eq!(
        collect_from_symbol("bare_ident").unwrap_err(),
        InputError::NotASymbol("bare_ident".to_string())
    );
}

#[test]
fn direct_symbol_rejects_trailing_colons() {
    assert!(collect_from_symbol("openssl::").is_err());
    assert!(collect_from_symbol("::openssl::foo").is_err());
}

#[test]
fn audit_json_tier_a_only() {
    let r = collect_from_audit_json(&report(&[tier_a()])).unwrap();
    assert_eq!(r.vuln_symbols.len(), 1, "{:?}", r);
    assert!(r.unsupported.is_empty());
    let v = &r.vuln_symbols[0];
    assert_eq!(v.crate_name, "openssl");
    assert_eq!(v.path, "openssl::md::Md::fetch");
    assert_eq!(v.advisory_id.as_deref(), Some("RUSTSEC-2025-0022"));
    assert_eq!(v.version_reqs.len(), 1);
    assert_eq!(v.version_reqs[0].shown(), ">=0.10.39, <0.10.72");
}

#[test]
fn audit_json_tier_b_only() {
    let r = collect_from_audit_json(&report(&[tier_b()])).unwrap();
    assert!(r.vuln_symbols.is_empty(), "{:?}", r);
    assert_eq!(r.unsupported.len(), 1);
    assert_eq!(r.unsupported[0].advisory_id, "RUSTSEC-2099-0001");
    assert_eq!(r.unsupported[0].reason, UnsupportedReason::NoAffectedFunctions);
}

#[test]
fn audit_json_mixed() {
    let r = collect_from_audit_json(&report(&[tier_b(), tier_a()])).unwrap();
    assert_eq!(r.vuln_symbols.len(), 1);
    assert_eq!(r.unsupported.len(), 1);
}

#[test]
fn audit_json_empty_list() {
    let r = collect_from_audit_json(&report(&[])).unwrap();
    assert!(r.vuln_symbols.is_empty());
    assert!(r.unsupported.is_empty());
}

#[test]
fn broken_reports_are_refused() {
    assert_eq!(collect_from_audit_json("{").unwrap_err(), InputError::NotAReport);
    assert_eq!(collect_from_audit_json("{}").unwrap_err(), InputError::NotAReport);
}

#[test]
fn several_functions_come_in_order() {
    let entry = vulnerability(
        "RUSTSEC-2025-0022",
        "openssl",
        Some("{\"openssl::z::f\":[],\"openssl::a::f\":[\"^1\"]}"),
    );
    let empty = vulnerability("RUSTSEC-2025-0023", "openssl", Some("{}"));
    let r = collect_from_audit_json(&report(&[entry, empty])).unwrap();
    let paths: Vec<&str> = r.vuln_symbols.iter().map(|v| v.path.as_str()).collect();
    assert_eq!(paths, vec!["openssl::a::f", "openssl::z::f"]);
    assert_eq!(r.unsupported[0].advisory_id, "RUSTSEC-2025-0023");
}

#[test]
fn faulty_requirements_are_named() {
    let entry = AdvisoryEntry {
        advisory_id: "A".to_string(),
        crate_name: "c".to_string(),
        functions: Some(vec![AffectedFunction {
            path: "c::f".to_string(),
            reqs: vec!["^1".to_string(), "nonsense".to_string()],
        }]),
    };
    assert_eq!(
        collect_from_entries(&vec![entry]).unwrap_err(),
        InputError::NotARequirement("nonsense".to_string())
    );
}

#[test]
fn advisory_ids_are_checked() {
    assert_eq!(check_advisory_id("RUSTSEC-2025-0022"), Ok(()));
    assert_eq!(
        check_advisory_id("RUSTSEC-20"),
        Err(InputError::NotAnAdvisoryId("RUSTSEC-20".to_string()))
    );
}

#[test]
fn the_first_input_counts() {
    let p = PathBuf::parse("/a.json");
    assert_eq!(
        input_mode(Some(p.clone()), Some("x".to_string()), None),
        Some(InputMode::AuditJson(p))
    );
    assert_eq!(
        input_mode(None, Some("x".to_string()), Some("y".to_string())),
        Some(InputMode::AdvisoryId("x".to_string()))
    );
    assert_eq!(
        input_mode(None, None, Some("y".to_string())),
        Some(InputMode::DirectSymbol("y".to_string()))
    );
    assert_eq!(input_mode(None, None, None), None);
}

#[test]
fn version_matches_empty_reqs() {
    let v = Version::parse("1.2.3").unwrap();
    assert!(version_matches(&vec![], &v));
}

#[test]
fn version_matches_within_range() {
    let v = Version::parse("1.2.3").unwrap();
    let r = VersionReq::parse(">=1.0, <2.0").unwrap();
    assert!(version_matches(&vec![r], &v));
}

#[test]
fn version_matches_outside_range() {
    let v = Version::parse("2.5.0").unwrap();
    let r = VersionReq::parse(">=1.0, <2.0").unwrap();
    assert!(!version_matches(&vec![r], &v));
}

#[test]
fn versions_are_ordered() {
    let v = |s: &str| Version::parse(s).unwrap();
    assert!(v("1.2.9").is_before(&v("1.2.10")));
    assert!(v("1.0.0-alpha").is_before(&v("1.0.0")));
    assert!(!v("1.0.0").is_before(&v("1.0.0")));
    assert!(Version::parse("1.2").is_none());
    assert!(VersionReq::parse("x.y").is_none());
    assert_eq!(VersionReq::parse("1.2").unwrap().shown(), "^1.2");
    assert_eq!(v("1.2.3").as_str(), "1.2.3");
}

#[test]
fn inputs_are_printed() {
    let r = collect_from_audit_json(&report(&[tier_a(), tier_b()])).unwrap();
    assert_eq!(
        dry_run_text(&r),
        "Parsed input: 1 symbol(s), 1 unsupported advisory(ies)\n  \
         symbol  RUSTSEC-2025-0022  openssl  openssl::md::Md::fetch  [>=0.10.39, <0.10.72]\n  \
         unsupp  RUSTSEC-2099-0001  hyper  (no affected.functions in DB)\n"
    );
    let direct = collect_from_symbol("a::b").unwrap();
    assert_eq!(
        dry_run_text(&direct),
        "Parsed input: 1 symbol(s), 0 unsupported advisory(ies)\n  symbol  (direct)  a  a::b  [*]\n"
    );
}

fn with_versions(patched: &str, unaffected: &str) -> String {
    report(&[tier_a()]).replace(
        "\"patched\":[\">=0.10.72\"],\"unaffected\":[]",
        &format!("\"patched\":[{patched}],\"unaffected\":[{unaffected}]"),
    )
}

fn refused(text: &str) -> bool {
    collect_from_audit_json(text) == Err(InputError::NotAReport)
}

#[test]
fn versions_that_begin_alike_are_refused() {
    assert!(!refused(&with_versions("\">=1.0.0\"", "\"<0.9.0\"")));
    assert!(!refused(&with_versions("\"^1.2.3\",\">=3.0.0\"", "")));
    assert!(refused(&with_versions("\">1.0.0\"", "\"=1.0.0\"")));
    assert!(refused(&with_versions("\"\\u003e1.0.0\"", "\"=1.0.0\"")));
    assert!(refused(&with_versions("\">1\",\"=1.0.0\"", "")));
    assert!(refused(&with_versions("\"^18446744073709551615.0.0\"", "")));
    assert!(!refused(&with_versions("\">=18446744073709551615.0.0\"", "")));
    // Requirements of different advisories do not meet.
    assert!(!refused(&report(&[tier_a(), tier_a()])));
    // The same lists without names, and under a key that is given twice.
    assert!(refused(&report(&[tier_a()]).replace(
        "{\"patched\":[\">=0.10.72\"],\"unaffected\":[]}",
        "[[\">1.0.0\"],[\"=1.0.0\"]]"
    )));
    assert!(refused(&report(&[tier_a()]).replace(
        "\"unaffected\":[]}",
        "\"unaffected\":[\"=0.10.72\"],\"patched\":[\">0.10.72\"]}"
    )));
}

#[test]
fn checksums_have_to_be_ascii() {
    let with_sum = |sum: &str| {
        report(&[tier_a()])
            .replace("\"checksum\":null", &format!("\"checksum\":\"{sum}\""))
    };
    assert!(!refused(&with_sum(&"ab".repeat(32))));
    assert!(refused(&with_sum(&format!("a{}b", "é".repeat(31)))));
    assert!(refused(&with_sum(&format!("a{}b", "\\u00e9".repeat(31)))));
    assert!(refused(&with_sum("abc")));
    // A text elsewhere may hold anything.
    assert!(!refused(&report(&[tier_a()]).replace("\"title\":\"t\"", "\"title\":\"é\"")));
}

/// A report with one vulnerability of the given members, and warnings.
fn skeleton(vulnerability: &str, warnings: &str) -> String {
    format!(
        "{{\"vulnerabilities\":{{\"found\":true,\"list\":[{{}},{{{vulnerability}}}]}},\
         \"warnings\":{{{warnings}}}}}"
    )
}

#[test]
fn reports_are_looked_through_character_by_character() {
    let bad = "\"versions\":{\"patched\":[\">1.0.0\",\"=1.0.0\"]}";
    let sum = "\"package\":{\"name\":\"n\",\"checksum\":\"\u{e9}\"}";
    assert!(is_in_good_order(""));
    assert!(is_in_good_order(&skeleton("", "")));
    assert!(is_in_good_order(&skeleton(
        "\"versions\":{\"patched\":[\">1.0.0\",\"<1.0.0\"]}",
        ""
    )));
    assert!(!is_in_good_order(&skeleton(bad, "")));
    assert!(!is_in_good_order(&skeleton(sum, "")));
    assert!(!is_in_good_order(&skeleton("", &format!("\"unsound\":[{{{bad}}}]"))));
    assert!(!is_in_good_order(&skeleton("", &format!("\"unsound\":[{{{sum}}}]"))));
    assert!(!is_in_good_order(&skeleton(&bad.replace("patched", "p\\u0061tched"), "")));
    assert!(!is_in_good_order(&skeleton(&sum.replace('\u{e9}', "\\u00e9"), "")));
    // What is not read counts for nothing.
    assert!(is_in_good_order(&format!("{{{bad},{sum}}}")));
    assert!(is_in_good_order(&skeleton(&format!("\"notes\":{{{bad},{sum}}}"), "")));
    assert!(is_in_good_order(&skeleton(&bad.replace("patched", "fixed"), "")));
    assert!(is_in_good_order(&skeleton(&format!("\"title\":{}", format!("{bad:?}")), "")));
    assert!(is_in_good_order(&skeleton("\"checksum\":\"\u{e9}\"", "")));
    // Members in an array go by their places.
    let versions = "[[\">1.0.0\"],[\"=1.0.0\"]]";
    let package = "[\"n\",\"1.0.0\",null,\"\u{e9}\"]";
    let in_array = |v: &str, p: &str| format!("[0,0,[true,1,[[{{}},{v},null,{p}]]],{{}}]");
    assert!(is_in_good_order(&in_array("[[],[]]", "[]")));
    assert!(!is_in_good_order(&in_array(versions, "[]")));
    assert!(!is_in_good_order(&in_array("[[],[]]", package)));
    assert!(is_in_good_order(&in_array("[[],[],[\">1.0.0\",\"=1.0.0\"]]", "[\"\u{e9}\"]")));
    assert!(!is_in_good_order(&format!("[0,0,[],{{\"x\":[[0,{package},0,0,{versions}]]}}]")));
    assert!(is_in_good_order(&format!("[0,0,[],{{\"x\":[[0,[],0,0,[],{versions}]]}}]")));
}

#[test]
fn requirements_with_a_common_lower_bound_clash() {
    assert!(do_clash(">1.0.0", "=1"));
    assert!(do_clash("^1.2", ">=1.2.0, <2"));
    assert!(!do_clash("<1.0.0", "=1.0.0"));
    assert!(!do_clash("<=1.0.0", ">1.0.0"));
    assert!(!do_clash(">1.0.0-a", ">1.0.0"));
    assert!(!do_clash("nonsense", "nonsense"));
    assert!(meets_limits("^1.2.3"));
    assert!(meets_limits("nonsense"));
    let most = "18446744073709551615";
    for req in [
        format!("={most}.{most}.{most}"),
        format!(">1.2.{most}"),
        format!("<=1.2.{most}"),
        format!("^{most}.1.2"),
        format!("^0.{most}"),
        format!("^0.0.{most}"),
        format!("~{most}"),
        format!("~1.{most}"),
    ] {
        assert!(!meets_limits(&req), "{req}");
    }
    for req in [
        format!(">={most}.{most}.{most}"),
        format!("<{most}.{most}.{most}"),
        format!("={most}.{most}.1"),
        format!("=1.2.{most}-a"),
        format!("^1.{most}.{most}"),
        format!("^0.1.{most}"),
        format!("~{most}.1.{most}"),
    ] {
        assert!(meets_limits(&req), "{req}");
    }
}
