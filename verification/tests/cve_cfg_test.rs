use dokono::cve::cfg_test::{
    attr_matches_cfg_test, has_cfg_test, line_in_ranges, looks_into, parse_source_ranges, Attr,
    CfgClassifier, LineRange,
};
use dokono::path::PathBuf;
use dokono::types::{Location, Position, Range};

fn gated_at(source: &str, line: u32) -> bool {
    let ranges = parse_source_ranges(source).unwrap();
    line_in_ranges(&ranges, line)
}

#[test]
fn cfg_test_mod_is_gated() {
    let src = "fn outer() {}\n\
               #[cfg(test)]\n\
               mod tests {\n    \
                   fn inner() {}\n\
               }\n";
    assert!(gated_at(src, 3));
    assert!(!gated_at(src, 0));
}

#[test]
fn cfg_any_test_is_gated() {
    let src = "#[cfg(any(test, feature = \"x\"))]\n\
               mod tests {\n    \
                   fn inner() {}\n\
               }\n";
    assert!(gated_at(src, 2));
}

#[test]
fn non_cfg_attr_is_not_gated() {
    let src = "#[derive(Debug)]\nstruct S;\n";
    assert!(!gated_at(src, 1));
}

#[test]
fn cfg_feature_only_is_not_gated() {
    let src = "#[cfg(feature = \"x\")]\nfn foo() {}\n";
    assert!(!gated_at(src, 1));
}

#[test]
fn cfg_test_fn_is_gated() {
    let src = "#[cfg(test)]\nfn helper() {}\nfn prod() {}\n";
    assert!(gated_at(src, 1));
    assert!(!gated_at(src, 2));
}

#[test]
fn nested_cfg_test_mod_is_gated() {
    let src = "mod outer {\n    \
                   #[cfg(test)]\n    \
                   mod inner {\n        \
                       fn deep() {}\n    \
                   }\n\
               }\n";
    assert!(gated_at(src, 3));
    assert!(!gated_at(src, 0));
}

#[test]
fn conditions_are_read_as_far_as_they_go() {
    let gated = |cfg: &str| gated_at(&format!("#[{cfg}]\nfn f() {{}}\n"), 1);
    assert!(gated("cfg(unix, test)"));
    assert!(gated("cfg(any(test), unix)"));
    assert!(gated("cfg(any(unix), test)"));
    assert!(gated("cfg[test]"));
    assert!(!gated("cfg(any(unix, test))"));
    assert!(!gated("cfg(not(test))"));
    assert!(!gated("cfg(not(unix), test)"));
    assert!(!gated("cfg(all(test, unix))"));
    assert!(!gated("cfg(any, test)"));
    assert!(!gated("cfg(any(), test)"));
    assert!(!gated("cfg(any[test])"));
    assert!(!gated("cfg(::test)"));
    assert!(!gated("cfg(test::test)"));
    assert!(!gated("cfg(a::b::, test)"));
    assert!(gated("cfg(a::b, test)"));
    assert!(!gated("cfg(\"test\")"));
    assert!(!gated("cfg()"));
    assert!(!gated("cfg"));
    assert!(!gated("cfg = \"test\""));
    assert!(!gated("test"));
    assert!(!gated("my::cfg(test)"));
}

fn attr(name: Option<&str>, conditions: &[Option<&str>]) -> Attr {
    Attr {
        name: name.map(|n| n.to_string()),
        conditions: conditions.iter().map(|c| c.map(|n| n.to_string())).collect(),
    }
}

#[test]
fn a_condition_on_tests_suffices() {
    assert!(attr_matches_cfg_test(&attr(Some("cfg"), &[Some("test")])));
    assert!(attr_matches_cfg_test(&attr(Some("cfg"), &[None, Some("any"), Some("test")])));
    assert!(!attr_matches_cfg_test(&attr(Some("cfg"), &[Some("unix"), None])));
    assert!(!attr_matches_cfg_test(&attr(Some("cfg"), &[])));
    assert!(!attr_matches_cfg_test(&attr(Some("derive"), &[Some("test")])));
    assert!(!attr_matches_cfg_test(&attr(None, &[Some("test")])));
    assert!(has_cfg_test(&vec![attr(Some("derive"), &[]), attr(Some("cfg"), &[Some("test")])]));
    assert!(!has_cfg_test(&vec![attr(Some("derive"), &[Some("test")])]));
    assert!(!has_cfg_test(&vec![]));
    assert!(looks_into(&Some("any".to_string())));
    assert!(!looks_into(&Some("all".to_string())));
    assert!(!looks_into(&None));
}

#[test]
fn every_kind_of_item_is_looked_at() {
    for item in [
        "fn f() {}",
        "mod m;",
        "impl S {}",
        "struct S;",
        "enum E {}",
        "trait T {}",
        "const C: u8 = 0;",
        "static X: u8 = 0;",
        "use a::b;",
        "type T = u8;",
        "union U { a: u8 }",
        "extern crate a;",
        "extern \"C\" {}",
        "m! {}",
        "trait T = Copy;",
    ] {
        assert!(gated_at(&format!("#[cfg(test)]\n{item}\n"), 1), "{item}");
    }
}

#[test]
fn ranges_cover_the_whole_item() {
    assert_eq!(
        parse_source_ranges("fn a() {}\n#[cfg(test)]\nmod t {\n    fn b() {}\n}\n").unwrap(),
        vec![LineRange { start: 1, end: 4 }]
    );
    assert!(parse_source_ranges("fn (").is_none());
}

fn loc(file: &PathBuf, line: u32) -> Location {
    let at = Position { line, character: 0 };
    Location { path: file.clone(), range: Range { start: at, end: at } }
}

#[test]
fn gated_locations_are_dropped() {
    let shown = PathBuf::parse("/w/a.rs");
    let unreadable = PathBuf::parse("/w/b.rs");
    let broken = PathBuf::parse("/w/c.rs");
    let unknown = PathBuf::parse("/w/d.rs");
    let mut c = CfgClassifier::new();
    assert!(!c.knows(&shown));
    c.show(&shown, Some("#[cfg(test)]\nfn t() {}\nfn p() {}\n"));
    c.show(&unreadable, None);
    c.show(&broken, Some("#[cfg(test)]\nfn t( {}\n"));
    // What was shown first counts.
    c.show(&shown, Some("fn p() {}\nfn q() {}\n"));
    assert!(c.knows(&shown));
    let at = |line| Position { line, character: 0 };
    assert_eq!(c.is_test_gated(&shown, at(1)), Some(true));
    assert_eq!(c.is_test_gated(&shown, at(2)), Some(false));
    assert_eq!(c.is_test_gated(&unreadable, at(1)), Some(false));
    assert_eq!(c.is_test_gated(&broken, at(1)), Some(false));
    assert_eq!(c.is_test_gated(&unknown, at(1)), None);
    let kept = c.drop_test_gated(&vec![
        loc(&shown, 1),
        loc(&shown, 2),
        loc(&broken, 1),
        loc(&unknown, 1),
        loc(&shown, 0),
    ]);
    assert_eq!(kept, vec![loc(&shown, 2), loc(&broken, 1), loc(&unknown, 1)]);
}
