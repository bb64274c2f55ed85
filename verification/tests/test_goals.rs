use dokono::path::PathBuf;
use dokono::test_goals::{
    classify_attrs, is_excluded_dir, is_source_file, tests_in_source, tests_met, Met, MetFn,
    TestAttr, TestFn,
};

fn collect_in(source: &str) -> Vec<TestFn> {
    tests_in_source(PathBuf::parse("/ws/src/lib.rs"), source).unwrap()
}

#[test]
fn detects_simple_test_fn() {
    let out = collect_in(
        "#[test]\nfn foo() {\n    assert_eq!(1, 1);\n}\n\nfn not_a_test() {}\n",
    );
    assert_eq!(out.len(), 1, "expected one test, got {out:?}");
    assert_eq!(out[0].name, "foo");
    assert_eq!(out[0].attr, TestAttr::Test);
    // body_range covers the whole item: from `#[test]` on line 1 down to
    // the closing brace on line 4 of the 6-line fixture.
    assert_eq!(out[0].body_range, (1, 4));
    assert_eq!(out[0].file, PathBuf::parse("/ws/src/lib.rs"));
}

#[test]
fn detects_test_fn_in_nested_module() {
    let out = collect_in(
        "#[cfg(test)]\nmod tests {\n    #[test]\n    fn nested_test() {}\n\n    fn helper() {}\n}\n",
    );
    assert_eq!(out.len(), 1, "expected one test, got {out:?}");
    assert_eq!(out[0].name, "nested_test");
    assert_eq!(out[0].mod_path, vec!["tests".to_string()]);
}

#[test]
fn ignores_non_test_attributes() {
    let out = collect_in(
        "#[derive(Debug)]\nstruct S;\n\n#[inline]\nfn inlined() {}\n\n#[allow(dead_code)]\nfn allowed() {}\n",
    );
    assert!(out.is_empty(), "got: {out:?}");
}

#[test]
fn detects_tokio_test() {
    let out = collect_in(
        "#[tokio::test]\nasync fn tk() {}\n\n#[tokio::test(flavor = \"current_thread\")]\nasync fn tk_flav() {}\n",
    );
    assert_eq!(out.len(), 2);
    assert!(out.iter().all(|t| t.attr == TestAttr::TokioTest));
}

#[test]
fn detects_async_std_test() {
    let out = collect_in("#[async_std::test]\nasync fn asyncstd() {}\n");
    assert_eq!(out.len(), 1);
    assert_eq!(out[0].attr, TestAttr::AsyncStdTest);
}

#[test]
fn detects_rstest() {
    let out = collect_in("#[rstest]\nfn rs(#[case] x: i32) {}\n");
    assert_eq!(out.len(), 1);
    assert_eq!(out[0].attr, TestAttr::Rstest);
}

#[test]
fn detects_test_case() {
    let out = collect_in("#[test_case(\"a\")]\n#[test_case(\"b\")]\nfn tc(x: &str) {}\n");
    assert_eq!(out.len(), 1, "got: {out:?}");
    assert_eq!(out[0].attr, TestAttr::TestCase);
}

/// When written as `#[test_case::test_case(...)]` and `#[tokio::test]` with full paths.
#[test]
fn detects_fully_qualified_test_case_and_tokio() {
    let out = collect_in(
        "#[test_case::test_case(1)]\nfn a(x: i32) {}\n\n#[::tokio::test]\nasync fn b() {}\n",
    );
    assert_eq!(out.len(), 2, "got: {out:?}");
    assert!(out
        .iter()
        .any(|t| t.name == "a" && t.attr == TestAttr::TestCase));
    assert!(out
        .iter()
        .any(|t| t.name == "b" && t.attr == TestAttr::TokioTest));
}

#[test]
fn build_outputs_and_other_files_are_passed_over() {
    assert!(is_excluded_dir(true, "target"));
    assert!(is_excluded_dir(true, ".git"));
    assert!(!is_excluded_dir(false, "target"));
    assert!(!is_excluded_dir(true, "src"));
    assert!(is_source_file(true, &PathBuf::parse("/ws/src/lib.rs")));
    assert!(!is_source_file(true, &PathBuf::parse("/ws/src/lib.txt")));
    assert!(!is_source_file(false, &PathBuf::parse("/ws/dir.rs")));
    assert!(!is_source_file(true, &PathBuf::parse("/ws/.rs")));
}

#[test]
fn the_first_test_attribute_counts() {
    let row = |paths: &[&str]| -> Vec<Vec<String>> {
        paths
            .iter()
            .map(|p| p.split("::").map(|s| s.to_string()).collect())
            .collect()
    };
    assert_eq!(classify_attrs(&row(&["inline", "rstest", "test"])), Some(TestAttr::Rstest));
    assert_eq!(classify_attrs(&row(&["sqlx::test", "test"])), Some(TestAttr::Test));
    assert_eq!(classify_attrs(&row(&["sqlx::test"])), None);
    assert_eq!(classify_attrs(&Vec::new()), None);
}

#[test]
fn lines_are_those_of_the_source() {
    let out = collect_in("#[inline]\n#[test]\nfn a(\n)\n{\n}\n\n#[test] fn b() {}\n");
    assert_eq!(out.len(), 2);
    assert_eq!(out[0].body_range, (1, 6));
    assert_eq!(out[0].brace_line, 5);
    assert_eq!(out[1].body_range, (8, 8));
    assert_eq!(out[1].brace_line, 8);
}

#[test]
fn tests_are_found_wherever_they_stand() {
    let out = collect_in(
        "mod a {\n    mod b;\n    mod c {\n        #[test]\n        fn deep() {}\n    }\n    \
         #[test]\n    fn outer() {\n        #[test]\n        fn inner() {}\n    }\n}\n\
         #[test]\nfn last() {}\n",
    );
    let found: Vec<(&str, String)> =
        out.iter().map(|t| (t.name.as_str(), t.mod_path.join("::"))).collect();
    assert_eq!(
        found,
        vec![
            ("deep", "a::c".to_string()),
            ("outer", "a".to_string()),
            ("inner", "a".to_string()),
            ("last", "".to_string()),
        ]
    );
}

#[test]
fn what_cannot_be_parsed_has_no_tests() {
    assert_eq!(tests_in_source(PathBuf::parse("/ws/a.rs"), "#[test]\nfn f( {}\n"), None);
    assert_eq!(tests_in_source(PathBuf::parse("/ws/a.rs"), ""), Some(Vec::new()));
}

#[test]
fn a_walk_is_followed_step_by_step() {
    let function = |name: &str, attr: &str| {
        Met::Function(MetFn {
            name: name.to_string(),
            attrs: vec![vec![attr.to_string()]],
            attr_line: Some(4),
            fn_line: 5,
            brace_line: 6,
            end_line: 7,
        })
    };
    let met = vec![
        Met::Module("m".to_string(), true),
        function("plain", "inline"),
        function("one", "test"),
        Met::Module("elsewhere".to_string(), false),
        function("hidden", "test"),
        Met::ModuleEnd,
        function("two", "rstest"),
        Met::ModuleEnd,
        Met::ModuleEnd,
        Met::Function(MetFn {
            name: "three".to_string(),
            attrs: vec![vec!["test".to_string()]],
            attr_line: None,
            fn_line: 9,
            brace_line: 9,
            end_line: 10,
        }),
    ];
    let file = PathBuf::parse("/ws/a.rs");
    let test = |name: &str, range, brace_line, attr, mods: &[&str]| TestFn {
        file: file.clone(),
        name: name.to_string(),
        body_range: range,
        brace_line,
        attr,
        mod_path: mods.iter().map(|m| m.to_string()).collect(),
    };
    assert_eq!(
        tests_met(file.clone(), &met),
        vec![
            test("one", (4, 7), 6, TestAttr::Test, &["m"]),
            test("two", (4, 7), 6, TestAttr::Rstest, &["m"]),
            test("three", (9, 10), 9, TestAttr::Test, &[]),
        ]
    );
}

/// A crate with two tests in it.
const APP: &str = "use domain::Greeter;\n\npub struct AppGreeter;\n\nimpl Greeter for AppGreeter {\n    \
    fn greet(&self) -> String {\n        \"hello from AppGreeter\".to_string()\n    }\n}\n\n\
    #[cfg(test)]\nmod tests {\n    use super::*;\n\n    #[test]\n    \
    fn test_greet_returns_expected_string() {\n        let g = AppGreeter;\n        \
    assert_eq!(g.greet(), \"hello from AppGreeter\");\n    }\n\n    #[test]\n    \
    fn test_unrelated_arithmetic() {\n        assert_eq!(2 + 2, 4);\n    }\n}\n";

#[test]
fn test_greet_returns_expected_string() {
    assert_eq!(APP.lines().nth(6).unwrap().trim(), "\"hello from AppGreeter\".to_string()");
    let t = &collect_in(APP)[0];
    assert_eq!(t.name, "test_greet_returns_expected_string");
    assert_eq!(t.mod_path, vec!["tests".to_string()]);
    assert_eq!(t.body_range, (15, 19));
    assert_eq!(t.brace_line, 16);
}

#[test]
fn test_unrelated_arithmetic() {
    let found = collect_in(APP);
    assert_eq!(2 + 2, 4);
    assert_eq!(found.len(), 2);
    assert_eq!(found[1].name, "test_unrelated_arithmetic");
    assert_eq!(found[1].body_range, (21, 24));
}
