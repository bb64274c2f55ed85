use dokono::bfs::{BfsResult, EntryHits, ParentMap};
use dokono::matcher::{
    group_by_file, make_affected, pos_in_body, resolve, test_path_for, PackageMap, TestsByFile,
};
use dokono::path::PathBuf;
use dokono::test_goals::{TestAttr, TestFn};
use dokono::types::Position;

fn pos(line: u32) -> Position {
    Position { line, character: 0 }
}

fn test_fn(file: &PathBuf, name: &str, body_range: (u32, u32)) -> TestFn {
    TestFn {
        file: file.clone(),
        name: name.into(),
        body_range,
        brace_line: body_range.0,
        attr: TestAttr::Test,
        mod_path: Vec::new(),
    }
}

fn empty_packages() -> PackageMap {
    PackageMap::new(Vec::new())
}

fn bfs(parents: ParentMap, entry_hits: EntryHits) -> BfsResult {
    BfsResult { affected: Vec::new(), parents, entry_hits }
}

fn names(out: Vec<dokono::matcher::AffectedTest>) -> Vec<String> {
    out.iter().map(|a| a.name.clone()).collect()
}

#[test]
fn pos_inside_body_hits() {
    let f = PathBuf::parse("/ws/crate-a/src/lib.rs");
    let t = test_fn(&f, "foo", (10, 20));
    // pos.line 14 (0-based) → 15 (1-based) ∈ [10, 20]
    assert!(pos_in_body(pos(14), &t));
}

#[test]
fn pos_outside_body_misses() {
    let f = PathBuf::parse("/ws/crate-a/src/lib.rs");
    let t = test_fn(&f, "foo", (10, 20));
    assert!(!pos_in_body(pos(5), &t));
    assert!(!pos_in_body(pos(25), &t));
}

#[test]
fn pos_on_boundary_inclusive() {
    let f = PathBuf::parse("/ws/crate-a/src/lib.rs");
    let t = test_fn(&f, "foo", (10, 20));
    // body_range is inclusive on both ends; LSP line is pos.line+1
    assert!(pos_in_body(pos(9), &t)); // → 10
    assert!(pos_in_body(pos(19), &t)); // → 20
    assert!(!pos_in_body(pos(8), &t));
    assert!(!pos_in_body(pos(20), &t));
    assert!(!pos_in_body(pos(u32::MAX), &t));
}

#[test]
fn resolve_picks_test_via_parents() {
    let workspace = PathBuf::parse("/ws");
    let file = PathBuf::parse("/ws/crate-a/src/lib.rs");
    let tests_by_file: TestsByFile = vec![(
        file.clone(),
        vec![test_fn(&file, "a", (10, 20)), test_fn(&file, "b", (30, 40))],
    )];

    // Visited via `parents` (e.g. direct-change path): line 0-based 14 → 15.
    let parents: ParentMap = vec![((file.clone(), pos(14)), None), ((file.clone(), pos(50)), None)];

    let out = resolve(
        &Vec::new(),
        &bfs(parents, Vec::new()),
        &tests_by_file,
        &empty_packages(),
        &workspace,
    );
    assert_eq!(names(out), vec!["a".to_string()]);
}

#[test]
fn resolve_picks_test_via_entry_hits() {
    let workspace = PathBuf::parse("/ws");
    let file = PathBuf::parse("/ws/crate-a/src/lib.rs");
    let tests_by_file: TestsByFile = vec![(
        file.clone(),
        vec![test_fn(&file, "a", (10, 20)), test_fn(&file, "b", (30, 40))],
    )];

    // Only `entry_hits` carries the reach (BFS landed inside an entrypoint file).
    let entry_hits: EntryHits = vec![(file, vec![pos(34)])];

    let out = resolve(
        &Vec::new(),
        &bfs(Vec::new(), entry_hits),
        &tests_by_file,
        &empty_packages(),
        &workspace,
    );
    assert_eq!(names(out), vec!["b".to_string()]);
}

/// The change site itself sits inside a test function's body. The resolver must hit it from
/// `starts` alone, without depending on whether BFS happens to add the start position to
/// `parents` first.
#[test]
fn resolve_picks_test_via_direct_start_in_test_body() {
    let workspace = PathBuf::parse("/ws");
    let file = PathBuf::parse("/ws/crate-a/src/lib.rs");
    let tests_by_file: TestsByFile =
        vec![(file.clone(), vec![test_fn(&file, "edited_test", (100, 120))])];

    let starts = vec![(file, pos(104))];
    let out = resolve(
        &starts,
        &bfs(Vec::new(), Vec::new()),
        &tests_by_file,
        &empty_packages(),
        &workspace,
    );
    assert_eq!(names(out), vec!["edited_test".to_string()]);
}

#[test]
fn resolve_skips_files_not_in_tests_by_file() {
    let workspace = PathBuf::parse("/ws");
    let test_file = PathBuf::parse("/ws/crate-a/src/lib.rs");
    let other = PathBuf::parse("/ws/crate-a/src/util.rs");
    let tests_by_file: TestsByFile =
        vec![(test_file, vec![test_fn(&PathBuf::parse("ignored"), "a", (10, 20))])];

    let parents: ParentMap = vec![((other, pos(14)), None)];
    let out = resolve(
        &Vec::new(),
        &bfs(parents, Vec::new()),
        &tests_by_file,
        &empty_packages(),
        &workspace,
    );
    assert!(out.is_empty());
}

#[test]
fn resolved_tests_come_in_order_and_once() {
    let workspace = PathBuf::parse("/ws");
    let file = PathBuf::parse("/ws/crate-a/src/lib.rs");
    let tests_by_file = group_by_file(vec![
        test_fn(&file, "z", (1, 9)),
        test_fn(&file, "b", (20, 29)),
        test_fn(&file, "a", (30, 39)),
    ]);
    assert_eq!(tests_by_file.len(), 1);
    let starts = vec![
        (file.clone(), pos(25)),
        (file.clone(), pos(35)),
        (file.clone(), pos(26)),
        (file.clone(), pos(3)),
    ];
    let out = resolve(
        &starts,
        &bfs(Vec::new(), Vec::new()),
        &tests_by_file,
        &empty_packages(),
        &workspace,
    );
    assert_eq!(names(out), vec!["a".to_string(), "b".to_string(), "z".to_string()]);
}

#[test]
fn the_deepest_package_owns_a_file() {
    let packages = PackageMap::new(vec![
        (PathBuf::parse("/ws"), "outer".to_string()),
        (PathBuf::parse("/ws/crates/a"), "inner".to_string()),
    ]);
    let file = PathBuf::parse("/ws/crates/a/src/lib.rs");
    assert_eq!(packages.package_for(&file), Some("inner"));
    assert_eq!(packages.root_for(&file), Some(&PathBuf::parse("/ws/crates/a")));
    assert_eq!(packages.package_for(&PathBuf::parse("/ws/src/main.rs")), Some("outer"));
    assert_eq!(packages.package_for(&PathBuf::parse("/elsewhere/x.rs")), None);
    assert_eq!(packages.root_for(&PathBuf::parse("/ws/crates/ab/x.rs")), Some(&PathBuf::parse("/ws")));
}

#[test]
fn affected_tests_name_package_and_path() {
    let packages = PackageMap::new(vec![(PathBuf::parse("/ws/app"), "app".to_string())]);
    let workspace = PathBuf::parse("/ws");
    let file = PathBuf::parse("/ws/app/src/lib.rs");
    let mut t = test_fn(&file, "works", (4, 9));
    t.brace_line = 5;
    t.mod_path = vec!["tests".to_string()];
    let a = make_affected(&t, &packages, &workspace);
    assert_eq!(a.package, "app");
    assert_eq!(a.name, "works");
    assert_eq!(a.line, 5);
    assert_eq!(a.test_path, test_path_for(&t, &PathBuf::parse("/ws/app")));
    assert_eq!(a.file, file);
}

#[test]
fn test_paths_follow_the_files() {
    let root = PathBuf::parse("/ws/app");
    let at = |file: &str, mods: &[&str]| {
        let mut t = test_fn(&PathBuf::parse(file), "works", (1, 1));
        t.mod_path = mods.iter().map(|m| m.to_string()).collect();
        test_path_for(&t, &root)
    };
    assert_eq!(at("/ws/app/src/lib.rs", &["tests"]), "tests::works");
    assert_eq!(at("/ws/app/src/main.rs", &[]), "works");
    assert_eq!(at("/ws/app/src/a/b.rs", &["tests"]), "a::b::tests::works");
    assert_eq!(at("/ws/app/src/a/mod.rs", &[]), "a::works");
    assert_eq!(at("/ws/app/src/a/mod.rs", &["tests"]), "a::tests::works");
    assert_eq!(at("/ws/app/src/mod.rs", &[]), "mod::works");
    assert_eq!(at("/elsewhere/src/b.rs", &[]), "elsewhere::src::b::works");
}
