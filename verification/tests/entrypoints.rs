use dokono::entrypoints::{bin_entrypoints, Target};
use dokono::path::PathBuf;

fn target(kinds: &[&str], path: &str) -> Target {
    Target {
        kind: kinds.iter().map(|k| k.to_string()).collect(),
        src_path: PathBuf::parse(path),
    }
}

fn fixture() -> Vec<Vec<Target>> {
    vec![vec![
        target(&["lib"], "/fixture/src/lib.rs"),
        target(&["bin"], "/fixture/src/main.rs"),
        target(&["example"], "/fixture/examples/ex.rs"),
    ]]
}

#[test]
fn discovers_main_rs() {
    let bins = bin_entrypoints(&fixture());
    assert_eq!(bins, vec![PathBuf::parse("/fixture/src/main.rs")]);
}

#[test]
fn entrypoints_does_not_include_lib_or_examples() {
    for p in &bin_entrypoints(&fixture()) {
        assert!(!p.display().contains("/examples/"));
        assert!(!p.display().ends_with("src/lib.rs"));
    }
}

#[test]
fn binaries_come_in_order_and_once() {
    let bins = bin_entrypoints(&vec![
        vec![target(&["bin"], "/w/z.rs"), target(&["cdylib", "bin"], "/w/a.rs")],
        vec![target(&["bin"], "/w/z.rs"), target(&["test"], "/w/b.rs")],
    ]);
    assert_eq!(bins, vec![PathBuf::parse("/w/a.rs"), PathBuf::parse("/w/z.rs")]);
}
