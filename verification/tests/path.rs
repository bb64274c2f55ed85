use dokono::path::{text_is_before, PathBuf};
use dokono::paths::{contains_path, insert_path};
use std::collections::HashSet;

#[test]
fn spellings_of_one_path_are_equal() {
    assert_eq!(PathBuf::parse("a//b/./c/"), PathBuf::parse("a/b/c"));
    assert_eq!(PathBuf::parse("//a"), PathBuf::parse("/a"));
    assert_ne!(PathBuf::parse("./a"), PathBuf::parse("a"));
    assert_ne!(PathBuf::parse("a/../b"), PathBuf::parse("b"));
    assert_ne!(PathBuf::parse("/a"), PathBuf::parse("a"));
}

#[test]
fn the_text_of_a_path_spells_it() {
    for text in ["/", "", ".", "..", "/a/b", "./a/..", "a/b.rs", "/../x"] {
        let p = PathBuf::parse(text);
        assert_eq!(p.text(), text);
        assert_eq!(PathBuf::parse(&p.text()), p);
    }
    assert_eq!(PathBuf::parse("/a//./b/").text(), "/a/b");
}

#[test]
fn a_path_is_shown_as_it_was_spelled() {
    for text in ["/", "", "/a/b", "./a/..", "/a//./b/", "a/./b", "//x"] {
        let p = PathBuf::parse(text);
        assert_eq!(p.display(), text);
        assert_eq!(p.clone().display(), text);
        assert_eq!(PathBuf::parse(&p.display()), p);
    }
    let rest = PathBuf::parse("/a//./b/c/").strip_prefix(&PathBuf::parse("/a/")).unwrap();
    assert_eq!(rest.display(), "b/c");
}

#[test]
fn spellings_of_one_path_hash_alike() {
    let mut seen = HashSet::new();
    assert!(seen.insert(PathBuf::parse("/a//b/")));
    assert!(!seen.insert(PathBuf::parse("/a/./b")));
    assert!(seen.insert(PathBuf::parse("/a/b/c")));
}

#[test]
fn paths_are_ordered_by_component() {
    let order = ["", "/", "/a", "/a/b", "/a-b", ".", "..", "a", "a/z", "a.b", "b"];
    for (i, x) in order.iter().enumerate() {
        for (j, y) in order.iter().enumerate() {
            assert_eq!(
                PathBuf::parse(x).comes_before(&PathBuf::parse(y)),
                i < j,
                "{x} {y}"
            );
        }
    }
    assert!(text_is_before("Z", "a"));
    assert!(text_is_before("ab", "abc"));
    assert!(!text_is_before("abc", "abc"));
}

#[test]
fn prefixes_are_whole_components() {
    let p = PathBuf::parse("/w/src/lib.rs");
    assert!(p.starts_with(&PathBuf::parse("/w/src")));
    assert!(!p.starts_with(&PathBuf::parse("/w/sr")));
    assert_eq!(p.strip_prefix(&PathBuf::parse("/w/")), Some(PathBuf::parse("src/lib.rs")));
    assert_eq!(p.strip_prefix(&PathBuf::parse("w")), None);
    assert_eq!(p.strip_prefix(&PathBuf::parse("")), Some(p.clone()));
    assert_eq!(p.strip_prefix(&p), Some(PathBuf::parse("")));
}

#[test]
fn extensions_stand_behind_the_last_dot() {
    assert!(PathBuf::parse("a/b.rs").has_extension("rs"));
    assert!(PathBuf::parse("a/b.c.rs").has_extension("rs"));
    assert!(!PathBuf::parse("a/b.c.rs").has_extension("c.rs"));
    assert!(!PathBuf::parse("a/.rs").has_extension("rs"));
    assert!(!PathBuf::parse("a.rs/..").has_extension("rs"));
    assert!(!PathBuf::parse("a/brs").has_extension("rs"));
    assert!(!PathBuf::parse("").has_extension("rs"));
    assert!(PathBuf::parse("a.").has_extension(""));
}

#[test]
fn a_set_of_paths_is_ordered_and_has_no_path_twice() {
    let mut v = Vec::new();
    for text in ["b", "a/c", "a", "b", "./x"] {
        insert_path(&mut v, PathBuf::parse(text));
    }
    let texts: Vec<String> = v.iter().map(|p| p.display()).collect();
    assert_eq!(texts, vec!["./x", "a", "a/c", "b"]);
    assert!(contains_path(&v, &PathBuf::parse("a//c")));
    assert!(!contains_path(&v, &PathBuf::parse("c")));
}
