use dokono::order::{insert_ranked, Ranked};
use dokono::path::{text_is_before, PathBuf};
use dokono::paths::{contains_path, insert_path};
use dokono::text::{
    find_char, find_last_end, find_text, has_text, join, lines, same_text, split_text, string_of,
    words,
};

fn chars(s: &str) -> Vec<char> {
    s.chars().collect()
}

fn strings(rows: Vec<Vec<char>>) -> Vec<String> {
    rows.iter().map(|r| string_of(r)).collect()
}

#[test]
fn texts_are_cut_into_lines() {
    assert_eq!(strings(lines(&chars("a\r\nb\n\nc"))), vec!["a", "b", "", "c"]);
    assert_eq!(strings(lines(&chars("a\n"))), vec!["a"]);
    assert_eq!(strings(lines(&chars("a\r"))), vec!["a\r"]);
    assert!(lines(&[]).is_empty());
}

#[test]
fn texts_are_cut_at_separators() {
    assert_eq!(strings(split_text(&chars("a::b::c"), "::")), vec!["a", "b", "c"]);
    assert_eq!(strings(split_text(&chars("::a:::b"), "::")), vec!["", "a", ":b"]);
    assert_eq!(strings(split_text(&[], "::")), vec![""]);
    assert_eq!(join(&vec!["a".to_string(), "b".to_string()], "::"), "a::b");
    assert_eq!(join(&Vec::new(), "::"), "");
    assert_eq!(strings(words(&chars("  -1,2  +3\t@@\u{3000}x "))), vec!["-1,2", "+3", "@@", "x"]);
}

#[test]
fn texts_are_searched() {
    assert_eq!(find_text(&chars("xabab"), "ab"), Some(1));
    assert_eq!(find_text(&chars("x"), "ab"), None);
    assert_eq!(find_text(&chars("x"), ""), Some(0));
    assert_eq!(find_last_end(&chars("xabab"), "ab"), 5);
    assert_eq!(find_last_end(&chars("a::b"), "::"), 3);
    assert_eq!(find_last_end(&chars("a:::b"), "::"), 4);
    assert_eq!(find_last_end(&chars("ab"), "::"), 0);
    assert_eq!(find_char(&chars("a,b,c"), 2, ','), 3);
    assert_eq!(find_char(&chars("abc"), 1, ','), 3);
    assert!(has_text("code=-32603 x", "code=-32603"));
    assert!(!has_text("code=-3260", "code=-32603"));
    assert!(same_text("é", "é"));
    assert!(!same_text("a", "ab"));
}

#[test]
fn texts_are_ordered_by_their_characters() {
    assert!(text_is_before("a", "b"));
    assert!(text_is_before("a", "aa"));
    assert!(text_is_before("Z", "a"));
    assert!(!text_is_before("a", "a"));
    assert!(!text_is_before("é", "z"));
}

#[test]
fn ordered_sets_hold_a_path_once() {
    let p = |s: &str| PathBuf::parse(s);
    let mut v = Vec::new();
    for s in ["/b", "/a", "/c", "/a", "/a/b"] {
        insert_path(&mut v, p(s));
    }
    assert_eq!(v, vec![p("/a"), p("/a/b"), p("/b"), p("/c")]);
    assert!(contains_path(&v, &p("/a/b")));
    assert!(!contains_path(&v, &p("/d")));
    insert_ranked(&mut v, p("/aa"));
    assert_eq!(v[2], p("/aa"));
    assert!(p("/a").is_before(&p("/a/b")));
}
