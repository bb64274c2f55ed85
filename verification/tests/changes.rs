use dokono::changes::{
    added_lines, blobs_to_compare, can_compare, changed_file_from, pr_refspec, range_numbers,
    Blobs, ChangeKind,
};
use dokono::path::PathBuf;

#[test]
fn only_rust_files_that_still_exist_are_compared() {
    let rs = PathBuf::parse("src/lib.rs");
    let md = PathBuf::parse("README.md");
    assert_eq!(blobs_to_compare(ChangeKind::Deletion, &rs), Blobs::Neither);
    assert_eq!(blobs_to_compare(ChangeKind::Addition, &rs), Blobs::New);
    assert_eq!(blobs_to_compare(ChangeKind::Modification, &rs), Blobs::Both);
    assert_eq!(blobs_to_compare(ChangeKind::Rewrite, &rs), Blobs::Both);
    assert_eq!(blobs_to_compare(ChangeKind::Addition, &md), Blobs::Neither);
    assert_eq!(blobs_to_compare(ChangeKind::Addition, &PathBuf::parse("x/.rs")), Blobs::Neither);
}

#[test]
fn added_lines_are_numbered_from_one() {
    let before = b"a\nb\nc\n";
    let after = b"a\nx\nb\nc\ny\n";
    assert_eq!(added_lines(before, after), vec![2, 5]);
}

#[test]
fn an_unchanged_file_is_left_out() {
    let data = b"fn main() {}\n";
    assert!(can_compare(data, data));
    assert_eq!(added_lines(data, data), Vec::<u32>::new());
    assert_eq!(changed_file_from(PathBuf::parse("a.rs"), data, data), None);
}

#[test]
fn all_lines_of_a_new_file_are_added() {
    assert_eq!(added_lines(b"", b"a\nb\nc"), vec![1, 2, 3]);
    assert_eq!(added_lines(b"", b""), Vec::<u32>::new());
}

#[test]
fn a_pure_removal_adds_nothing() {
    assert_eq!(changed_file_from(PathBuf::parse("a.rs"), b"a\nb\n", b"a\n"), None);
}

#[test]
fn a_changed_file_keeps_its_path() {
    let f = changed_file_from(PathBuf::parse("src//a.rs"), b"a\n", b"b\n").unwrap();
    assert_eq!(f.path, PathBuf::parse("src/a.rs"));
    assert_eq!(f.lines, vec![1]);
}

#[test]
fn ranges_become_numbers() {
    assert_eq!(range_numbers(&vec![(0, 2), (4, 4), (5, 6)]), vec![1, 2, 6]);
}

#[test]
fn the_refspec_of_a_pull_request() {
    assert_eq!(
        pr_refspec(42, "dokono-pr-42"),
        "+refs/pull/42/head:refs/heads/dokono-pr-42"
    );
}
