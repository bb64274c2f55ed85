use dokono::diff::{parse_unified_diff, ChangedFile, DiffError};
use dokono::path::PathBuf;

#[test]
fn single_file_single_hunk() {
    let diff = "\
diff --git a/src/foo.rs b/src/foo.rs
index abc..def 100644
--- a/src/foo.rs
+++ b/src/foo.rs
@@ -10,2 +12,3 @@
+new1
+new2
+new3
";
    let result = parse_unified_diff(diff).unwrap();
    assert_eq!(
        result,
        vec![ChangedFile {
            path: PathBuf::parse("src/foo.rs"),
            lines: vec![12, 13, 14],
        }]
    );
}

#[test]
fn single_line_hunk_no_comma() {
    let diff = "+++ b/x.rs\n@@ -5 +7 @@\n+y\n";
    let result = parse_unified_diff(diff).unwrap();
    assert_eq!(
        result,
        vec![ChangedFile {
            path: PathBuf::parse("x.rs"),
            lines: vec![7],
        }]
    );
}

#[test]
fn pure_deletion_no_added_lines() {
    let diff = "+++ b/x.rs\n@@ -5,3 +5,0 @@\n";
    let result = parse_unified_diff(diff).unwrap();
    assert!(result.is_empty());
}

#[test]
fn file_deletion_skipped() {
    let diff = "--- a/x.rs\n+++ /dev/null\n@@ -1,5 +0,0 @@\n-line\n";
    let result = parse_unified_diff(diff).unwrap();
    assert!(result.is_empty());
}

#[test]
fn file_creation() {
    let diff = "--- /dev/null\n+++ b/new.rs\n@@ -0,0 +1,3 @@\n+a\n+b\n+c\n";
    let result = parse_unified_diff(diff).unwrap();
    assert_eq!(
        result,
        vec![ChangedFile {
            path: PathBuf::parse("new.rs"),
            lines: vec![1, 2, 3],
        }]
    );
}

#[test]
fn multiple_hunks_in_same_file_are_merged_and_sorted() {
    let diff = "\
+++ b/x.rs
@@ -20 +25,2 @@
+b
+c
@@ -10 +10 @@
+a
";
    let result = parse_unified_diff(diff).unwrap();
    assert_eq!(
        result,
        vec![ChangedFile {
            path: PathBuf::parse("x.rs"),
            lines: vec![10, 25, 26],
        }]
    );
}

#[test]
fn multiple_files() {
    let diff = "\
+++ b/a.rs
@@ -1 +1 @@
+a
+++ b/b.rs
@@ -2 +5 @@
+b
";
    let result = parse_unified_diff(diff).unwrap();
    assert_eq!(
        result,
        vec![
            ChangedFile {
                path: PathBuf::parse("a.rs"),
                lines: vec![1],
            },
            ChangedFile {
                path: PathBuf::parse("b.rs"),
                lines: vec![5],
            }
        ]
    );
}

#[test]
fn hunk_with_trailing_context_in_header() {
    let diff = "+++ b/x.rs\n@@ -10,1 +12,1 @@ fn foo()\n+y\n";
    let result = parse_unified_diff(diff).unwrap();
    assert_eq!(
        result,
        vec![ChangedFile {
            path: PathBuf::parse("x.rs"),
            lines: vec![12],
        }]
    );
}

#[test]
fn empty_diff() {
    let result = parse_unified_diff("").unwrap();
    assert!(result.is_empty());
}

fn error_of(hunk: &str) -> DiffError {
    parse_unified_diff(&format!("+++ b/x.rs\n{hunk}\n")).unwrap_err()
}

#[test]
fn hunk_header_without_its_end_is_malformed() {
    let e = error_of("@@ -1 +1");
    assert_eq!(e, DiffError::MalformedHunkHeader("@@ -1 +1".to_string()));
    assert_eq!(e.message(), "malformed hunk header: @@ -1 +1");
}

#[test]
fn hunk_header_without_new_range_is_an_error() {
    let e = error_of("@@ -1 @@");
    assert_eq!(e, DiffError::MissingNewRange("@@ -1 @@".to_string()));
    assert_eq!(e.message(), "hunk header missing new-file range: @@ -1 @@");
}

#[test]
fn bad_numbers_are_told_apart() {
    assert_eq!(error_of("@@ -1 +x @@").message(), "bad hunk start: @@ -1 +x @@");
    assert_eq!(error_of("@@ -1 +x,y @@"), DiffError::BadHunkStart("@@ -1 +x,y @@".to_string()));
    assert_eq!(error_of("@@ -1 +3,y @@").message(), "bad hunk count: @@ -1 +3,y @@");
    assert_eq!(error_of("@@ -1 + @@"), DiffError::BadHunkStart("@@ -1 + @@".to_string()));
    assert_eq!(
        error_of("@@ -1 +4294967296 @@"),
        DiffError::BadHunkStart("@@ -1 +4294967296 @@".to_string())
    );
}

#[test]
fn a_range_past_the_last_line_number_is_an_error() {
    let e = error_of("@@ -1 +4294967295,2 @@");
    assert_eq!(e, DiffError::RangeTooLong("@@ -1 +4294967295,2 @@".to_string()));
    assert_eq!(e.message(), "hunk range too long: @@ -1 +4294967295,2 @@");
    let ok = parse_unified_diff("+++ b/x.rs\n@@ -1 +4294967295,1 @@\n").unwrap();
    assert_eq!(ok[0].lines, vec![4294967295]);
}

#[test]
fn faults_before_the_first_file_and_in_deleted_files_do_not_count() {
    assert!(parse_unified_diff("@@ nonsense\n").unwrap().is_empty());
    assert!(parse_unified_diff("+++ /dev/null\n@@ nonsense\n").unwrap().is_empty());
}

#[test]
fn overlapping_hunks_are_merged() {
    let got = parse_unified_diff("+++ b/x.rs\r\n@@ -1 +4,3 @@\r\n@@ -1 +5,4 @@\r\n").unwrap();
    assert_eq!(got[0].lines, vec![4, 5, 6, 7, 8]);
}

#[test]
fn a_plus_sign_may_stand_twice() {
    let got = parse_unified_diff("+++ b/x.rs\n@@ -1 ++7 @@\n").unwrap();
    assert_eq!(got[0].lines, vec![7]);
}

#[test]
fn the_path_is_kept_where_it_has_no_prefix() {
    let got = parse_unified_diff("+++ x/y.rs\n@@ -1 +1 @@\n").unwrap();
    assert_eq!(got[0].path, PathBuf::parse("x/y.rs"));
}

#[test]
fn an_added_line_may_look_like_a_header() {
    let got = parse_unified_diff("+++ b/x.rs\n@@ -0,0 +1 @@\n+++ y\n@@ -4,0 +6 @@\n+z\n").unwrap();
    assert_eq!(
        got,
        vec![ChangedFile { path: PathBuf::parse("x.rs"), lines: vec![1, 6] }]
    );
    let got = parse_unified_diff(
        "+++ b/x.rs\n@@ -1,2 +1,2 @@\n--- a\n-b\n+++ a\n+++ b\n+++ b/y.rs\n@@ -1 +2 @@\n-a\n+b\n",
    )
    .unwrap();
    assert_eq!(
        got,
        vec![
            ChangedFile { path: PathBuf::parse("x.rs"), lines: vec![1, 2] },
            ChangedFile { path: PathBuf::parse("y.rs"), lines: vec![2] },
        ]
    );
}

fn file(path: &str, lines: Vec<u32>) -> ChangedFile {
    ChangedFile { path: PathBuf::parse(path), lines }
}

#[test]
fn context_lines_belong_to_their_hunk() {
    let first = "+++ b/a.rs\n@@ -1 +1,2 @@\n x\n+a\n";
    let second = "--- a/b.rs\n+++ b/b.rs\n@@ -2 +5 @@\n+b\n";
    assert_eq!(
        parse_unified_diff(&format!("{first}{second}")).unwrap(),
        vec![file("a.rs", vec![1, 2]), file("b.rs", vec![5])]
    );
    let plain = "+++ b/b.rs\n@@ -2 +5 @@\n+b\n";
    assert_eq!(
        parse_unified_diff(&format!("{first}{plain}")).unwrap(),
        vec![file("a.rs", vec![1, 2]), file("b.rs", vec![5])]
    );
    assert_eq!(
        parse_unified_diff(&format!("{first}--- a/b.rs\n+++ /dev/null\n@@ bad\n")).unwrap(),
        vec![file("a.rs", vec![1, 2])]
    );
    let mixed = "+++ b/a.rs\n@@ -1,4 +1,5 @@\n ++ x\n-y\n--- z\n+++ y\n+++ z\n\\ No newline\n+w\n \u{20}\n\
                 diff --git a/b.rs b/b.rs\nindex 1..2\n--- a/b.rs\n+++ b/b.rs\n@@ -1,0 +2 @@\n+q\n";
    assert_eq!(
        parse_unified_diff(mixed).unwrap(),
        vec![file("a.rs", vec![1, 2, 3, 4, 5]), file("b.rs", vec![2])]
    );
}

#[test]
fn a_line_that_does_not_fit_ends_a_hunk() {
    for odd in ["diff --git a/b b/b", "index 1..2", "@@ -9 +9,0 @@", "", "-- "] {
        let text = format!("+++ b/a.rs\n@@ -1,0 +1,3 @@\n+a\n{odd}\n+++ b/b.rs\n@@ -2 +5 @@\n+b\n");
        assert_eq!(
            parse_unified_diff(&text).unwrap(),
            vec![file("a.rs", vec![1, 2, 3]), file("b.rs", vec![5])],
            "{odd}"
        );
    }
}

#[test]
fn the_old_side_of_a_hunk_need_not_be_readable() {
    let got = parse_unified_diff("+++ b/a.rs\n@@ -x,y +1 @@\n-a\n+b\n+++ b/b.rs\n@@ +7 @@\n+c\n");
    assert_eq!(got.unwrap(), vec![file("a.rs", vec![1]), file("b.rs", vec![7])]);
}
