use dokono::bins::{emit, summarize, Emitted};
use dokono::cli::OutputFormat;
use dokono::diff::ChangedFile;
use dokono::inspect::{
    diff_text, entrypoint_text, hit_text, outline_text, reference_text, start_text, test_line,
    OutlineSymbol,
};
use dokono::lines::{end_lines, push_list, relative};
use dokono::number::{parse_unsigned, push_decimal};
use dokono::path::PathBuf;
use dokono::session::Status;
use dokono::symbols::SymbolHit;
use dokono::test_goals::{TestAttr, TestFn};
use dokono::trace::trace_text;
use dokono::types::{Position, Range};

fn pos(line: u32, character: u32) -> Position {
    Position { line, character }
}

fn text(status: Status, affected: &[&str]) -> String {
    let paths: Vec<PathBuf> = affected.iter().map(|p| PathBuf::parse(p)).collect();
    let s = summarize(
        Some(4),
        "main".to_string(),
        "topic".to_string(),
        status,
        &paths,
        &PathBuf::parse("/w"),
    );
    match emit(OutputFormat::Text, s) {
        Emitted::Text(t) => t,
        Emitted::Object(o) => panic!("{o:?}"),
    }
}

#[test]
fn affected_binaries_are_listed_as_text() {
    assert_eq!(
        text(Status::Traced, &["/w/a/main.rs", "/x/b.rs"]),
        "Affected entrypoints:\n  a/main.rs\n  /x/b.rs\n"
    );
    assert_eq!(text(Status::Traced, &[]), "Affected entrypoints: none\n");
    assert_eq!(
        text(Status::NoRsChanges, &[]),
        "(no .rs file changes between main and topic)\n"
    );
    assert_eq!(text(Status::NoSymbolChanges, &[]), "(no symbol-level changes found)\n");
}

#[test]
fn affected_binaries_are_an_object() {
    let s = summarize(
        None,
        "main".to_string(),
        "topic".to_string(),
        Status::Traced,
        &vec![PathBuf::parse("/w/a/main.rs")],
        &PathBuf::parse("/w"),
    );
    match emit(OutputFormat::Json, s) {
        Emitted::Object(o) => {
            assert_eq!(o.schema_version, 1);
            assert_eq!(o.pr, None);
            assert_eq!(o.base, "main");
            assert_eq!(o.head, "topic");
            assert_eq!(o.status, Status::Traced);
            assert_eq!(o.affected, vec!["a/main.rs".to_string()]);
        }
        Emitted::Text(t) => panic!("{t}"),
    }
}

#[test]
fn stages_are_printed() {
    let file = ChangedFile { path: PathBuf::parse("src/lib.rs"), lines: vec![3, 4, 10] };
    assert_eq!(diff_text("a", "b", &vec![file]), "src/lib.rs: [3, 4, 10]\n");
    let file = ChangedFile { path: PathBuf::parse("src//./lib.rs"), lines: vec![1] };
    assert_eq!(diff_text("a", "b", &vec![file]), "src//./lib.rs: [1]\n");
    assert_eq!(diff_text("a", "b", &Vec::new()), "(no .rs file changes between a and b)\n");
    assert_eq!(
        entrypoint_text(&PathBuf::parse("/w"), &vec![PathBuf::parse("/w/./m.rs")]),
        "/w/./m.rs\n"
    );
    assert_eq!(
        entrypoint_text(&PathBuf::parse("/w"), &vec![PathBuf::parse("/w/m.rs")]),
        "/w/m.rs\n"
    );
    assert_eq!(
        entrypoint_text(&PathBuf::parse("/w"), &Vec::new()),
        "(no binary entrypoints in /w)\n"
    );
    let t = TestFn {
        file: PathBuf::parse("/w/src/lib.rs"),
        name: "works".to_string(),
        body_range: (3, 9),
        brace_line: 4,
        attr: TestAttr::TokioTest,
        mod_path: Vec::new(),
    };
    assert_eq!(
        test_line(&t, &PathBuf::parse("/w")),
        "src/lib.rs\tworks\tTokioTest\t3:9"
    );
}

#[test]
fn symbols_are_printed() {
    let hit = SymbolHit { name: "f".to_string(), position: pos(3, 7) };
    assert_eq!(hit_text(4, &vec![hit.clone()]), "hit: f @ (3, 7)\n");
    assert_eq!(hit_text(4, &Vec::new()), "no symbol hits line 4\n");
    let symbol = |name: &str, children: Vec<OutlineSymbol>| OutlineSymbol {
        name: name.to_string(),
        kind: "Function".to_string(),
        range: Range { start: pos(1, 0), end: pos(2, 1) },
        selection_range: Range { start: pos(1, 3), end: pos(1, 4) },
        children,
    };
    assert_eq!(
        outline_text(&vec![symbol("a", vec![symbol("b", vec![])]), symbol("c", vec![])]),
        "documentSymbol tree:\n\
         - a (Function) range=(1,0)..(2,1) sel=(1,3)\n  \
         - b (Function) range=(1,0)..(2,1) sel=(1,3)\n\
         - c (Function) range=(1,0)..(2,1) sel=(1,3)\n"
    );
    let w = PathBuf::parse("/w");
    let file = PathBuf::parse("/w/src/lib.rs");
    assert_eq!(start_text(&file, &w, &vec![4], &vec![hit]), "src/lib.rs\tf\t(3,7)\n");
    assert_eq!(
        start_text(&file, &w, &vec![4, 5], &Vec::new()),
        "src/lib.rs\t(no enclosing symbol for lines [4, 5])\n"
    );
}

#[test]
fn references_are_printed() {
    assert_eq!(
        reference_text("/w/a.rs", pos(1, 2), &Vec::new()),
        "(no references found at /w/a.rs:1:2)\n"
    );
    assert_eq!(
        reference_text("/w/a.rs", pos(1, 2), &vec![("/w/b.rs".to_string(), pos(8, 0))]),
        "references (1 hits):\n  /w/b.rs:8:0\n"
    );
}

#[test]
fn traces_lead_back_to_the_start() {
    let w = PathBuf::parse("/w");
    let a = PathBuf::parse("/w/a.rs");
    let b = PathBuf::parse("/w/b.rs");
    let m = PathBuf::parse("/w/m.rs");
    let parents = vec![
        ((a.clone(), pos(0, 3)), None),
        ((b.clone(), pos(4, 7)), Some((a.clone(), pos(0, 3)))),
        ((m.clone(), pos(1, 1)), Some((b.clone(), pos(4, 7)))),
        ((m.clone(), pos(2, 1)), Some((b.clone(), pos(4, 7)))),
    ];
    let entry_hits = vec![(m, vec![pos(1, 1), pos(2, 1)])];
    assert_eq!(
        trace_text(&entry_hits, &parents, &w),
        "\nBFS trace per affected entrypoint:\n  m.rs\n    ref at line 2 col 2\n       ← b.rs:5:8\n       └─ start a.rs:1:4\n"
    );
}

#[test]
fn small_texts() {
    let mut number = String::new();
    push_decimal(&mut number, 0);
    push_decimal(&mut number, u64::MAX);
    assert_eq!(number, "018446744073709551615");
    assert_eq!(end_lines(&vec!["a".to_string(), "".to_string()]), "a\n\n");
    let mut out = "x".to_string();
    push_list(&mut out, &vec![1, 20]);
    assert_eq!(out, "x[1, 20]");
    push_list(&mut out, &Vec::new());
    assert_eq!(out, "x[1, 20][]");
    assert_eq!(relative(&PathBuf::parse("/w/a"), &PathBuf::parse("/w")), "a");
    assert_eq!(relative(&PathBuf::parse("/v/a"), &PathBuf::parse("/w")), "/v/a");
}

#[test]
fn numbers_are_read() {
    let read = |s: &str, max: u64| parse_unsigned(&s.chars().collect::<Vec<char>>(), max);
    assert_eq!(read("42", 100), Some(42));
    assert_eq!(read("+42", 100), Some(42));
    assert_eq!(read("0042", 100), Some(42));
    assert_eq!(read("101", 100), None);
    assert_eq!(read("", 100), None);
    assert_eq!(read("+", 100), None);
    assert_eq!(read("4x", 100), None);
    assert_eq!(read("-1", 100), None);
    assert_eq!(read("18446744073709551615", u64::MAX), Some(u64::MAX));
    assert_eq!(read("18446744073709551616", u64::MAX), None);
}
