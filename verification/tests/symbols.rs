use dokono::symbols::{pick_at, pick_at_lines, SymbolHit};
use dokono::types::{DocumentSymbol, Position, Range};

/// Tests assert against `selection_range.start` of named symbols rather than literal
/// line numbers, so re-numbering the fixture doesn't silently break them.
fn sym(
    name: &str,
    range: (u32, u32),
    sel_line: u32,
    children: Vec<DocumentSymbol>,
) -> DocumentSymbol {
    DocumentSymbol {
        name: name.into(),
        range: Range {
            start: Position { line: range.0, character: 0 },
            end: Position { line: range.1, character: 0 },
        },
        selection_range: Range {
            start: Position { line: sel_line, character: 4 },
            end: Position { line: sel_line, character: 7 },
        },
        children,
    }
}

#[test]
fn picks_innermost_function_inside_impl() {
    // impl Bar { fn foo(); } — editing foo's body should return foo.
    let foo = sym("foo", (10, 20), 10, vec![]);
    let bar = sym("Bar", (5, 25), 5, vec![foo.clone()]);
    let symbols = vec![bar];

    let hits = pick_at_lines(&symbols, &[16]);
    assert_eq!(
        hits,
        vec![SymbolHit {
            name: "foo".into(),
            position: foo.selection_range.start,
        }]
    );
}

#[test]
fn falls_back_to_outer_when_no_child_matches() {
    let foo = sym("foo", (10, 20), 10, vec![]);
    let bar = sym("Bar", (5, 25), 5, vec![foo]);
    let symbols = vec![bar.clone()];

    // Line 7 is inside Bar but outside foo's range.
    let hits = pick_at_lines(&symbols, &[7]);
    assert_eq!(
        hits,
        vec![SymbolHit {
            name: "Bar".into(),
            position: bar.selection_range.start,
        }]
    );
}

#[test]
fn line_outside_all_returns_empty() {
    let foo = sym("foo", (10, 20), 10, vec![]);
    let symbols = vec![foo];
    assert!(pick_at_lines(&symbols, &[1]).is_empty());
}

#[test]
fn dedupes_when_multiple_lines_hit_same_symbol() {
    let foo = sym("foo", (10, 20), 10, vec![]);
    let symbols = vec![foo.clone()];
    let hits = pick_at_lines(&symbols, &[12, 15, 18]);
    assert_eq!(
        hits,
        vec![SymbolHit {
            name: "foo".into(),
            position: foo.selection_range.start,
        }]
    );
}

#[test]
fn multiple_top_level_symbols_each_hit() {
    let a = sym("a", (5, 10), 5, vec![]);
    let b = sym("b", (20, 30), 20, vec![]);
    let symbols = vec![a.clone(), b.clone()];
    let hits = pick_at_lines(&symbols, &[7, 25]);
    assert_eq!(
        hits,
        vec![
            SymbolHit {
                name: "a".into(),
                position: a.selection_range.start
            },
            SymbolHit {
                name: "b".into(),
                position: b.selection_range.start
            },
        ]
    );
}

#[test]
fn deeply_nested_innermost() {
    // mod m { impl S { fn f() { ... } } } — innermost match is f.
    let f = sym("f", (10, 14), 10, vec![]);
    let s = sym("S", (8, 16), 8, vec![f.clone()]);
    let m = sym("m", (5, 20), 5, vec![s]);
    let symbols = vec![m];

    let hits = pick_at_lines(&symbols, &[13]);
    assert_eq!(
        hits,
        vec![SymbolHit {
            name: "f".into(),
            position: f.selection_range.start
        }]
    );
}

#[test]
fn line_zero_counts_as_the_first_line() {
    let top = sym("top", (0, 2), 0, vec![]);
    let hits = pick_at_lines(&[top], &[0]);
    assert_eq!(hits.len(), 1);
    assert_eq!(hits[0].name, "top");
}

#[test]
fn every_innermost_symbol_of_a_line_is_hit_once() {
    // Two siblings on one line, and a third that shares its name position with the first.
    let a = sym("a", (3, 3), 3, vec![]);
    let b = DocumentSymbol {
        name: "b".to_string(),
        range: a.range,
        selection_range: Range {
            start: Position { line: 3, character: 20 },
            end: Position { line: 3, character: 21 },
        },
        children: vec![],
    };
    let c = sym("c", (3, 3), 3, vec![]);
    let names: Vec<String> = pick_at(&[a, b, c], 3).into_iter().map(|h| h.name).collect();
    assert_eq!(names, vec!["a", "b"]);
}

#[test]
fn a_child_outside_its_parent_is_not_looked_at() {
    let child = sym("child", (40, 50), 40, vec![]);
    let parent = sym("parent", (5, 10), 5, vec![child]);
    assert!(pick_at(&[parent], 45).is_empty());
}

#[test]
fn lines_put_together_are_picked_one_row_after_the_other() {
    let symbols = vec![
        sym("a", (0, 5), 0, vec![]),
        sym("b", (6, 9), 6, vec![]),
        sym("c", (10, 20), 10, vec![]),
    ];
    let name = |h: &SymbolHit| h.name.clone();
    let first: Vec<String> = pick_at_lines(&symbols, &[8, 2]).iter().map(name).collect();
    let second: Vec<String> = pick_at_lines(&symbols, &[3, 12, 7]).iter().map(name).collect();
    let both: Vec<String> = pick_at_lines(&symbols, &[8, 2, 3, 12, 7]).iter().map(name).collect();
    assert_eq!(first, ["b", "a"]);
    assert_eq!(second, ["a", "c", "b"]);
    assert_eq!(both, ["b", "a", "c"]);
}
