//! Texts for the inspection of single stages.

use crate::bins::no_changes_line;
use crate::diff::ChangedFile;
use crate::lines::{bracketed, end_lines, ended, push_list, relative, relative_text};
use crate::number::{decimal, push_decimal};
use crate::path::{spellings, Part, PathBuf};
use crate::symbols::SymbolHit;
use crate::test_goals::{Goal, TestAttr, TestFn};
use crate::text::texts;
use crate::types::{Position, Range};
use vstd::prelude::*;

verus! {

// ---------------------------------------------------------------------------------------
// Changes, entrypoints, tests
// ---------------------------------------------------------------------------------------
/// The lines on changed files.
pub open spec fn diff_lines(base: Seq<char>, head: Seq<char>, changes: Seq<ChangedFile>) -> Seq<
    Seq<char>,
> {
    if changes.len() == 0 {
        seq!["(no .rs file changes between "@ + base + " and "@ + head + ")"@]
    } else {
        changes.map_values(|f: ChangedFile| f.path.spelling() + ": "@ + bracketed(f.lines@))
    }
}

/// The text on changed files.
pub fn diff_text(base: &str, head: &str, changes: &Vec<ChangedFile>) -> (r: String)
    ensures
        r@ == ended(diff_lines(base@, head@, changes@)),
{
    let mut rows: Vec<String> = Vec::new();
    let ghost all = diff_lines(base@, head@, changes@);
    if changes.len() == 0 {
        rows.push(no_changes_line(base, head));
        assert(texts(rows@) =~= all);
        return end_lines(&rows);
    }
    let mut i: usize = 0;
    assert(texts(rows@) =~= all.take(0));
    while i < changes.len()
        invariant
            i <= changes@.len() == all.len(),
            changes@.len() > 0,
            all == diff_lines(base@, head@, changes@),
            texts(rows@) == all.take(i as int),
        decreases changes.len() - i,
    {
        let mut row = changes[i].path.display();
        row.append(": ");
        push_list(&mut row, &changes[i].lines);
        let ghost had = rows@;
        rows.push(row);
        proof {
            assert(row@ == all[i as int]);
            assert(texts(rows@) =~= texts(had).push(all[i as int]));
            assert(all.take(i + 1) =~= all.take(i as int).push(all[i as int]));
        }
        i = i + 1;
    }
    assert(all.take(i as int) =~= all);
    end_lines(&rows)
}

/// The lines on binary entrypoints.
pub open spec fn entrypoint_lines(workspace: Seq<char>, bins: Seq<Seq<char>>) -> Seq<Seq<char>> {
    if bins.len() == 0 {
        seq!["(no binary entrypoints in "@ + workspace + ")"@]
    } else {
        bins
    }
}

/// The text on binary entrypoints.
pub fn entrypoint_text(workspace: &PathBuf, bins: &Vec<PathBuf>) -> (r: String)
    ensures
        r@ == ended(entrypoint_lines(workspace.spelling(), spellings(bins@))),
{
    let mut rows: Vec<String> = Vec::new();
    let ghost all = entrypoint_lines(workspace.spelling(), spellings(bins@));
    if bins.len() == 0 {
        let mut row = "(no binary entrypoints in ".to_owned();
        row.append(workspace.display().as_str());
        row.append(")");
        rows.push(row);
        assert(texts(rows@) =~= all);
        return end_lines(&rows);
    }
    let mut i: usize = 0;
    assert(texts(rows@) =~= all.take(0));
    while i < bins.len()
        invariant
            i <= bins@.len() == all.len(),
            bins@.len() > 0,
            all == entrypoint_lines(workspace.spelling(), spellings(bins@)),
            texts(rows@) == all.take(i as int),
        decreases bins.len() - i,
    {
        let row = bins[i].display();
        let ghost had = rows@;
        rows.push(row);
        proof {
            assert(row@ == all[i as int]);
            assert(texts(rows@) =~= texts(had).push(all[i as int]));
            assert(all.take(i + 1) =~= all.take(i as int).push(all[i as int]));
        }
        i = i + 1;
    }
    assert(all.take(i as int) =~= all);
    end_lines(&rows)
}

/// The name of a test attribute.
pub open spec fn attr_name(attr: TestAttr) -> Seq<char> {
    match attr {
        TestAttr::Test => "Test"@,
        TestAttr::TokioTest => "TokioTest"@,
        TestAttr::AsyncStdTest => "AsyncStdTest"@,
        TestAttr::Rstest => "Rstest"@,
        TestAttr::TestCase => "TestCase"@,
    }
}

/// The line on a test function.
pub open spec fn goal_line(t: Goal, workspace: Seq<Part>) -> Seq<char> {
    relative_text(t.file, workspace) + "\t"@ + t.name + "\t"@ + attr_name(t.attr) + "\t"@ + decimal(
        t.body_range.0 as nat,
    ) + ":"@ + decimal(t.body_range.1 as nat)
}

/// The line on a test function.
pub fn test_line(t: &TestFn, workspace: &PathBuf) -> (r: String)
    ensures
        r@ == goal_line(t@, workspace@),
{
    let mut row = relative(&t.file, workspace);
    row.append("\t");
    row.append(t.name.as_str());
    row.append("\t");
    let attr = match t.attr {
        TestAttr::Test => "Test",
        TestAttr::TokioTest => "TokioTest",
        TestAttr::AsyncStdTest => "AsyncStdTest",
        TestAttr::Rstest => "Rstest",
        TestAttr::TestCase => "TestCase",
    };
    row.append(attr);
    row.append("\t");
    push_decimal(&mut row, t.body_range.0 as u64);
    row.append(":");
    push_decimal(&mut row, t.body_range.1 as u64);
    row
}

// ---------------------------------------------------------------------------------------
// Symbols
// ---------------------------------------------------------------------------------------
/// The line on a symbol that a line hits.
pub open spec fn hit_line(h: SymbolHit) -> Seq<char> {
    "hit: "@ + h.name@ + " @ ("@ + decimal(h.position.line as nat) + ", "@ + decimal(
        h.position.character as nat,
    ) + ")"@
}

/// The lines on the symbols that a 1-based line hits.
pub open spec fn hit_lines(line1: u32, hits: Seq<SymbolHit>) -> Seq<Seq<char>> {
    if hits.len() == 0 {
        seq!["no symbol hits line "@ + decimal(line1 as nat)]
    } else {
        hits.map_values(|h: SymbolHit| hit_line(h))
    }
}

/// The text on the symbols that a 1-based line hits.
pub fn hit_text(line1: u32, hits: &Vec<SymbolHit>) -> (r: String)
    ensures
        r@ == ended(hit_lines(line1, hits@)),
{
    let mut rows: Vec<String> = Vec::new();
    let ghost all = hit_lines(line1, hits@);
    if hits.len() == 0 {
        let mut row = "no symbol hits line ".to_owned();
        push_decimal(&mut row, line1 as u64);
        rows.push(row);
        assert(texts(rows@) =~= all);
        return end_lines(&rows);
    }
    let mut i: usize = 0;
    assert(texts(rows@) =~= all.take(0));
    while i < hits.len()
        invariant
            i <= hits@.len() == all.len(),
            hits@.len() > 0,
            all == hit_lines(line1, hits@),
            texts(rows@) == all.take(i as int),
        decreases hits.len() - i,
    {
        let h = &hits[i];
        let mut row = "hit: ".to_owned();
        row.append(h.name.as_str());
        row.append(" @ (");
        push_decimal(&mut row, h.position.line as u64);
        row.append(", ");
        push_decimal(&mut row, h.position.character as u64);
        row.append(")");
        let ghost had = rows@;
        rows.push(row);
        proof {
            assert(row@ =~= all[i as int]);
            assert(texts(rows@) =~= texts(had).push(all[i as int]));
            assert(all.take(i + 1) =~= all.take(i as int).push(all[i as int]));
        }
        i = i + 1;
    }
    assert(all.take(i as int) =~= all);
    end_lines(&rows)
}

/// A symbol with its kind, for printing.
#[derive(Debug)]
pub struct OutlineSymbol {
    pub name: String,
    pub kind: String,
    pub range: Range,
    pub selection_range: Range,
    pub children: Vec<OutlineSymbol>,
}

/// A position as a pair.
pub open spec fn pair(p: Position) -> Seq<char> {
    "("@ + decimal(p.line as nat) + ","@ + decimal(p.character as nat) + ")"@
}

fn push_pair(out: &mut String, p: Position)
    ensures
        final(out)@ == old(out)@ + pair(p),
{
    let ghost start = out@;
    out.append("(");
    push_decimal(out, p.line as u64);
    out.append(",");
    push_decimal(out, p.character as u64);
    out.append(")");
    assert(out@ =~= start + pair(p));
}

/// The line on a symbol.
pub open spec fn outline_line(s: OutlineSymbol, indent: Seq<char>) -> Seq<char> {
    indent + "- "@ + s.name@ + " ("@ + s.kind@ + ") range="@ + pair(s.range.start) + ".."@ + pair(
        s.range.end,
    ) + " sel="@ + pair(s.selection_range.start)
}

/// The lines on symbols, those inside a symbol below it and further in.
pub open spec fn outline_lines(symbols: Seq<OutlineSymbol>, indent: Seq<char>) -> Seq<Seq<char>>
    decreases symbols,
{
    if symbols.len() == 0 {
        Seq::empty()
    } else {
        seq![outline_line(symbols[0], indent)] + outline_lines(
            symbols[0].children@,
            indent + "  "@,
        ) + outline_lines(symbols.drop_first(), indent)
    }
}

/// Adds the lines on symbols to a row of lines.
fn push_outline(rows: &mut Vec<String>, symbols: &Vec<OutlineSymbol>, indent: &str)
    ensures
        texts(final(rows)@) == texts(old(rows)@) + outline_lines(symbols@, indent@),
    decreases symbols,
{
    let ghost start = texts(rows@);
    let ghost whole = outline_lines(symbols@, indent@);
    let mut i: usize = 0;
    assert(symbols@.skip(0) =~= symbols@);
    assert(start + whole =~= texts(rows@) + outline_lines(symbols@.skip(0), indent@));
    while i < symbols.len()
        invariant
            i <= symbols@.len(),
            start + whole == texts(rows@) + outline_lines(symbols@.skip(i as int), indent@),
        decreases symbols.len() - i,
    {
        let s = &symbols[i];
        let ghost rest = symbols@.skip(i as int);
        let ghost before = texts(rows@);
        let mut row = indent.to_owned();
        row.append("- ");
        row.append(s.name.as_str());
        row.append(" (");
        row.append(s.kind.as_str());
        row.append(") range=");
        push_pair(&mut row, s.range.start);
        row.append("..");
        push_pair(&mut row, s.range.end);
        row.append(" sel=");
        push_pair(&mut row, s.selection_range.start);
        let ghost line = row@;
        let ghost had = rows@;
        rows.push(row);
        assert(texts(rows@) =~= texts(had).push(line));
        let mut deeper = indent.to_owned();
        deeper.append("  ");
        proof {
            assert(rest[0] == *s);
            assert(rest.drop_first() =~= symbols@.skip(i + 1));
            assert(line =~= outline_line(*s, indent@));
            assert(decreases_to!(symbols => symbols@[i as int]));
        }
        push_outline(rows, &s.children, deeper.as_str());
        proof {
            assert(texts(rows@) + outline_lines(rest.drop_first(), indent@) =~= before
                + outline_lines(rest, indent@));
        }
        i = i + 1;
    }
    proof {
        assert(outline_lines(symbols@.skip(i as int), indent@) =~= Seq::<Seq<char>>::empty());
        assert(texts(rows@) =~= start + whole);
    }
}

/// The text on the symbols of a file.
pub fn outline_text(symbols: &Vec<OutlineSymbol>) -> (r: String)
    ensures
        r@ == ended(seq!["documentSymbol tree:"@] + outline_lines(symbols@, ""@)),
{
    let mut rows: Vec<String> = Vec::new();
    rows.push("documentSymbol tree:".to_owned());
    assert(texts(rows@) =~= seq!["documentSymbol tree:"@]);
    push_outline(&mut rows, symbols, "");
    end_lines(&rows)
}

// ---------------------------------------------------------------------------------------
// References
// ---------------------------------------------------------------------------------------
/// A place behind the text of its file.
pub open spec fn place(file: Seq<char>, p: Position) -> Seq<char> {
    file + ":"@ + decimal(p.line as nat) + ":"@ + decimal(p.character as nat)
}

fn push_place(out: &mut String, file: &str, p: Position)
    ensures
        final(out)@ == old(out)@ + place(file@, p),
{
    let ghost start = out@;
    out.append(file);
    out.append(":");
    push_decimal(out, p.line as u64);
    out.append(":");
    push_decimal(out, p.character as u64);
    assert(out@ =~= start + place(file@, p));
}

/// The lines on the references to a place.
pub open spec fn reference_lines(
    file: Seq<char>,
    at: Position,
    refs: Seq<(String, Position)>,
) -> Seq<Seq<char>> {
    if refs.len() == 0 {
        seq!["(no references found at "@ + place(file, at) + ")"@]
    } else {
        seq!["references ("@ + decimal(refs.len()) + " hits):"@] + refs.map_values(
            |r: (String, Position)| "  "@ + place(r.0@, r.1),
        )
    }
}

/// The text on the references to a place. Each reference is given by the text of its file
/// and its position.
pub fn reference_text(file: &str, at: Position, refs: &Vec<(String, Position)>) -> (r: String)
    ensures
        r@ == ended(reference_lines(file@, at, refs@)),
{
    let mut rows: Vec<String> = Vec::new();
    let ghost all = reference_lines(file@, at, refs@);
    if refs.len() == 0 {
        let mut row = "(no references found at ".to_owned();
        push_place(&mut row, file, at);
        row.append(")");
        rows.push(row);
        assert(texts(rows@) =~= all);
        return end_lines(&rows);
    }
    let mut top = "references (".to_owned();
    push_decimal(&mut top, refs.len() as u64);
    top.append(" hits):");
    rows.push(top);
    let mut i: usize = 0;
    assert(texts(rows@) =~= all.take(1));
    while i < refs.len()
        invariant
            i <= refs@.len(),
            refs@.len() > 0,
            all == reference_lines(file@, at, refs@),
            all.len() == refs@.len() + 1,
            texts(rows@) == all.take(i + 1),
        decreases refs.len() - i,
    {
        let mut row = "  ".to_owned();
        push_place(&mut row, refs[i].0.as_str(), refs[i].1);
        let ghost had = rows@;
        rows.push(row);
        proof {
            assert(row@ == all[i + 1]);
            assert(texts(rows@) =~= texts(had).push(all[i + 1]));
            assert(all.take(i + 2) =~= all.take(i + 1).push(all[i + 1]));
        }
        i = i + 1;
    }
    assert(all.take(i + 1) =~= all);
    end_lines(&rows)
}

// ---------------------------------------------------------------------------------------
// Starts
// ---------------------------------------------------------------------------------------
/// The line on a symbol that a search starts from.
pub open spec fn start_line(rel: Seq<char>, h: SymbolHit) -> Seq<char> {
    rel + "\t"@ + h.name@ + "\t"@ + pair(h.position)
}

/// The lines on the symbols of a file that a search starts from.
pub open spec fn start_lines(rel: Seq<char>, lines: Seq<u32>, hits: Seq<SymbolHit>) -> Seq<
    Seq<char>,
> {
    if hits.len() == 0 {
        seq![rel + "\t(no enclosing symbol for lines "@ + bracketed(lines) + ")"@]
    } else {
        hits.map_values(|h: SymbolHit| start_line(rel, h))
    }
}

/// The text on the symbols of a file that a search starts from.
pub fn start_text(
    file: &PathBuf,
    workspace: &PathBuf,
    lines: &Vec<u32>,
    hits: &Vec<SymbolHit>,
) -> (r: String)
    ensures
        r@ == ended(start_lines(relative_text(file@, workspace@), lines@, hits@)),
{
    let rel = relative(file, workspace);
    let mut rows: Vec<String> = Vec::new();
    let ghost all = start_lines(rel@, lines@, hits@);
    if hits.len() == 0 {
        let mut row = rel;
        row.append("\t(no enclosing symbol for lines ");
        push_list(&mut row, lines);
        row.append(")");
        rows.push(row);
        assert(texts(rows@) =~= all);
        return end_lines(&rows);
    }
    let mut i: usize = 0;
    assert(texts(rows@) =~= all.take(0));
    while i < hits.len()
        invariant
            i <= hits@.len() == all.len(),
            hits@.len() > 0,
            all == start_lines(rel@, lines@, hits@),
            texts(rows@) == all.take(i as int),
        decreases hits.len() - i,
    {
        let h = &hits[i];
        let mut row = rel.clone();
        row.append("\t");
        row.append(h.name.as_str());
        row.append("\t");
        push_pair(&mut row, h.position);
        let ghost had = rows@;
        rows.push(row);
        proof {
            assert(row@ == all[i as int]);
            assert(texts(rows@) =~= texts(had).push(all[i as int]));
            assert(all.take(i + 1) =~= all.take(i as int).push(all[i as int]));
        }
        i = i + 1;
    }
    assert(all.take(i as int) =~= all);
    end_lines(&rows)
}

/// Changed files are told one by one, each with all of its lines; without any, both revisions
/// are named.
pub proof fn every_changed_file_is_told(
    base: Seq<char>,
    head: Seq<char>,
    changes: Seq<ChangedFile>,
    i: int,
)
    ensures
        changes.len() > 0 ==> diff_lines(base, head, changes).len() == changes.len(),
        0 <= i < changes.len() ==> diff_lines(base, head, changes)[i] == changes[i].path.spelling()
            + ": "@ + bracketed(changes[i].lines@),
        changes.len() == 0 ==> diff_lines(base, head, changes) == seq![
            "(no .rs file changes between "@ + base + " and "@ + head + ")"@,
        ],
{
}

/// Entrypoints are told one by one, as they are spelled; without any, the workspace is named.
pub proof fn every_entrypoint_is_told(workspace: Seq<char>, bins: Seq<PathBuf>, i: int)
    ensures
        bins.len() > 0 ==> entrypoint_lines(workspace, spellings(bins)).len() == bins.len(),
        0 <= i < bins.len() ==> entrypoint_lines(workspace, spellings(bins))[i]
            == bins[i].spelling(),
        bins.len() == 0 ==> entrypoint_lines(workspace, spellings(bins)) == seq![
            "(no binary entrypoints in "@ + workspace + ")"@,
        ],
{
}

/// Hits are told one by one with their names and places, counted from zero; without any, the
/// line is named.
pub proof fn every_hit_is_told(line1: u32, hits: Seq<SymbolHit>, i: int)
    ensures
        hits.len() > 0 ==> hit_lines(line1, hits).len() == hits.len(),
        0 <= i < hits.len() ==> hit_lines(line1, hits)[i] == "hit: "@ + hits[i].name@ + " @ ("@
            + decimal(hits[i].position.line as nat) + ", "@ + decimal(
            hits[i].position.character as nat,
        ) + ")"@,
        hits.len() == 0 ==> hit_lines(line1, hits) == seq![
            "no symbol hits line "@ + decimal(line1 as nat),
        ],
{
}

/// References are counted and told one by one; without any, the place is named.
pub proof fn every_reference_is_told(
    file: Seq<char>,
    at: Position,
    refs: Seq<(String, Position)>,
    i: int,
)
    ensures
        refs.len() > 0 ==> reference_lines(file, at, refs).len() == refs.len() + 1
            && reference_lines(file, at, refs)[0] == "references ("@ + decimal(refs.len())
            + " hits):"@,
        0 <= i < refs.len() ==> reference_lines(file, at, refs)[i + 1] == "  "@ + (refs[i].0@
            + ":"@ + decimal(refs[i].1.line as nat) + ":"@ + decimal(
            refs[i].1.character as nat,
        )),
        refs.len() == 0 ==> reference_lines(file, at, refs) == seq![
            "(no references found at "@ + (file + ":"@ + decimal(at.line as nat) + ":"@ + decimal(
                at.character as nat,
            )) + ")"@,
        ],
{
    let rows = refs.map_values(|r: (String, Position)| "  "@ + place(r.0@, r.1));
    if 0 <= i < refs.len() {
        assert(reference_lines(file, at, refs)[i + 1] == rows[i]);
    }
}

/// The places that a search starts from are told one by one; without any, the lines are named.
pub proof fn every_start_is_told(rel: Seq<char>, lines: Seq<u32>, hits: Seq<SymbolHit>, i: int)
    ensures
        hits.len() > 0 ==> start_lines(rel, lines, hits).len() == hits.len(),
        0 <= i < hits.len() ==> start_lines(rel, lines, hits)[i] == rel + "\t"@ + hits[i].name@
            + "\t"@ + ("("@ + decimal(hits[i].position.line as nat) + ","@ + decimal(
            hits[i].position.character as nat,
        ) + ")"@),
        hits.len() == 0 ==> start_lines(rel, lines, hits) == seq![
            rel + "\t(no enclosing symbol for lines "@ + bracketed(lines) + ")"@,
        ],
{
}

/// An outline tells of every symbol, then of those in it, further in, and then of those behind
/// it.
pub proof fn every_symbol_is_outlined(
    a: Seq<OutlineSymbol>,
    b: Seq<OutlineSymbol>,
    s: OutlineSymbol,
    indent: Seq<char>,
)
    ensures
        outline_lines(a + b, indent) == outline_lines(a, indent) + outline_lines(b, indent),
        outline_lines(seq![s], indent) == seq![outline_line(s, indent)] + outline_lines(
            s.children@,
            indent + "  "@,
        ),
        outline_line(s, indent) == indent + "- "@ + s.name@ + " ("@ + s.kind@ + ") range="@ + pair(
            s.range.start,
        ) + ".."@ + pair(s.range.end) + " sel="@ + pair(s.selection_range.start),
    decreases a.len(),
{
    let row = seq![s];
    assert(row.drop_first() =~= Seq::<OutlineSymbol>::empty());
    assert(outline_lines(row.drop_first(), indent) =~= Seq::<Seq<char>>::empty());
    assert(row[0] == s);
    assert(outline_lines(row, indent) =~= seq![outline_line(s, indent)] + outline_lines(
        s.children@,
        indent + "  "@,
    ));
    if a.len() == 0 {
        assert(a + b =~= b);
        assert(outline_lines(a, indent) + outline_lines(b, indent) =~= outline_lines(b, indent));
    } else {
        assert((a + b).drop_first() =~= a.drop_first() + b);
        assert((a + b)[0] == a[0]);
        every_symbol_is_outlined(a.drop_first(), b, s, indent);
        assert(outline_lines(a + b, indent) =~= outline_lines(a, indent) + outline_lines(
            b,
            indent,
        ));
    }
}

/// A test is told with its file, name, attribute and lines.
pub proof fn tests_are_told_with_their_lines(t: Goal, workspace: Seq<Part>)
    ensures
        goal_line(t, workspace) == relative_text(t.file, workspace) + "\t"@ + t.name + "\t"@ + (
        match t.attr {
            TestAttr::Test => "Test"@,
            TestAttr::TokioTest => "TokioTest"@,
            TestAttr::AsyncStdTest => "AsyncStdTest"@,
            TestAttr::Rstest => "Rstest"@,
            TestAttr::TestCase => "TestCase"@,
        }) + "\t"@ + decimal(t.body_range.0 as nat) + ":"@ + decimal(t.body_range.1 as nat),
{
}

} // verus!
