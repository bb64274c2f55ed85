//! The result of a search for affected tests.

use crate::cli::OutputFormat;
use crate::lines::{end_lines, ended, relative, relative_text};
use crate::matcher::{Affected, AffectedTest};
use crate::number::{decimal, push_decimal};
use crate::order::views;
use crate::path::{Part, PathBuf};
use crate::text::texts;
use vstd::prelude::*;

verus! {

/// What a search for affected tests found.
#[derive(Debug)]
pub struct Summary {
    pub pr: Option<u32>,
    pub base: String,
    pub head: String,
    /// In order.
    pub affected: Vec<AffectedTest>,
    pub total_tests: usize,
}

/// An affected test, ready to be serialized.
#[derive(Debug, PartialEq, Eq)]
pub struct SerializedAffectedTest {
    pub package: String,
    /// Path below the workspace.
    pub file: String,
    pub name: String,
    pub full_path: String,
    pub line: u32,
}

/// How many tests there are, and how many are affected.
#[derive(Debug, Clone, Copy, PartialEq, Eq, Structural)]
pub struct Stats {
    pub total_tests: usize,
    pub affected_tests: usize,
}

/// A summary, ready to be serialized.
#[derive(Debug, PartialEq, Eq)]
pub struct JsonSummary {
    pub pr: Option<u32>,
    pub base: String,
    pub head: String,
    pub affected_tests: Vec<SerializedAffectedTest>,
    pub stats: Stats,
}

/// A result in the requested form.
#[derive(Debug, PartialEq, Eq)]
pub enum Emitted {
    /// Text, ready to be printed.
    Text(String),
    /// An object to be serialized.
    Object(JsonSummary),
}

/// Whether a serialized test says what an affected test is.
pub open spec fn serializes(s: SerializedAffectedTest, a: Affected, workspace: Seq<Part>) -> bool {
    &&& s.package@ == a.package
    &&& s.file@ == relative_text(a.file, workspace)
    &&& s.name@ == a.name
    &&& s.full_path@ == a.full_path
    &&& s.line == a.line
}

/// Whether an object says what a summary holds.
pub open spec fn object_is(o: JsonSummary, s: Summary, workspace: Seq<Part>) -> bool {
    &&& o.pr == s.pr
    &&& o.base@ == s.base@
    &&& o.head@ == s.head@
    &&& o.affected_tests@.len() == s.affected@.len()
    &&& forall|i: int|
        0 <= i < s.affected@.len() ==> serializes(
            #[trigger] o.affected_tests@[i],
            s.affected@[i]@,
            workspace,
        )
    &&& o.stats.total_tests == s.total_tests
    &&& o.stats.affected_tests == s.affected@.len()
}

/// The line of an affected test.
pub open spec fn affected_line(a: Affected, workspace: Seq<Part>) -> Seq<char> {
    "  "@ + a.package + " :: "@ + a.name + " ("@ + relative_text(a.file, workspace) + ":"@ + decimal(
        a.line as nat,
    ) + ")"@
}

/// The lines of affected tests.
pub open spec fn affected_lines(v: Seq<Affected>, workspace: Seq<Part>) -> Seq<Seq<char>> {
    v.map_values(|a: Affected| affected_line(a, workspace))
}

/// The lines of a summary.
pub open spec fn summary_lines(s: Summary, workspace: Seq<Part>) -> Seq<Seq<char>> {
    if s.affected@.len() == 0 {
        seq!["Affected tests: none"@]
    } else {
        seq!["Affected tests: ("@ + decimal(s.affected@.len()) + " functions)"@] + affected_lines(
            views(s.affected@),
            workspace,
        )
    }
}

impl SerializedAffectedTest {
    /// An affected test, its file below the workspace.
    pub fn from(t: &AffectedTest, workspace: &PathBuf) -> (r: SerializedAffectedTest)
        ensures
            serializes(r, t@, workspace@),
    {
        SerializedAffectedTest {
            package: t.package.clone(),
            file: relative(&t.file, workspace),
            name: t.name.clone(),
            full_path: t.full_path.clone(),
            line: t.line,
        }
    }
}

impl Stats {
    /// The numbers of a summary.
    pub fn from(summary: &Summary) -> (r: Stats)
        ensures
            r.total_tests == summary.total_tests,
            r.affected_tests == summary.affected@.len(),
    {
        Stats { total_tests: summary.total_tests, affected_tests: summary.affected.len() }
    }
}

impl JsonSummary {
    /// A summary, ready to be serialized.
    pub fn from(summary: &Summary, workspace: &PathBuf) -> (r: JsonSummary)
        ensures
            object_is(r, *summary, workspace@),
    {
        let mut affected_tests: Vec<SerializedAffectedTest> = Vec::new();
        let mut i: usize = 0;
        while i < summary.affected.len()
            invariant
                i <= summary.affected@.len(),
                affected_tests@.len() == i,
                forall|k: int|
                    0 <= k < i ==> serializes(
                        #[trigger] affected_tests@[k],
                        summary.affected@[k]@,
                        workspace@,
                    ),
            decreases summary.affected.len() - i,
        {
            affected_tests.push(SerializedAffectedTest::from(&summary.affected[i], workspace));
            i = i + 1;
        }
        JsonSummary {
            pr: summary.pr,
            base: summary.base.clone(),
            head: summary.head.clone(),
            affected_tests,
            stats: Stats::from(summary),
        }
    }
}

/// The text of a summary.
pub fn summary_text(summary: &Summary, workspace: &PathBuf) -> (r: String)
    ensures
        r@ == ended(summary_lines(*summary, workspace@)),
{
    let mut rows: Vec<String> = Vec::new();
    if summary.affected.len() == 0 {
        rows.push("Affected tests: none".to_owned());
        assert(texts(rows@) =~= seq!["Affected tests: none"@]);
        return end_lines(&rows);
    }
    let mut top = "Affected tests: (".to_owned();
    push_decimal(&mut top, summary.affected.len() as u64);
    top.append(" functions)");
    let ghost head = top@;
    rows.push(top);
    let ghost all = affected_lines(views(summary.affected@), workspace@);
    let mut i: usize = 0;
    assert(texts(rows@) =~= seq![head] + all.take(0));
    while i < summary.affected.len()
        invariant
            i <= summary.affected@.len(),
            all == affected_lines(views(summary.affected@), workspace@),
            texts(rows@) == seq![head] + all.take(i as int),
        decreases summary.affected.len() - i,
    {
        let t = &summary.affected[i];
        let mut row = "  ".to_owned();
        row.append(t.package.as_str());
        row.append(" :: ");
        row.append(t.name.as_str());
        row.append(" (");
        row.append(relative(&t.file, workspace).as_str());
        row.append(":");
        push_decimal(&mut row, t.line as u64);
        row.append(")");
        let ghost had = rows@;
        rows.push(row);
        proof {
            assert(all[i as int] == affected_line(t@, workspace@));
            assert(row@ =~= all[i as int]);
            assert(texts(rows@) =~= texts(had).push(all[i as int]));
            assert(all.take(i + 1) =~= all.take(i as int).push(all[i as int]));
            assert(texts(rows@) =~= seq![head] + all.take(i + 1));
        }
        i = i + 1;
    }
    assert(all.take(i as int) =~= all);
    end_lines(&rows)
}

/// Puts a summary into the requested form.
pub fn emit(format: OutputFormat, summary: &Summary, workspace: &PathBuf) -> (r: Emitted)
    ensures
        match format {
            OutputFormat::Text => r matches Emitted::Text(t) && t@ == ended(
                summary_lines(*summary, workspace@),
            ),
            OutputFormat::Json => r matches Emitted::Object(o) && object_is(
                o,
                *summary,
                workspace@,
            ),
        },
{
    match format {
        OutputFormat::Text => Emitted::Text(summary_text(summary, workspace)),
        OutputFormat::Json => Emitted::Object(JsonSummary::from(summary, workspace)),
    }
}

/// The object of a summary holds every affected test, in order, with its package, name, full
/// path, line and file below the workspace, and counts them and all tests.
pub proof fn objects_hold_every_affected_test(o: JsonSummary, s: Summary, workspace: Seq<Part>)
    requires
        object_is(o, s, workspace),
    ensures
        o.pr == s.pr && o.base@ == s.base@ && o.head@ == s.head@,
        o.affected_tests@.len() == s.affected@.len(),
        o.stats.affected_tests == s.affected@.len(),
        o.stats.total_tests == s.total_tests,
        forall|i: int|
            0 <= i < s.affected@.len() ==> {
                let t = #[trigger] o.affected_tests@[i];
                let a = s.affected@[i];
                t.package@ == a.package@ && t.name@ == a.name@ && t.full_path@ == a.full_path@
                    && t.line == a.line && t.file@ == relative_text(a.file@, workspace)
            },
{
    assert forall|i: int| 0 <= i < s.affected@.len() implies {
        let t = #[trigger] o.affected_tests@[i];
        let a = s.affected@[i];
        t.package@ == a.package@ && t.name@ == a.name@ && t.full_path@ == a.full_path@ && t.line
            == a.line && t.file@ == relative_text(a.file@, workspace)
    } by {
        assert(serializes(o.affected_tests@[i], s.affected@[i]@, workspace));
    }
}

/// The text of a summary counts the affected tests and names each on a line of its own, in
/// order, and says so where there is none.
pub proof fn every_affected_test_is_named(s: Summary, workspace: Seq<Part>)
    ensures
        s.affected@.len() == 0 ==> summary_lines(s, workspace) == seq!["Affected tests: none"@],
        s.affected@.len() > 0 ==> summary_lines(s, workspace).len() == s.affected@.len() + 1
            && summary_lines(s, workspace)[0] == "Affected tests: ("@ + decimal(s.affected@.len())
            + " functions)"@ && forall|i: int|
            0 <= i < s.affected@.len() ==> #[trigger] summary_lines(s, workspace)[i + 1] == "  "@
                + s.affected@[i].package@ + " :: "@ + s.affected@[i].name@ + " ("@ + relative_text(
                s.affected@[i].file@,
                workspace,
            ) + ":"@ + decimal(s.affected@[i].line as nat) + ")"@,
{
    if s.affected@.len() > 0 {
        let all = summary_lines(s, workspace);
        let rows = affected_lines(views(s.affected@), workspace);
        assert forall|i: int| 0 <= i < s.affected@.len() implies #[trigger] all[i + 1] == "  "@
            + s.affected@[i].package@ + " :: "@ + s.affected@[i].name@ + " ("@ + relative_text(
            s.affected@[i].file@,
            workspace,
        ) + ":"@ + decimal(s.affected@[i].line as nat) + ")"@ by {
            assert(all[i + 1] == rows[i]);
            assert(views(s.affected@)[i] == s.affected@[i]@);
        }
    }
}

} // verus!
