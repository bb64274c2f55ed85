//! The result of a search for affected binaries.

use crate::cli::OutputFormat;
use crate::lines::{end_lines, ended, relative, relative_text};
use crate::path::{Part, PathBuf};
use crate::paths::paths_view;
use crate::session::Status;
use crate::text::texts;
use vstd::prelude::*;

verus! {

/// What a search for affected binaries found.
#[derive(Debug, PartialEq, Eq)]
pub struct Summary {
    pub schema_version: u32,
    pub pr: Option<u32>,
    pub base: String,
    pub head: String,
    pub status: Status,
    /// Paths below the workspace.
    pub affected: Vec<String>,
}

/// A result in the requested form.
#[derive(Debug, PartialEq, Eq)]
pub enum Emitted {
    /// Text, ready to be printed.
    Text(String),
    /// An object to be serialized.
    Object(Summary),
}

/// The texts of paths below a workspace.
pub open spec fn relative_texts(paths: Seq<Seq<Part>>, workspace: Seq<Part>) -> Seq<Seq<char>> {
    paths.map_values(|p: Seq<Part>| relative_text(p, workspace))
}

/// Sums up a run.
pub fn summarize(
    pr: Option<u32>,
    base: String,
    head: String,
    status: Status,
    affected: &Vec<PathBuf>,
    workspace: &PathBuf,
) -> (r: Summary)
    ensures
        r.schema_version == 1,
        r.pr == pr,
        r.base@ == base@,
        r.head@ == head@,
        r.status == status,
        texts(r.affected@) == relative_texts(paths_view(affected@), workspace@),
{
    let mut rel: Vec<String> = Vec::new();
    let mut i: usize = 0;
    while i < affected.len()
        invariant
            i <= affected@.len(),
            rel@.len() == i,
            forall|k: int|
                0 <= k < i ==> (#[trigger] rel@[k])@ == relative_text(affected@[k]@, workspace@),
        decreases affected.len() - i,
    {
        rel.push(relative(&affected[i], workspace));
        i = i + 1;
    }
    assert(texts(rel@) =~= relative_texts(paths_view(affected@), workspace@));
    Summary { schema_version: 1, pr, base, head, status, affected: rel }
}

/// Texts, each two columns in.
pub open spec fn indented(rows: Seq<Seq<char>>) -> Seq<Seq<char>> {
    rows.map_values(|r: Seq<char>| "  "@ + r)
}

/// The lines of a summary.
pub open spec fn summary_lines(s: Summary) -> Seq<Seq<char>> {
    match s.status {
        Status::NoRsChanges => seq![
            "(no .rs file changes between "@ + s.base@ + " and "@ + s.head@ + ")"@,
        ],
        Status::NoSymbolChanges => seq!["(no symbol-level changes found)"@],
        Status::Traced => if s.affected@.len() == 0 {
            seq!["Affected entrypoints: none"@]
        } else {
            seq!["Affected entrypoints:"@] + indented(texts(s.affected@))
        },
    }
}

/// The line that says that nothing changed.
pub fn no_changes_line(base: &str, head: &str) -> (r: String)
    ensures
        r@ == "(no .rs file changes between "@ + base@ + " and "@ + head@ + ")"@,
{
    let mut out = "(no .rs file changes between ".to_owned();
    out.append(base);
    out.append(" and ");
    out.append(head);
    out.append(")");
    out
}

/// The text of a summary.
pub fn summary_text(s: &Summary) -> (r: String)
    ensures
        r@ == ended(summary_lines(*s)),
{
    let mut rows: Vec<String> = Vec::new();
    match s.status {
        Status::NoRsChanges => {
            rows.push(no_changes_line(s.base.as_str(), s.head.as_str()));
        },
        Status::NoSymbolChanges => {
            rows.push("(no symbol-level changes found)".to_owned());
        },
        Status::Traced => {
            if s.affected.len() == 0 {
                rows.push("Affected entrypoints: none".to_owned());
            } else {
                rows.push("Affected entrypoints:".to_owned());
                let ghost all = indented(texts(s.affected@));
                let mut i: usize = 0;
                assert(texts(rows@) =~= seq!["Affected entrypoints:"@] + all.take(0));
                while i < s.affected.len()
                    invariant
                        i <= s.affected@.len(),
                        all == indented(texts(s.affected@)),
                        texts(rows@) == seq!["Affected entrypoints:"@] + all.take(i as int),
                    decreases s.affected.len() - i,
                {
                    let mut row = "  ".to_owned();
                    row.append(s.affected[i].as_str());
                    let ghost had = rows@;
                    rows.push(row);
                    proof {
                        assert(row@ == all[i as int]);
                        assert(texts(rows@) =~= texts(had).push(all[i as int]));
                        assert(all.take(i + 1) =~= all.take(i as int).push(all[i as int]));
                        assert(texts(rows@) =~= seq!["Affected entrypoints:"@] + all.take(i + 1));
                    }
                    i = i + 1;
                }
                assert(all.take(i as int) =~= all);
            }
        },
    }
    assert(texts(rows@) =~= summary_lines(*s));
    end_lines(&rows)
}

/// Puts a summary into the requested form.
pub fn emit(format: OutputFormat, summary: Summary) -> (r: Emitted)
    ensures
        match format {
            OutputFormat::Text => r matches Emitted::Text(t) && t@ == ended(summary_lines(summary)),
            OutputFormat::Json => r == Emitted::Object(summary),
        },
{
    match format {
        OutputFormat::Text => Emitted::Text(summary_text(&summary)),
        OutputFormat::Json => Emitted::Object(summary),
    }
}

/// The summary of a search names every affected entrypoint on a line of its own, in order, and
/// says so where there is none; without changes it says that, with both revisions.
pub proof fn every_affected_entrypoint_is_named(s: Summary)
    ensures
        s.status == Status::Traced && s.affected@.len() > 0 ==> summary_lines(s).len()
            == s.affected@.len() + 1 && forall|i: int|
            0 <= i < s.affected@.len() ==> #[trigger] summary_lines(s)[i + 1] == "  "@
                + s.affected@[i]@,
        s.status == Status::Traced && s.affected@.len() == 0 ==> summary_lines(s) == seq![
            "Affected entrypoints: none"@,
        ],
        s.status == Status::NoRsChanges ==> summary_lines(s) == seq![
            "(no .rs file changes between "@ + s.base@ + " and "@ + s.head@ + ")"@,
        ],
        s.status == Status::NoSymbolChanges ==> summary_lines(s) == seq![
            "(no symbol-level changes found)"@,
        ],
{
    if s.status == Status::Traced && s.affected@.len() > 0 {
        let all = summary_lines(s);
        let rows = indented(texts(s.affected@));
        assert forall|i: int| 0 <= i < s.affected@.len() implies #[trigger] all[i + 1] == "  "@
            + s.affected@[i]@ by {
            assert(all[i + 1] == rows[i]);
        }
    }
}

/// Every affected file is summed up by its path below the workspace, in order.
pub proof fn every_affected_file_is_summed_up(
    paths: Seq<Seq<Part>>,
    workspace: Seq<Part>,
    i: int,
)
    requires
        0 <= i < paths.len(),
    ensures
        relative_texts(paths, workspace).len() == paths.len(),
        relative_texts(paths, workspace)[i] == relative_text(paths[i], workspace),
{
}

} // verus!
