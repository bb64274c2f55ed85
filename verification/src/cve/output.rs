//! Reports on vulnerable symbols, as text and as an object to be serialized.

use crate::bins::relative_texts;
use crate::cve::input::{
    copy_id, id_view, unsupporteds, vulns, InputResult, Unsupported, UnsupportedAdvisory,
    UnsupportedReason, Vuln, VulnSymbol,
};
use crate::cve::probe::{
    Reason, ResolveResult, Resolved, ResolvedSeed, Unresolved, UnresolvedReason, UnresolvedSeed,
};
use crate::cve::runner::{bins_view, Reachability, RunResult, SeedReach, SeedReachability};
use crate::cve::version::{req_text, reqs_view};
use crate::lines::{end_lines, ended, relative, relative_text};
use crate::number::{decimal, push_decimal};
use crate::order::views;
use crate::path::{Part, PathBuf};
use crate::paths::paths_view;
use crate::text::{join, joined, texts};
use crate::types::Position;
use vstd::prelude::*;

verus! {

/// The version of the form of the object.
pub const SCHEMA_VERSION: u32 = 1;

/// The form of a report.
#[derive(Debug, Clone, Copy, PartialEq, Eq, Structural)]
pub enum Format {
    Text,
    Json,
}

// ---------------------------------------------------------------------------------------
// Words
// ---------------------------------------------------------------------------------------
/// What stands for the advisory of a symbol.
pub open spec fn id_word(id: Option<Seq<char>>) -> Seq<char> {
    match id {
        Some(t) => t,
        None => "(direct)"@,
    }
}

/// What stands for the advisory of a symbol.
fn shown_id(id: &Option<String>) -> (r: String)
    ensures
        r@ == id_word(id_view(*id)),
{
    match id {
        Some(t) => t.clone(),
        None => "(direct)".to_owned(),
    }
}

/// Why the place of a symbol is not known, in words.
pub open spec fn reason_text(reason: Reason) -> Seq<char> {
    match reason {
        Reason::NoDependency => "no_dependency"@,
        Reason::NotAffectedVersion(v) => "not_affected_version (in use: "@ + v + ")"@,
        Reason::ProbeFailed(m) => "probe_failed: "@ + m,
    }
}

/// Why the place of a symbol is not known, in words.
pub fn describe_unresolved(reason: &UnresolvedReason) -> (r: String)
    ensures
        r@ == reason_text(reason@),
{
    match reason {
        UnresolvedReason::NoDependency => "no_dependency".to_owned(),
        UnresolvedReason::NotAffectedVersion(v) => {
            let mut out = "not_affected_version (in use: ".to_owned();
            out.append(v.as_str());
            out.append(")");
            out
        },
        UnresolvedReason::ProbeFailed(m) => {
            let mut out = "probe_failed: ".to_owned();
            out.append(m.as_str());
            out
        },
    }
}

/// How a binary reaches a symbol, in a word.
pub open spec fn reach_word(r: Reachability) -> Seq<char> {
    match r {
        Reachability::Production => "production"@,
        Reachability::TestsOnly => "tests_only"@,
        Reachability::NotReachable => "not_reachable"@,
    }
}

/// How a binary reaches a symbol, in a word.
pub fn reachability_str(r: Reachability) -> (s: String)
    ensures
        s@ == reach_word(r),
{
    match r {
        Reachability::Production => "production".to_owned(),
        Reachability::TestsOnly => "tests_only".to_owned(),
        Reachability::NotReachable => "not_reachable".to_owned(),
    }
}

/// A place in a file, lines and columns counted from one.
pub open spec fn place_text(file: Seq<char>, position: Position) -> Seq<char> {
    file + ":"@ + decimal((position.line + 1) as nat) + ":"@ + decimal(
        (position.character + 1) as nat,
    )
}

/// Puts a place in a file behind a text.
fn push_place(out: &mut String, file: &PathBuf, position: Position)
    ensures
        final(out)@ == old(out)@ + place_text(file.spelling(), position),
{
    let ghost start = out@;
    out.append(file.display().as_str());
    out.append(":");
    push_decimal(out, position.line as u64 + 1);
    out.append(":");
    push_decimal(out, position.character as u64 + 1);
    assert(out@ =~= start + place_text(file.spelling(), position));
}

// ---------------------------------------------------------------------------------------
// Sections
// ---------------------------------------------------------------------------------------
/// How a binary reaches a symbol. One that is not listed does not.
pub open spec fn reach_in(bins: Seq<(Seq<Part>, Reachability)>, bin: Seq<Part>) -> Reachability
    decreases bins.len(),
{
    if bins.len() == 0 {
        Reachability::NotReachable
    } else if bins[0].0 == bin {
        bins[0].1
    } else {
        reach_in(bins.drop_first(), bin)
    }
}

/// How a binary reaches a symbol.
fn look_up(bins: &Vec<(PathBuf, Reachability)>, bin: &PathBuf) -> (r: Reachability)
    ensures
        r == reach_in(bins_view(bins@), bin@),
{
    let ghost all = bins_view(bins@);
    let mut i: usize = 0;
    assert(all.skip(0) =~= all);
    while i < bins.len()
        invariant
            i <= bins@.len(),
            all == bins_view(bins@),
            reach_in(all, bin@) == reach_in(all.skip(i as int), bin@),
        decreases bins.len() - i,
    {
        proof {
            assert(all.skip(i as int)[0] == (bins@[i as int].0@, bins@[i as int].1));
            assert(all.skip(i as int).drop_first() =~= all.skip(i + 1));
        }
        if bins[i].0.same(bin) {
            return bins[i].1;
        }
        i = i + 1;
    }
    Reachability::NotReachable
}

/// The binaries that reach a symbol in the given way, in order.
pub open spec fn with_reach(
    all_bins: Seq<Seq<Part>>,
    bins: Seq<(Seq<Part>, Reachability)>,
    r: Reachability,
) -> Seq<Seq<Part>>
    decreases all_bins.len(),
{
    if all_bins.len() == 0 {
        Seq::empty()
    } else if reach_in(bins, all_bins.last()) == r {
        with_reach(all_bins.drop_last(), bins, r).push(all_bins.last())
    } else {
        with_reach(all_bins.drop_last(), bins, r)
    }
}

/// The lines of a section.
pub open spec fn section_rows(label: Seq<char>, names: Seq<Seq<char>>) -> Seq<Seq<char>> {
    seq!["  "@ + label] + if names.len() == 0 {
        seq!["    (none)"@]
    } else {
        names.map_values(|n: Seq<char>| "    "@ + n)
    }
}

/// The lines of the section of the binaries that reach a symbol in the given way.
pub open spec fn reach_rows(
    label: Seq<char>,
    all_bins: Seq<Seq<Part>>,
    bins: Seq<(Seq<Part>, Reachability)>,
    r: Reachability,
    workspace: Seq<Part>,
) -> Seq<Seq<char>> {
    section_rows(label, relative_texts(with_reach(all_bins, bins, r), workspace))
}

/// Adds the section of the binaries that reach a symbol in the given way.
fn emit_section(
    rows: &mut Vec<String>,
    label: &str,
    all_bins: &Vec<PathBuf>,
    bins: &Vec<(PathBuf, Reachability)>,
    r: Reachability,
    workspace: &PathBuf,
)
    ensures
        texts(final(rows)@) == texts(old(rows)@) + reach_rows(
            label@,
            paths_view(all_bins@),
            bins_view(bins@),
            r,
            workspace@,
        ),
{
    let ghost start = texts(rows@);
    let ghost all = paths_view(all_bins@);
    let ghost shown = |n: int|
        relative_texts(with_reach(all.take(n), bins_view(bins@), r), workspace@).map_values(
            |n: Seq<char>| "    "@ + n,
        );
    let mut head = "  ".to_owned();
    head.append(label);
    let ghost first = seq!["  "@ + label@];
    rows.push(head);
    let mut any = false;
    let mut i: usize = 0;
    proof {
        assert(all.take(0) =~= Seq::<Seq<Part>>::empty());
        assert(shown(0) =~= Seq::<Seq<char>>::empty());
        assert(texts(rows@) =~= start + first + shown(0));
    }
    while i < all_bins.len()
        invariant
            i <= all_bins@.len(),
            all == paths_view(all_bins@),
            shown == (|n: int|
                relative_texts(with_reach(all.take(n), bins_view(bins@), r), workspace@).map_values(
                    |n: Seq<char>| "    "@ + n,
                )),
            texts(rows@) == start + first + shown(i as int),
            any == (with_reach(all.take(i as int), bins_view(bins@), r).len() > 0),
        decreases all_bins.len() - i,
    {
        proof {
            assert(all.take(i + 1).drop_last() =~= all.take(i as int));
            assert(all.take(i + 1).last() == all_bins@[i as int]@);
        }
        if look_up(bins, &all_bins[i]) == r {
            let mut row = "    ".to_owned();
            let rel = relative(&all_bins[i], workspace);
            row.append(rel.as_str());
            let ghost had = rows@;
            let ghost x = row@;
            rows.push(row);
            any = true;
            proof {
                assert(texts(rows@) =~= texts(had).push(x));
                assert(shown(i + 1) =~= shown(i as int).push(x));
                assert(texts(rows@) =~= start + first + shown(i + 1));
            }
        }
        i = i + 1;
    }
    assert(all.take(i as int) =~= all);
    if !any {
        let ghost had = rows@;
        rows.push("    (none)".to_owned());
        proof {
            assert(shown(i as int) =~= Seq::<Seq<char>>::empty());
            assert(texts(rows@) =~= texts(had).push("    (none)"@));
            assert(texts(rows@) =~= start + (first + seq!["    (none)"@]));
        }
    } else {
        proof {
            assert(texts(rows@) =~= start + (first + shown(i as int)));
        }
    }
}

// ---------------------------------------------------------------------------------------
// The text
// ---------------------------------------------------------------------------------------
/// The lines on a symbol.
pub open spec fn seed_rows(sr: SeedReach, all_bins: Seq<Seq<Part>>, workspace: Seq<Part>) -> Seq<
    Seq<char>,
> {
    seq![
        ""@,
        id_word(sr.seed.symbol.advisory_id) + "  "@ + sr.seed.symbol.crate_name + "  "@
            + sr.seed.symbol.path,
        "  seed: "@ + place_text(sr.seed.spelled, sr.seed.position),
    ] + reach_rows("REACHABLE"@, all_bins, sr.bins, Reachability::Production, workspace)
        + reach_rows(
        "REACHABLE FROM TESTS ONLY"@,
        all_bins,
        sr.bins,
        Reachability::TestsOnly,
        workspace,
    ) + reach_rows("NOT REACHABLE"@, all_bins, sr.bins, Reachability::NotReachable, workspace)
}

/// Adds the lines on a symbol.
fn push_seed(
    rows: &mut Vec<String>,
    sr: &SeedReachability,
    all_bins: &Vec<PathBuf>,
    workspace: &PathBuf,
)
    ensures
        texts(final(rows)@) == texts(old(rows)@) + seed_rows(
            sr@,
            paths_view(all_bins@),
            workspace@,
        ),
{
    let ghost start = texts(rows@);
    let mut title = shown_id(&sr.seed.symbol.advisory_id);
    title.append("  ");
    title.append(sr.seed.symbol.crate_name.as_str());
    title.append("  ");
    title.append(sr.seed.symbol.path.as_str());
    let ghost t = title@;
    let mut seed = "  seed: ".to_owned();
    push_place(&mut seed, &sr.seed.file, sr.seed.position);
    let ghost p = seed@;
    rows.push("".to_owned());
    rows.push(title);
    rows.push(seed);
    assert(texts(rows@) =~= start + seq![""@, t, p]);
    emit_section(rows, "REACHABLE", all_bins, &sr.bins, Reachability::Production, workspace);
    emit_section(
        rows,
        "REACHABLE FROM TESTS ONLY",
        all_bins,
        &sr.bins,
        Reachability::TestsOnly,
        workspace,
    );
    emit_section(rows, "NOT REACHABLE", all_bins, &sr.bins, Reachability::NotReachable, workspace);
    assert(texts(rows@) =~= start + seed_rows(sr@, paths_view(all_bins@), workspace@));
}

/// The lines on all symbols.
pub open spec fn all_seed_rows(
    per_seed: Seq<SeedReach>,
    all_bins: Seq<Seq<Part>>,
    workspace: Seq<Part>,
) -> Seq<Seq<char>>
    decreases per_seed.len(),
{
    if per_seed.len() == 0 {
        Seq::empty()
    } else {
        all_seed_rows(per_seed.drop_last(), all_bins, workspace) + seed_rows(
            per_seed.last(),
            all_bins,
            workspace,
        )
    }
}

/// The line on a symbol whose place is not known.
pub open spec fn unresolved_row(u: Unresolved) -> Seq<char> {
    "  "@ + id_word(u.symbol.advisory_id) + "  "@ + u.symbol.path + "  ("@ + reason_text(u.reason)
        + ")"@
}

/// The lines on symbols whose places are not known.
pub open spec fn unresolved_rows(us: Seq<Unresolved>) -> Seq<Seq<char>> {
    if us.len() == 0 {
        Seq::empty()
    } else {
        seq![""@, "Unresolved seeds:"@] + us.map_values(|u: Unresolved| unresolved_row(u))
    }
}

/// Adds the lines on symbols whose places are not known.
fn push_unresolved(rows: &mut Vec<String>, us: &Vec<UnresolvedSeed>)
    ensures
        texts(final(rows)@) == texts(old(rows)@) + unresolved_rows(views(us@)),
{
    let ghost start = texts(rows@);
    if us.len() == 0 {
        assert(start + unresolved_rows(views(us@)) =~= start);
        return;
    }
    let ghost all = views(us@).map_values(|u: Unresolved| unresolved_row(u));
    let ghost head = seq![""@, "Unresolved seeds:"@];
    rows.push("".to_owned());
    rows.push("Unresolved seeds:".to_owned());
    let mut i: usize = 0;
    assert(texts(rows@) =~= start + head + all.take(0));
    while i < us.len()
        invariant
            i <= us@.len(),
            all == views(us@).map_values(|u: Unresolved| unresolved_row(u)),
            texts(rows@) == start + head + all.take(i as int),
        decreases us.len() - i,
    {
        let u = &us[i];
        let mut row = "  ".to_owned();
        row.append(shown_id(&u.symbol.advisory_id).as_str());
        row.append("  ");
        row.append(u.symbol.path.as_str());
        row.append("  (");
        row.append(describe_unresolved(&u.reason).as_str());
        row.append(")");
        let ghost had = rows@;
        let ghost x = row@;
        rows.push(row);
        proof {
            assert(x == all[i as int]);
            assert(texts(rows@) =~= texts(had).push(x));
            assert(all.take(i + 1) =~= all.take(i as int).push(x));
            assert(texts(rows@) =~= start + head + all.take(i + 1));
        }
        i = i + 1;
    }
    assert(all.take(i as int) =~= all);
    assert(texts(rows@) =~= start + (head + all));
}

/// The line on an advisory that cannot be narrowed down.
pub open spec fn unsupported_row(u: Unsupported) -> Seq<char> {
    "  "@ + u.advisory_id + "  "@ + u.crate_name
}

/// The lines on advisories that cannot be narrowed down.
pub open spec fn unsupported_rows(us: Seq<Unsupported>) -> Seq<Seq<char>> {
    if us.len() == 0 {
        Seq::empty()
    } else {
        seq![""@, "Unsupported advisories (no affected.functions in DB):"@] + us.map_values(
            |u: Unsupported| unsupported_row(u),
        )
    }
}

/// Adds the lines on advisories that cannot be narrowed down.
fn push_unsupported(rows: &mut Vec<String>, us: &Vec<UnsupportedAdvisory>)
    ensures
        texts(final(rows)@) == texts(old(rows)@) + unsupported_rows(unsupporteds(us@)),
{
    let ghost start = texts(rows@);
    if us.len() == 0 {
        assert(start + unsupported_rows(unsupporteds(us@)) =~= start);
        return;
    }
    let ghost all = unsupporteds(us@).map_values(|u: Unsupported| unsupported_row(u));
    let ghost head = seq![""@, "Unsupported advisories (no affected.functions in DB):"@];
    rows.push("".to_owned());
    rows.push("Unsupported advisories (no affected.functions in DB):".to_owned());
    let mut i: usize = 0;
    assert(texts(rows@) =~= start + head + all.take(0));
    while i < us.len()
        invariant
            i <= us@.len(),
            all == unsupporteds(us@).map_values(|u: Unsupported| unsupported_row(u)),
            texts(rows@) == start + head + all.take(i as int),
        decreases us.len() - i,
    {
        let u = &us[i];
        let mut row = "  ".to_owned();
        row.append(u.advisory_id.as_str());
        row.append("  ");
        row.append(u.crate_name.as_str());
        let ghost had = rows@;
        let ghost x = row@;
        rows.push(row);
        proof {
            assert(x == all[i as int]);
            assert(texts(rows@) =~= texts(had).push(x));
            assert(all.take(i + 1) =~= all.take(i as int).push(x));
            assert(texts(rows@) =~= start + head + all.take(i + 1));
        }
        i = i + 1;
    }
    assert(all.take(i as int) =~= all);
    assert(texts(rows@) =~= start + (head + all));
}

/// The lines of a report.
pub open spec fn report_rows(
    workspace: PathBuf,
    input: InputResult,
    resolve: ResolveResult,
    run: RunResult,
) -> Seq<Seq<char>> {
    seq![
        "Workspace: "@ + workspace.spelling() + " ("@ + decimal(run.all_bins@.len()) + " bins)"@,
    ] + all_seed_rows(views(run.per_seed@), paths_view(run.all_bins@), workspace@) + unresolved_rows(
        views(resolve.unresolved@),
    ) + unsupported_rows(unsupporteds(input.unsupported@))
}

/// A report as text.
pub fn render_text(
    workspace: &PathBuf,
    input: &InputResult,
    resolve: &ResolveResult,
    run: &RunResult,
) -> (r: String)
    ensures
        r@ == ended(report_rows(*workspace, *input, *resolve, *run)),
{
    let mut rows: Vec<String> = Vec::new();
    let mut title = "Workspace: ".to_owned();
    title.append(workspace.display().as_str());
    title.append(" (");
    push_decimal(&mut title, run.all_bins.len() as u64);
    title.append(" bins)");
    let ghost head = seq![title@];
    rows.push(title);
    let ghost all = views(run.per_seed@);
    let ghost bins = paths_view(run.all_bins@);
    let mut i: usize = 0;
    proof {
        assert(all.take(0) =~= Seq::<SeedReach>::empty());
        assert(texts(rows@) =~= head + all_seed_rows(all.take(0), bins, workspace@));
    }
    while i < run.per_seed.len()
        invariant
            i <= run.per_seed@.len(),
            all == views(run.per_seed@),
            bins == paths_view(run.all_bins@),
            texts(rows@) == head + all_seed_rows(all.take(i as int), bins, workspace@),
        decreases run.per_seed.len() - i,
    {
        proof {
            assert(all.take(i + 1).drop_last() =~= all.take(i as int));
            assert(all.take(i + 1).last() == run.per_seed@[i as int]@);
        }
        push_seed(&mut rows, &run.per_seed[i], &run.all_bins, workspace);
        assert(texts(rows@) =~= head + all_seed_rows(all.take(i + 1), bins, workspace@));
        i = i + 1;
    }
    assert(all.take(i as int) =~= all);
    push_unresolved(&mut rows, &resolve.unresolved);
    push_unsupported(&mut rows, &input.unsupported);
    assert(texts(rows@) =~= report_rows(*workspace, *input, *resolve, *run));
    end_lines(&rows)
}

// ---------------------------------------------------------------------------------------
// The object
// ---------------------------------------------------------------------------------------
/// A binary in the object.
#[derive(Debug, PartialEq, Eq)]
pub struct JsonBin {
    pub path: String,
    pub reachability: String,
}

impl View for JsonBin {
    type V = (Seq<char>, Seq<char>);

    open spec fn view(&self) -> (Seq<char>, Seq<char>) {
        (self.path@, self.reachability@)
    }
}

/// A symbol in the object. Lines and columns count from one.
#[derive(Debug, PartialEq, Eq)]
pub struct JsonAdvisory {
    pub advisory_id: Option<String>,
    pub crate_name: String,
    pub vulnerable_symbol: String,
    pub seed_file: String,
    pub seed_line: u64,
    pub seed_character: u64,
    pub bins: Vec<JsonBin>,
}

/// A symbol whose place is not known, in the object.
#[derive(Debug, PartialEq, Eq)]
pub struct JsonUnresolved {
    pub advisory_id: Option<String>,
    pub crate_name: String,
    pub vulnerable_symbol: String,
    pub reason: String,
}

/// An advisory that cannot be narrowed down, in the object.
#[derive(Debug, PartialEq, Eq)]
pub struct JsonUnsupported {
    pub advisory_id: String,
    pub crate_name: String,
    pub reason: String,
}

/// A report as an object.
#[derive(Debug, PartialEq, Eq)]
pub struct JsonReport {
    pub schema_version: u32,
    pub workspace: String,
    pub all_bins: Vec<String>,
    pub advisories: Vec<JsonAdvisory>,
    pub unresolved: Vec<JsonUnresolved>,
    pub unsupported: Vec<JsonUnsupported>,
}

/// The binaries of the object: all of them, with how each reaches a symbol.
pub open spec fn bin_entries(
    all_bins: Seq<Seq<Part>>,
    bins: Seq<(Seq<Part>, Reachability)>,
    workspace: Seq<Part>,
) -> Seq<(Seq<char>, Seq<char>)> {
    all_bins.map_values(
        |b: Seq<Part>| (relative_text(b, workspace), reach_word(reach_in(bins, b))),
    )
}

/// Whether an entry is that of a symbol.
pub open spec fn advisory_is(
    j: JsonAdvisory,
    sr: SeedReach,
    all_bins: Seq<Seq<Part>>,
    workspace: Seq<Part>,
) -> bool {
    &&& id_view(j.advisory_id) == sr.seed.symbol.advisory_id
    &&& j.crate_name@ == sr.seed.symbol.crate_name
    &&& j.vulnerable_symbol@ == sr.seed.symbol.path
    &&& j.seed_file@ == sr.seed.spelled
    &&& j.seed_line == sr.seed.position.line + 1
    &&& j.seed_character == sr.seed.position.character + 1
    &&& views(j.bins@) == bin_entries(all_bins, sr.bins, workspace)
}

/// Whether an entry is that of a symbol whose place is not known.
pub open spec fn unresolved_is(j: JsonUnresolved, u: Unresolved) -> bool {
    &&& id_view(j.advisory_id) == u.symbol.advisory_id
    &&& j.crate_name@ == u.symbol.crate_name
    &&& j.vulnerable_symbol@ == u.symbol.path
    &&& j.reason@ == reason_text(u.reason)
}

/// Whether an entry is that of an advisory that cannot be narrowed down.
pub open spec fn unsupported_is(j: JsonUnsupported, u: Unsupported) -> bool {
    &&& j.advisory_id@ == u.advisory_id
    &&& j.crate_name@ == u.crate_name
    &&& j.reason@ == match u.reason {
        UnsupportedReason::NoAffectedFunctions => "no_affected_functions"@,
    }
}

/// Whether an object is that of a report.
pub open spec fn report_is(
    j: JsonReport,
    workspace: PathBuf,
    input: InputResult,
    resolve: ResolveResult,
    run: RunResult,
) -> bool {
    &&& j.schema_version == SCHEMA_VERSION
    &&& j.workspace@ == workspace.spelling()
    &&& texts(j.all_bins@) == relative_texts(paths_view(run.all_bins@), workspace@)
    &&& j.advisories@.len() == run.per_seed@.len()
    &&& forall|i: int|
        0 <= i < j.advisories@.len() ==> advisory_is(
            #[trigger] j.advisories@[i],
            run.per_seed@[i]@,
            paths_view(run.all_bins@),
            workspace@,
        )
    &&& j.unresolved@.len() == resolve.unresolved@.len()
    &&& forall|i: int|
        0 <= i < j.unresolved@.len() ==> unresolved_is(
            #[trigger] j.unresolved@[i],
            resolve.unresolved@[i]@,
        )
    &&& j.unsupported@.len() == input.unsupported@.len()
    &&& forall|i: int|
        0 <= i < j.unsupported@.len() ==> unsupported_is(
            #[trigger] j.unsupported@[i],
            input.unsupported@[i]@,
        )
}

/// The entry of a symbol.
fn json_advisory(sr: &SeedReachability, all_bins: &Vec<PathBuf>, workspace: &PathBuf) -> (r:
    JsonAdvisory)
    ensures
        advisory_is(r, sr@, paths_view(all_bins@), workspace@),
{
    let mut bins: Vec<JsonBin> = Vec::new();
    let mut i: usize = 0;
    while i < all_bins.len()
        invariant
            i <= all_bins@.len(),
            bins@.len() == i,
            forall|k: int|
                0 <= k < i ==> (#[trigger] bins@[k])@ == (
                    relative_text(all_bins@[k]@, workspace@),
                    reach_word(reach_in(bins_view(sr.bins@), all_bins@[k]@)),
                ),
        decreases all_bins.len() - i,
    {
        bins.push(
            JsonBin {
                path: relative(&all_bins[i], workspace),
                reachability: reachability_str(look_up(&sr.bins, &all_bins[i])),
            },
        );
        i = i + 1;
    }
    assert(views(bins@) =~= bin_entries(paths_view(all_bins@), bins_view(sr.bins@), workspace@));
    JsonAdvisory {
        advisory_id: copy_id(&sr.seed.symbol.advisory_id),
        crate_name: sr.seed.symbol.crate_name.clone(),
        vulnerable_symbol: sr.seed.symbol.path.clone(),
        seed_file: sr.seed.file.display(),
        seed_line: sr.seed.position.line as u64 + 1,
        seed_character: sr.seed.position.character as u64 + 1,
        bins,
    }
}

/// The entries of symbols whose places are not known.
fn json_unresolved(us: &Vec<UnresolvedSeed>) -> (r: Vec<JsonUnresolved>)
    ensures
        r@.len() == us@.len(),
        forall|i: int| 0 <= i < r@.len() ==> unresolved_is(#[trigger] r@[i], us@[i]@),
{
    let mut out: Vec<JsonUnresolved> = Vec::new();
    let mut i: usize = 0;
    while i < us.len()
        invariant
            i <= us@.len(),
            out@.len() == i,
            forall|k: int| 0 <= k < i ==> unresolved_is(#[trigger] out@[k], us@[k]@),
        decreases us.len() - i,
    {
        let u = &us[i];
        out.push(
            JsonUnresolved {
                advisory_id: copy_id(&u.symbol.advisory_id),
                crate_name: u.symbol.crate_name.clone(),
                vulnerable_symbol: u.symbol.path.clone(),
                reason: describe_unresolved(&u.reason),
            },
        );
        i = i + 1;
    }
    out
}

/// The entries of advisories that cannot be narrowed down.
fn json_unsupported(us: &Vec<UnsupportedAdvisory>) -> (r: Vec<JsonUnsupported>)
    ensures
        r@.len() == us@.len(),
        forall|i: int| 0 <= i < r@.len() ==> unsupported_is(#[trigger] r@[i], us@[i]@),
{
    let mut out: Vec<JsonUnsupported> = Vec::new();
    let mut i: usize = 0;
    while i < us.len()
        invariant
            i <= us@.len(),
            out@.len() == i,
            forall|k: int| 0 <= k < i ==> unsupported_is(#[trigger] out@[k], us@[k]@),
        decreases us.len() - i,
    {
        let u = &us[i];
        out.push(
            JsonUnsupported {
                advisory_id: u.advisory_id.clone(),
                crate_name: u.crate_name.clone(),
                reason: match u.reason {
                    UnsupportedReason::NoAffectedFunctions => "no_affected_functions".to_owned(),
                },
            },
        );
        i = i + 1;
    }
    out
}

/// A report as an object.
pub fn render_json(
    workspace: &PathBuf,
    input: &InputResult,
    resolve: &ResolveResult,
    run: &RunResult,
) -> (r: JsonReport)
    ensures
        report_is(r, *workspace, *input, *resolve, *run),
{
    let mut all_bins: Vec<String> = Vec::new();
    let mut i: usize = 0;
    while i < run.all_bins.len()
        invariant
            i <= run.all_bins@.len(),
            all_bins@.len() == i,
            forall|k: int|
                0 <= k < i ==> (#[trigger] all_bins@[k])@ == relative_text(
                    run.all_bins@[k]@,
                    workspace@,
                ),
        decreases run.all_bins.len() - i,
    {
        all_bins.push(relative(&run.all_bins[i], workspace));
        i = i + 1;
    }
    assert(texts(all_bins@) =~= relative_texts(paths_view(run.all_bins@), workspace@));
    let mut advisories: Vec<JsonAdvisory> = Vec::new();
    let mut k: usize = 0;
    while k < run.per_seed.len()
        invariant
            k <= run.per_seed@.len(),
            advisories@.len() == k,
            forall|n: int|
                0 <= n < k ==> advisory_is(
                    #[trigger] advisories@[n],
                    run.per_seed@[n]@,
                    paths_view(run.all_bins@),
                    workspace@,
                ),
        decreases run.per_seed.len() - k,
    {
        advisories.push(json_advisory(&run.per_seed[k], &run.all_bins, workspace));
        k = k + 1;
    }
    JsonReport {
        schema_version: SCHEMA_VERSION,
        workspace: workspace.display(),
        all_bins,
        advisories,
        unresolved: json_unresolved(&resolve.unresolved),
        unsupported: json_unsupported(&input.unsupported),
    }
}

/// A report in the requested form.
#[derive(Debug, PartialEq, Eq)]
pub enum Rendered {
    /// Text, ready to be printed.
    Text(String),
    /// An object to be serialized.
    Json(JsonReport),
}

/// Puts a report into the requested form.
pub fn render(
    workspace: &PathBuf,
    input: &InputResult,
    resolve: &ResolveResult,
    run: &RunResult,
    format: Format,
) -> (r: Rendered)
    ensures
        match format {
            Format::Text => r matches Rendered::Text(t) && t@ == ended(
                report_rows(*workspace, *input, *resolve, *run),
            ),
            Format::Json => r matches Rendered::Json(j) && report_is(
                j,
                *workspace,
                *input,
                *resolve,
                *run,
            ),
        },
{
    match format {
        Format::Text => Rendered::Text(render_text(workspace, input, resolve, run)),
        Format::Json => Rendered::Json(render_json(workspace, input, resolve, run)),
    }
}

// ---------------------------------------------------------------------------------------
// Earlier stages
// ---------------------------------------------------------------------------------------
/// Requirements as they are shown.
pub open spec fn shown_reqs(reqs: Seq<Seq<char>>) -> Seq<Seq<char>> {
    reqs.map_values(|r: Seq<char>| req_text(r)->0)
}

/// The requirements of a symbol in one text.
pub open spec fn reqs_text(reqs: Seq<Seq<char>>) -> Seq<char> {
    if reqs.len() == 0 {
        "*"@
    } else {
        joined(shown_reqs(reqs), ", "@)
    }
}

/// The line on a symbol that was read.
pub open spec fn parsed_row(v: Vuln) -> Seq<char> {
    "  symbol  "@ + id_word(v.advisory_id) + "  "@ + v.crate_name + "  "@ + v.path + "  ["@
        + reqs_text(v.reqs) + "]"@
}

/// The lines on the input that was read.
pub open spec fn dry_run_rows(input: InputResult) -> Seq<Seq<char>> {
    seq![
        "Parsed input: "@ + decimal(input.vuln_symbols@.len()) + " symbol(s), "@ + decimal(
            input.unsupported@.len(),
        ) + " unsupported advisory(ies)"@,
    ] + vulns(input.vuln_symbols@).map_values(|v: Vuln| parsed_row(v)) + unsupporteds(
        input.unsupported@,
    ).map_values(|u: Unsupported| apart_row("  unsupp  "@, u))
}

/// The line on an advisory that cannot be narrowed down, behind a word.
pub open spec fn apart_row(word: Seq<char>, u: Unsupported) -> Seq<char> {
    word + u.advisory_id + "  "@ + u.crate_name + "  ("@ + match u.reason {
        UnsupportedReason::NoAffectedFunctions => "no affected.functions in DB"@,
    } + ")"@
}

/// Adds the lines on advisories that cannot be narrowed down, behind a word.
fn push_apart(rows: &mut Vec<String>, word: &str, us: &Vec<UnsupportedAdvisory>)
    ensures
        texts(final(rows)@) == texts(old(rows)@) + unsupporteds(us@).map_values(
            |u: Unsupported| apart_row(word@, u),
        ),
{
    let ghost start = texts(rows@);
    let ghost all = unsupporteds(us@).map_values(|u: Unsupported| apart_row(word@, u));
    let mut i: usize = 0;
    assert(start + all.take(0) =~= start);
    while i < us.len()
        invariant
            i <= us@.len(),
            all == unsupporteds(us@).map_values(|u: Unsupported| apart_row(word@, u)),
            texts(rows@) == start + all.take(i as int),
        decreases us.len() - i,
    {
        let u = &us[i];
        let mut row = word.to_owned();
        row.append(u.advisory_id.as_str());
        row.append("  ");
        row.append(u.crate_name.as_str());
        row.append("  (");
        match u.reason {
            UnsupportedReason::NoAffectedFunctions => {
                row.append("no affected.functions in DB");
            },
        }
        row.append(")");
        let ghost had = rows@;
        let ghost x = row@;
        rows.push(row);
        proof {
            assert(x == all[i as int]);
            assert(texts(rows@) =~= texts(had).push(x));
            assert(all.take(i + 1) =~= all.take(i as int).push(x));
            assert(texts(rows@) =~= start + all.take(i + 1));
        }
        i = i + 1;
    }
    assert(all.take(i as int) =~= all);
}

/// The requirements of a symbol in one text.
fn show_reqs(sym: &VulnSymbol) -> (r: String)
    ensures
        r@ == reqs_text(reqs_view(sym.version_reqs@)),
{
    if sym.version_reqs.len() == 0 {
        return "*".to_owned();
    }
    let ghost all = reqs_view(sym.version_reqs@);
    let mut parts: Vec<String> = Vec::new();
    let mut i: usize = 0;
    while i < sym.version_reqs.len()
        invariant
            i <= sym.version_reqs@.len(),
            all == reqs_view(sym.version_reqs@),
            parts@.len() == i,
            forall|k: int| 0 <= k < i ==> req_text(all[k]) == Some((#[trigger] parts@[k])@),
        decreases sym.version_reqs.len() - i,
    {
        assert(all[i as int] == sym.version_reqs@[i as int]@);
        parts.push(sym.version_reqs[i].shown().to_owned());
        i = i + 1;
    }
    assert(texts(parts@) =~= shown_reqs(all));
    join(&parts, ", ")
}

/// The text on the input that was read.
pub fn dry_run_text(input: &InputResult) -> (r: String)
    ensures
        r@ == ended(dry_run_rows(*input)),
{
    let mut title = "Parsed input: ".to_owned();
    push_decimal(&mut title, input.vuln_symbols.len() as u64);
    title.append(" symbol(s), ");
    push_decimal(&mut title, input.unsupported.len() as u64);
    title.append(" unsupported advisory(ies)");
    let ghost head = seq![title@];
    let mut rows: Vec<String> = Vec::new();
    rows.push(title);
    let ghost all = vulns(input.vuln_symbols@).map_values(|v: Vuln| parsed_row(v));
    let mut i: usize = 0;
    assert(texts(rows@) =~= head + all.take(0));
    while i < input.vuln_symbols.len()
        invariant
            i <= input.vuln_symbols@.len(),
            all == vulns(input.vuln_symbols@).map_values(|v: Vuln| parsed_row(v)),
            texts(rows@) == head + all.take(i as int),
        decreases input.vuln_symbols.len() - i,
    {
        let v = &input.vuln_symbols[i];
        let mut row = "  symbol  ".to_owned();
        row.append(shown_id(&v.advisory_id).as_str());
        row.append("  ");
        row.append(v.crate_name.as_str());
        row.append("  ");
        row.append(v.path.as_str());
        row.append("  [");
        row.append(show_reqs(v).as_str());
        row.append("]");
        let ghost had = rows@;
        let ghost x = row@;
        rows.push(row);
        proof {
            assert(x == all[i as int]);
            assert(texts(rows@) =~= texts(had).push(x));
            assert(all.take(i + 1) =~= all.take(i as int).push(x));
            assert(texts(rows@) =~= head + all.take(i + 1));
        }
        i = i + 1;
    }
    assert(all.take(i as int) =~= all);
    push_apart(&mut rows, "  unsupp  ", &input.unsupported);
    assert(texts(rows@) =~= dry_run_rows(*input));
    end_lines(&rows)
}

/// The line on a symbol whose place was found.
pub open spec fn resolved_row(s: Resolved) -> Seq<char> {
    "  resolved  "@ + id_word(s.symbol.advisory_id) + "  "@ + s.symbol.path + "  -> "@ + place_text(
        s.spelled,
        s.position,
    )
}

/// The line on a symbol whose place was not found.
pub open spec fn missing_row(u: Unresolved) -> Seq<char> {
    "  unresolved  "@ + id_word(u.symbol.advisory_id) + "  "@ + u.symbol.path + "  ("@
        + reason_text(u.reason) + ")"@
}

/// The lines on the places of symbols.
pub open spec fn resolve_rows(input: InputResult, resolve: ResolveResult) -> Seq<Seq<char>> {
    seq![
        "Resolved: "@ + decimal(resolve.resolved@.len()) + " seed(s), "@ + decimal(
            resolve.unresolved@.len(),
        ) + " unresolved"@,
    ] + views(resolve.resolved@).map_values(|s: Resolved| resolved_row(s)) + views(
        resolve.unresolved@,
    ).map_values(|u: Unresolved| missing_row(u)) + unsupporteds(input.unsupported@).map_values(
        |u: Unsupported| apart_row("  unsupported "@, u),
    )
}

/// Adds the lines on symbols whose places were found.
fn push_resolved(rows: &mut Vec<String>, seeds: &Vec<ResolvedSeed>)
    ensures
        texts(final(rows)@) == texts(old(rows)@) + views(seeds@).map_values(
            |s: Resolved| resolved_row(s),
        ),
{
    let ghost start = texts(rows@);
    let ghost all = views(seeds@).map_values(|s: Resolved| resolved_row(s));
    let mut i: usize = 0;
    assert(start + all.take(0) =~= start);
    while i < seeds.len()
        invariant
            i <= seeds@.len(),
            all == views(seeds@).map_values(|s: Resolved| resolved_row(s)),
            texts(rows@) == start + all.take(i as int),
        decreases seeds.len() - i,
    {
        let seed = &seeds[i];
        let mut row = "  resolved  ".to_owned();
        row.append(shown_id(&seed.symbol.advisory_id).as_str());
        row.append("  ");
        row.append(seed.symbol.path.as_str());
        row.append("  -> ");
        push_place(&mut row, &seed.file, seed.position);
        let ghost had = rows@;
        let ghost x = row@;
        rows.push(row);
        proof {
            assert(x == all[i as int]);
            assert(texts(rows@) =~= texts(had).push(x));
            assert(all.take(i + 1) =~= all.take(i as int).push(x));
            assert(texts(rows@) =~= start + all.take(i + 1));
        }
        i = i + 1;
    }
    assert(all.take(i as int) =~= all);
}

/// Adds the lines on symbols whose places were not found.
fn push_missing(rows: &mut Vec<String>, seeds: &Vec<UnresolvedSeed>)
    ensures
        texts(final(rows)@) == texts(old(rows)@) + views(seeds@).map_values(
            |u: Unresolved| missing_row(u),
        ),
{
    let ghost start = texts(rows@);
    let ghost all = views(seeds@).map_values(|u: Unresolved| missing_row(u));
    let mut i: usize = 0;
    assert(start + all.take(0) =~= start);
    while i < seeds.len()
        invariant
            i <= seeds@.len(),
            all == views(seeds@).map_values(|u: Unresolved| missing_row(u)),
            texts(rows@) == start + all.take(i as int),
        decreases seeds.len() - i,
    {
        let seed = &seeds[i];
        let mut row = "  unresolved  ".to_owned();
        row.append(shown_id(&seed.symbol.advisory_id).as_str());
        row.append("  ");
        row.append(seed.symbol.path.as_str());
        row.append("  (");
        row.append(describe_unresolved(&seed.reason).as_str());
        row.append(")");
        let ghost had = rows@;
        let ghost x = row@;
        rows.push(row);
        proof {
            assert(x == all[i as int]);
            assert(texts(rows@) =~= texts(had).push(x));
            assert(all.take(i + 1) =~= all.take(i as int).push(x));
            assert(texts(rows@) =~= start + all.take(i + 1));
        }
        i = i + 1;
    }
    assert(all.take(i as int) =~= all);
}

/// The text on the places of symbols.
pub fn resolve_text(input: &InputResult, resolve: &ResolveResult) -> (r: String)
    ensures
        r@ == ended(resolve_rows(*input, *resolve)),
{
    let mut title = "Resolved: ".to_owned();
    push_decimal(&mut title, resolve.resolved.len() as u64);
    title.append(" seed(s), ");
    push_decimal(&mut title, resolve.unresolved.len() as u64);
    title.append(" unresolved");
    let ghost head = seq![title@];
    let mut rows: Vec<String> = Vec::new();
    rows.push(title);
    assert(texts(rows@) =~= head);
    push_resolved(&mut rows, &resolve.resolved);
    push_missing(&mut rows, &resolve.unresolved);
    push_apart(&mut rows, "  unsupported ", &input.unsupported);
    assert(texts(rows@) =~= resolve_rows(*input, *resolve));
    end_lines(&rows)
}

/// Every binary stands in exactly one section of the report on a symbol.
pub proof fn sections_share_out_the_binaries(
    all_bins: Seq<Seq<Part>>,
    bins: Seq<(Seq<Part>, Reachability)>,
)
    ensures
        with_reach(all_bins, bins, Reachability::Production).len() + with_reach(
            all_bins,
            bins,
            Reachability::TestsOnly,
        ).len() + with_reach(all_bins, bins, Reachability::NotReachable).len() == all_bins.len(),
        forall|r: Reachability, i: int|
            #![trigger with_reach(all_bins, bins, r)[i]]
            0 <= i < with_reach(all_bins, bins, r).len() ==> reach_in(
                bins,
                with_reach(all_bins, bins, r)[i],
            ) == r && all_bins.contains(with_reach(all_bins, bins, r)[i]),
    decreases all_bins.len(),
{
    if all_bins.len() > 0 {
        let front = all_bins.drop_last();
        sections_share_out_the_binaries(front, bins);
        assert forall|r: Reachability, i: int|
            #![trigger with_reach(all_bins, bins, r)[i]]
            0 <= i < with_reach(all_bins, bins, r).len() implies reach_in(
            bins,
            with_reach(all_bins, bins, r)[i],
        ) == r && all_bins.contains(with_reach(all_bins, bins, r)[i]) by {
            let x = with_reach(all_bins, bins, r)[i];
            if i < with_reach(front, bins, r).len() {
                assert(with_reach(front, bins, r)[i] == x);
                let k = choose|k: int| 0 <= k < front.len() && front[k] == x;
                assert(all_bins[k] == x);
            } else {
                assert(all_bins[all_bins.len() - 1] == x);
            }
        }
    }
}

/// How a binary reaches a symbol is what its entry says; one without an entry does not.
pub proof fn reach_stands_in_the_entry(
    bins: Seq<(Seq<Part>, Reachability)>,
    bin: Seq<Part>,
    i: int,
)
    ensures
        0 <= i < bins.len() && bins[i].0 == bin && (forall|j: int|
            0 <= j < i ==> (#[trigger] bins[j]).0 != bin) ==> reach_in(bins, bin) == bins[i].1,
        (forall|j: int| 0 <= j < bins.len() ==> (#[trigger] bins[j]).0 != bin) ==> reach_in(
            bins,
            bin,
        ) == Reachability::NotReachable,
    decreases bins.len(),
{
    if bins.len() > 0 && bins[0].0 != bin {
        let rest = bins.drop_first();
        reach_stands_in_the_entry(rest, bin, i - 1);
        assert forall|j: int| 0 <= j < rest.len() implies #[trigger] rest[j] == bins[j + 1] by {}
    }
}

/// A section lists all binaries that reach a symbol in its way, in order, and no others.
pub proof fn sections_are_filtered(
    all_bins: Seq<Seq<Part>>,
    bins: Seq<(Seq<Part>, Reachability)>,
    r: Reachability,
)
    ensures
        with_reach(all_bins, bins, r) == all_bins.filter(|b: Seq<Part>| reach_in(bins, b) == r),
    decreases all_bins.len(),
{
    reveal(Seq::filter);
    let so = |b: Seq<Part>| reach_in(bins, b) == r;
    if all_bins.len() > 0 {
        sections_are_filtered(all_bins.drop_last(), bins, r);
    } else {
        assert(with_reach(all_bins, bins, r) =~= all_bins.filter(so));
    }
}

/// A section has a line for its label and one for each name, or one that says that there is
/// none.
pub proof fn sections_have_a_line_for_each_name(label: Seq<char>, names: Seq<Seq<char>>, i: int)
    ensures
        section_rows(label, names)[0] == "  "@ + label,
        names.len() == 0 ==> section_rows(label, names) == seq!["  "@ + label, "    (none)"@],
        names.len() > 0 ==> section_rows(label, names).len() == names.len() + 1,
        0 <= i < names.len() ==> section_rows(label, names)[i + 1] == "    "@ + names[i],
{
    let rows = names.map_values(|n: Seq<char>| "    "@ + n);
    if names.len() == 0 {
        assert(section_rows(label, names) =~= seq!["  "@ + label, "    (none)"@]);
    }
    if 0 <= i < names.len() {
        assert(section_rows(label, names)[i + 1] == rows[i]);
    }
}

/// The part of a report on a symbol names it and its place, and then lists the binaries that
/// reach it in production code, those that reach it from tests only, and those that do not.
pub proof fn reports_tell_the_three_sections(
    sr: SeedReach,
    all_bins: Seq<Seq<Part>>,
    workspace: Seq<Part>,
)
    ensures
        ({
            let names = |r: Reachability|
                all_bins.filter(|b: Seq<Part>| reach_in(sr.bins, b) == r).map_values(
                    |p: Seq<Part>| relative_text(p, workspace),
                );
            seed_rows(sr, all_bins, workspace) == seq![
                ""@,
                (match sr.seed.symbol.advisory_id {
                    Some(id) => id,
                    None => "(direct)"@,
                }) + "  "@ + sr.seed.symbol.crate_name + "  "@ + sr.seed.symbol.path,
                "  seed: "@ + sr.seed.spelled + ":"@ + decimal(
                    (sr.seed.position.line + 1) as nat,
                ) + ":"@ + decimal((sr.seed.position.character + 1) as nat),
            ] + section_rows("REACHABLE"@, names(Reachability::Production)) + section_rows(
                "REACHABLE FROM TESTS ONLY"@,
                names(Reachability::TestsOnly),
            ) + section_rows("NOT REACHABLE"@, names(Reachability::NotReachable))
        }),
{
    sections_are_filtered(all_bins, sr.bins, Reachability::Production);
    sections_are_filtered(all_bins, sr.bins, Reachability::TestsOnly);
    sections_are_filtered(all_bins, sr.bins, Reachability::NotReachable);
    let names = |r: Reachability|
        all_bins.filter(|b: Seq<Part>| reach_in(sr.bins, b) == r).map_values(
            |p: Seq<Part>| relative_text(p, workspace),
        );
    assert(relative_texts(
        with_reach(all_bins, sr.bins, Reachability::Production),
        workspace,
    ) =~= names(Reachability::Production));
    assert(relative_texts(with_reach(all_bins, sr.bins, Reachability::TestsOnly), workspace)
        =~= names(Reachability::TestsOnly));
    assert(relative_texts(
        with_reach(all_bins, sr.bins, Reachability::NotReachable),
        workspace,
    ) =~= names(Reachability::NotReachable));
    let place = sr.seed.spelled + ":"@ + decimal((sr.seed.position.line + 1) as nat) + ":"@
        + decimal((sr.seed.position.character + 1) as nat);
    assert(place_text(sr.seed.spelled, sr.seed.position) == place);
    assert("  seed: "@ + place =~= "  seed: "@ + sr.seed.spelled + ":"@ + decimal(
        (sr.seed.position.line + 1) as nat,
    ) + ":"@ + decimal((sr.seed.position.character + 1) as nat));
}

/// The parts on symbols stand one behind the other, one for each.
pub proof fn reports_tell_of_every_symbol(
    per_seed: Seq<SeedReach>,
    sr: SeedReach,
    all_bins: Seq<Seq<Part>>,
    workspace: Seq<Part>,
)
    ensures
        all_seed_rows(per_seed.push(sr), all_bins, workspace) == all_seed_rows(
            per_seed,
            all_bins,
            workspace,
        ) + seed_rows(sr, all_bins, workspace),
        all_seed_rows(Seq::empty(), all_bins, workspace).len() == 0,
{
    assert(per_seed.push(sr).drop_last() =~= per_seed);
}

/// Every symbol whose place is not known has a line with the reason, and every advisory that
/// cannot be narrowed down has a line too.
pub proof fn reports_tell_what_is_left_open(
    us: Seq<Unresolved>,
    ns: Seq<Unsupported>,
    i: int,
    j: int,
)
    ensures
        us.len() == 0 ==> unresolved_rows(us).len() == 0,
        us.len() > 0 ==> unresolved_rows(us).len() == us.len() + 2,
        0 <= i < us.len() ==> unresolved_rows(us)[i + 2] == "  "@ + (match us[i].symbol.advisory_id {
            Some(id) => id,
            None => "(direct)"@,
        }) + "  "@ + us[i].symbol.path + "  ("@ + (match us[i].reason {
            Reason::NoDependency => "no_dependency"@,
            Reason::NotAffectedVersion(v) => "not_affected_version (in use: "@ + v + ")"@,
            Reason::ProbeFailed(m) => "probe_failed: "@ + m,
        }) + ")"@,
        ns.len() == 0 ==> unsupported_rows(ns).len() == 0,
        ns.len() > 0 ==> unsupported_rows(ns).len() == ns.len() + 2,
        0 <= j < ns.len() ==> unsupported_rows(ns)[j + 2] == "  "@ + ns[j].advisory_id + "  "@
            + ns[j].crate_name,
{
    let rows = us.map_values(|u: Unresolved| unresolved_row(u));
    let more = ns.map_values(|u: Unsupported| unsupported_row(u));
    if 0 <= i < us.len() {
        assert(unresolved_rows(us)[i + 2] == rows[i]);
    }
    if 0 <= j < ns.len() {
        assert(unsupported_rows(ns)[j + 2] == more[j]);
    }
}

/// A report begins with the workspace and the number of its binaries, and then tells of every
/// symbol, of what is left open, and of what is not supported.
pub proof fn reports_tell_everything_in_order(
    workspace: PathBuf,
    input: InputResult,
    resolve: ResolveResult,
    run: RunResult,
)
    ensures
        report_rows(workspace, input, resolve, run) == seq![
            "Workspace: "@ + workspace.spelling() + " ("@ + decimal(run.all_bins@.len())
                + " bins)"@,
        ] + all_seed_rows(views(run.per_seed@), views(run.all_bins@), workspace@)
            + unresolved_rows(views(resolve.unresolved@)) + unsupported_rows(
            views(input.unsupported@),
        ),
{
    assert(unsupporteds(input.unsupported@) =~= views(input.unsupported@));
}

/// The object of a report holds the binaries and one entry for each symbol, each symbol whose
/// place is not known and each advisory that is not supported, in order.
pub proof fn report_objects_hold_everything(
    j: JsonReport,
    workspace: PathBuf,
    input: InputResult,
    resolve: ResolveResult,
    run: RunResult,
)
    requires
        report_is(j, workspace, input, resolve, run),
    ensures
        j.schema_version == 1,
        j.workspace@ == workspace.spelling(),
        j.all_bins@.len() == run.all_bins@.len(),
        forall|i: int|
            0 <= i < j.all_bins@.len() ==> (#[trigger] j.all_bins@[i])@ == relative_text(
                run.all_bins@[i]@,
                workspace@,
            ),
        j.advisories@.len() == run.per_seed@.len(),
        forall|i: int|
            0 <= i < j.advisories@.len() ==> advisory_is(
                #[trigger] j.advisories@[i],
                run.per_seed@[i]@,
                views(run.all_bins@),
                workspace@,
            ),
        j.unresolved@.len() == resolve.unresolved@.len(),
        forall|i: int|
            0 <= i < j.unresolved@.len() ==> unresolved_is(
                #[trigger] j.unresolved@[i],
                resolve.unresolved@[i]@,
            ),
        j.unsupported@.len() == input.unsupported@.len(),
        forall|i: int|
            0 <= i < j.unsupported@.len() ==> unsupported_is(
                #[trigger] j.unsupported@[i],
                input.unsupported@[i]@,
            ),
{
    assert(texts(j.all_bins@).len() == relative_texts(
        paths_view(run.all_bins@),
        workspace@,
    ).len());
    assert forall|i: int| 0 <= i < j.all_bins@.len() implies (#[trigger] j.all_bins@[i])@
        == relative_text(run.all_bins@[i]@, workspace@) by {
        assert(texts(j.all_bins@)[i] == relative_texts(paths_view(run.all_bins@), workspace@)[i]);
        assert(paths_view(run.all_bins@)[i] == run.all_bins@[i]@);
    }
}

/// The entry of a symbol names it, its place counted from one, and every binary with how it
/// reaches the symbol.
pub proof fn entries_tell_of_every_binary(
    j: JsonAdvisory,
    sr: SeedReach,
    all_bins: Seq<Seq<Part>>,
    workspace: Seq<Part>,
)
    requires
        advisory_is(j, sr, all_bins, workspace),
    ensures
        (j.advisory_id is Some <==> sr.seed.symbol.advisory_id is Some) && (j.advisory_id is Some
            ==> j.advisory_id->0@ == sr.seed.symbol.advisory_id->0),
        j.crate_name@ == sr.seed.symbol.crate_name,
        j.vulnerable_symbol@ == sr.seed.symbol.path,
        j.seed_file@ == sr.seed.spelled,
        j.seed_line == sr.seed.position.line + 1,
        j.seed_character == sr.seed.position.character + 1,
        j.bins@.len() == all_bins.len(),
        forall|i: int|
            #![trigger j.bins@[i]]
            0 <= i < all_bins.len() ==> j.bins@[i].path@ == relative_text(all_bins[i], workspace)
                && j.bins@[i].reachability@ == match reach_in(sr.bins, all_bins[i]) {
                Reachability::Production => "production"@,
                Reachability::TestsOnly => "tests_only"@,
                Reachability::NotReachable => "not_reachable"@,
            },
{
    let rows = bin_entries(all_bins, sr.bins, workspace);
    assert(views(j.bins@).len() == rows.len());
    assert forall|i: int| #![trigger j.bins@[i]] 0 <= i < all_bins.len() implies j.bins@[i].path@
        == relative_text(all_bins[i], workspace) && j.bins@[i].reachability@ == match reach_in(
        sr.bins,
        all_bins[i],
    ) {
        Reachability::Production => "production"@,
        Reachability::TestsOnly => "tests_only"@,
        Reachability::NotReachable => "not_reachable"@,
    } by {
        assert(views(j.bins@)[i] == rows[i]);
    }
}

/// The entries of what is left open name the symbol or the advisory, its package and the reason.
pub proof fn open_entries_tell_the_reason(
    j: JsonUnresolved,
    u: Unresolved,
    k: JsonUnsupported,
    n: Unsupported,
)
    ensures
        unresolved_is(j, u) ==> j.crate_name@ == u.symbol.crate_name && j.vulnerable_symbol@
            == u.symbol.path && (j.advisory_id is Some <==> u.symbol.advisory_id is Some) && (
        j.advisory_id is Some ==> j.advisory_id->0@ == u.symbol.advisory_id->0) && j.reason@
            == match u.reason {
            Reason::NoDependency => "no_dependency"@,
            Reason::NotAffectedVersion(v) => "not_affected_version (in use: "@ + v + ")"@,
            Reason::ProbeFailed(m) => "probe_failed: "@ + m,
        },
        unsupported_is(k, n) ==> k.advisory_id@ == n.advisory_id && k.crate_name@ == n.crate_name
            && k.reason@ == "no_affected_functions"@,
{
}

/// What was read of an input is told symbol by symbol, each with its requirements or a `*`, and
/// then advisory by advisory.
pub proof fn dry_runs_tell_every_symbol(input: InputResult, i: int, j: int)
    ensures
        dry_run_rows(input).len() == 1 + input.vuln_symbols@.len() + input.unsupported@.len(),
        0 <= i < input.vuln_symbols@.len() ==> dry_run_rows(input)[i + 1] == "  symbol  "@ + (
        match input.vuln_symbols@[i].advisory_id {
            Some(id) => id@,
            None => "(direct)"@,
        }) + "  "@ + input.vuln_symbols@[i].crate_name@ + "  "@ + input.vuln_symbols@[i].path@
            + "  ["@ + (if input.vuln_symbols@[i].version_reqs@.len() == 0 {
            "*"@
        } else {
            joined(shown_reqs(reqs_view(input.vuln_symbols@[i].version_reqs@)), ", "@)
        }) + "]"@,
        0 <= j < input.unsupported@.len() ==> dry_run_rows(
            input,
        )[1 + input.vuln_symbols@.len() + j] == "  unsupp  "@ + input.unsupported@[j].advisory_id@
            + "  "@ + input.unsupported@[j].crate_name@ + "  ("@ + "no affected.functions in DB"@
            + ")"@,
{
    let rows = vulns(input.vuln_symbols@).map_values(|v: Vuln| parsed_row(v));
    let more = unsupporteds(input.unsupported@).map_values(
        |u: Unsupported| apart_row("  unsupp  "@, u),
    );
    let all = dry_run_rows(input);
    if 0 <= i < input.vuln_symbols@.len() {
        assert(all[i + 1] == rows[i]);
    }
    if 0 <= j < input.unsupported@.len() {
        assert(all[1 + rows.len() + j] == more[j]);
    }
}

/// What came of locating is told symbol by symbol: those found with their places, those not
/// found with the reason, and then advisory by advisory.
pub proof fn located_symbols_are_told_one_by_one(
    input: InputResult,
    resolve: ResolveResult,
    i: int,
    j: int,
)
    ensures
        resolve_rows(input, resolve).len() == 1 + resolve.resolved@.len()
            + resolve.unresolved@.len() + input.unsupported@.len(),
        0 <= i < resolve.resolved@.len() ==> resolve_rows(input, resolve)[i + 1] == "  resolved  "@
            + id_word(resolve.resolved@[i]@.symbol.advisory_id) + "  "@
            + resolve.resolved@[i].symbol.path@ + "  -> "@ + place_text(
            resolve.resolved@[i].file.spelling(),
            resolve.resolved@[i].position,
        ),
        0 <= j < resolve.unresolved@.len() ==> resolve_rows(
            input,
            resolve,
        )[1 + resolve.resolved@.len() + j] == "  unresolved  "@ + id_word(
            resolve.unresolved@[j]@.symbol.advisory_id,
        ) + "  "@ + resolve.unresolved@[j].symbol.path@ + "  ("@ + reason_text(
            resolve.unresolved@[j].reason@,
        ) + ")"@,
{
    let rows = views(resolve.resolved@).map_values(|s: Resolved| resolved_row(s));
    let more = views(resolve.unresolved@).map_values(|u: Unresolved| missing_row(u));
    let all = resolve_rows(input, resolve);
    if 0 <= i < resolve.resolved@.len() {
        assert(all[i + 1] == rows[i]);
        assert(views(resolve.resolved@)[i] == resolve.resolved@[i]@);
    }
    if 0 <= j < resolve.unresolved@.len() {
        assert(all[1 + rows.len() + j] == more[j]);
        assert(views(resolve.unresolved@)[j] == resolve.unresolved@[j]@);
    }
}

/// The requirements of a symbol are shown one for one, in order, and a symbol without any shows
/// a `*`.
pub proof fn requirements_are_shown_in_order(reqs: Seq<Seq<char>>, r: Seq<char>)
    ensures
        shown_reqs(reqs).len() == reqs.len(),
        forall|i: int|
            0 <= i < reqs.len() ==> #[trigger] shown_reqs(reqs)[i] == req_text(reqs[i])->0,
        reqs_text(Seq::empty()) == seq!['*'],
        reqs_text(seq![r]) == req_text(r)->0,
        reqs.len() > 0 ==> reqs_text(reqs.push(r)) == reqs_text(reqs) + seq![',', ' '] + req_text(
            r,
        )->0,
{
    reveal_strlit("*");
    reveal_strlit(", ");
    assert("*"@ =~= seq!['*']);
    assert(", "@ =~= seq![',', ' ']);
    assert(shown_reqs(seq![r]) =~= seq![req_text(r)->0]);
    assert(shown_reqs(reqs.push(r)) =~= shown_reqs(reqs).push(req_text(r)->0));
    assert(shown_reqs(reqs).push(req_text(r)->0).drop_last() =~= shown_reqs(reqs));
}

} // verus!
