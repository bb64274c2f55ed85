//! Vulnerable symbols, from one of three inputs: the output of `cargo audit --json`, the id of
//! an advisory, or a symbol path.
//!
//! Advisories that name no function are listed apart: reachability cannot be narrowed down for
//! them.

use crate::cve::report::{in_good_order, is_in_good_order};
use crate::cve::version::{copy_reqs, parse_reqs, req_text, reqs_view, VersionReq};
use crate::path::PathBuf;
use crate::text::{
    chars_of, contains_text, joined, pieces, pieces_hold_no_separator_text, pieces_join_back,
    split_text, string_of, texts,
};
use vstd::prelude::*;

verus! {

/// A vulnerable symbol.
#[derive(Debug, PartialEq, Eq)]
pub struct VulnSymbol {
    /// The advisory that names it, if one does.
    pub advisory_id: Option<String>,
    pub crate_name: String,
    pub path: String,
    /// The versions in which it is vulnerable. None means all.
    pub version_reqs: Vec<VersionReq>,
}

/// A vulnerable symbol, as contracts see it.
pub struct Vuln {
    pub advisory_id: Option<Seq<char>>,
    pub crate_name: Seq<char>,
    pub path: Seq<char>,
    pub reqs: Seq<Seq<char>>,
}

/// The text of an id that may be missing, as contracts see it.
pub open spec fn id_view(id: Option<String>) -> Option<Seq<char>> {
    match id {
        Some(s) => Some(s@),
        None => None,
    }
}

impl View for VulnSymbol {
    type V = Vuln;

    open spec fn view(&self) -> Vuln {
        Vuln {
            advisory_id: id_view(self.advisory_id),
            crate_name: self.crate_name@,
            path: self.path@,
            reqs: reqs_view(self.version_reqs@),
        }
    }
}

/// A copy of an id that may be missing.
pub fn copy_id(id: &Option<String>) -> (r: Option<String>)
    ensures
        id_view(r) == id_view(*id),
{
    match id {
        Some(s) => Some(s.clone()),
        None => None,
    }
}

impl Clone for VulnSymbol {
    fn clone(&self) -> (r: Self)
        ensures
            r@ == self@,
    {
        VulnSymbol {
            advisory_id: copy_id(&self.advisory_id),
            crate_name: self.crate_name.clone(),
            path: self.path.clone(),
            version_reqs: copy_reqs(&self.version_reqs),
        }
    }
}

/// Why an advisory cannot be narrowed down.
#[derive(Debug, Clone, Copy, PartialEq, Eq, Structural)]
pub enum UnsupportedReason {
    NoAffectedFunctions,
}

/// An advisory that cannot be narrowed down.
#[derive(Debug, PartialEq, Eq)]
pub struct UnsupportedAdvisory {
    pub advisory_id: String,
    pub crate_name: String,
    pub reason: UnsupportedReason,
}

/// An advisory that cannot be narrowed down, as contracts see it.
pub struct Unsupported {
    pub advisory_id: Seq<char>,
    pub crate_name: Seq<char>,
    pub reason: UnsupportedReason,
}

impl View for UnsupportedAdvisory {
    type V = Unsupported;

    open spec fn view(&self) -> Unsupported {
        Unsupported {
            advisory_id: self.advisory_id@,
            crate_name: self.crate_name@,
            reason: self.reason,
        }
    }
}

/// Where vulnerable symbols come from.
#[derive(Debug, PartialEq, Eq)]
pub enum InputMode {
    AuditJson(PathBuf),
    AdvisoryId(String),
    DirectSymbol(String),
}

/// The input that a command line asks for. The first that is given counts.
pub fn input_mode(
    audit_json: Option<PathBuf>,
    advisory: Option<String>,
    symbol: Option<String>,
) -> (r: Option<InputMode>)
    ensures
        r == match audit_json {
            Some(p) => Some(InputMode::AuditJson(p)),
            None => match advisory {
                Some(id) => Some(InputMode::AdvisoryId(id)),
                None => match symbol {
                    Some(s) => Some(InputMode::DirectSymbol(s)),
                    None => None,
                },
            },
        },
{
    if let Some(p) = audit_json {
        return Some(InputMode::AuditJson(p));
    }
    if let Some(id) = advisory {
        return Some(InputMode::AdvisoryId(id));
    }
    match symbol {
        Some(s) => Some(InputMode::DirectSymbol(s)),
        None => None,
    }
}

/// What an input amounts to.
#[derive(Debug, PartialEq, Eq)]
pub struct InputResult {
    pub vuln_symbols: Vec<VulnSymbol>,
    pub unsupported: Vec<UnsupportedAdvisory>,
}

/// Vulnerable symbols, as contracts see them.
pub open spec fn vulns(v: Seq<VulnSymbol>) -> Seq<Vuln> {
    v.map_values(|s: VulnSymbol| s@)
}

/// Advisories that cannot be narrowed down, as contracts see them.
pub open spec fn unsupporteds(v: Seq<UnsupportedAdvisory>) -> Seq<Unsupported> {
    v.map_values(|u: UnsupportedAdvisory| u@)
}

/// Why an input could not be read.
#[derive(Debug, PartialEq, Eq)]
pub enum InputError {
    /// A text that is no report of `cargo audit`.
    NotAReport,
    /// A text that is no advisory id.
    NotAnAdvisoryId(String),
    /// A path of fewer than two segments, or with an empty one.
    NotASymbol(String),
    /// A text that is no version requirement.
    NotARequirement(String),
}

// ---------------------------------------------------------------------------------------
// Symbol paths
// ---------------------------------------------------------------------------------------
/// Whether a path has at least a crate and an item, and no empty segment.
pub open spec fn is_symbol_path(path: Seq<char>) -> bool {
    let segments = pieces(path, "::"@);
    segments.len() >= 2 && forall|i: int|
        0 <= i < segments.len() ==> (#[trigger] segments[i]).len() > 0
}

/// The input that a symbol path is.
pub fn collect_from_symbol(path: &str) -> (r: Result<InputResult, InputError>)
    ensures
        match r {
            Ok(out) => is_symbol_path(path@) && out.unsupported@.len() == 0 && vulns(
                out.vuln_symbols@,
            ) == seq![
                Vuln {
                    advisory_id: None,
                    crate_name: pieces(path@, "::"@)[0],
                    path: path@,
                    reqs: Seq::empty(),
                },
            ],
            Err(InputError::NotASymbol(t)) => !is_symbol_path(path@) && t@ == path@,
            Err(_) => false,
        },
{
    proof {
        reveal_strlit("::");
    }
    let c = chars_of(path);
    let segments = split_text(c.as_slice(), "::");
    let ghost all = pieces(path@, "::"@);
    if segments.len() < 2 {
        assert(all.len() == segments@.len());
        return Err(InputError::NotASymbol(path.to_owned()));
    }
    let mut i: usize = 0;
    while i < segments.len()
        invariant
            i <= segments@.len() == all.len(),
            all == pieces(path@, "::"@),
            forall|k: int| 0 <= k < all.len() ==> (#[trigger] segments@[k])@ == all[k],
            forall|k: int| 0 <= k < i ==> (#[trigger] all[k]).len() > 0,
        decreases segments.len() - i,
    {
        if segments[i].len() == 0 {
            assert(all[i as int].len() == 0);
            return Err(InputError::NotASymbol(path.to_owned()));
        }
        assert(all[i as int] == segments@[i as int]@);
        i = i + 1;
    }
    let sym = VulnSymbol {
        advisory_id: None,
        crate_name: string_of(segments[0].as_slice()),
        path: path.to_owned(),
        version_reqs: Vec::new(),
    };
    assert(reqs_view(sym.version_reqs@) =~= Seq::<Seq<char>>::empty());
    let mut vuln_symbols: Vec<VulnSymbol> = Vec::new();
    vuln_symbols.push(sym);
    assert(vulns(vuln_symbols@) =~= seq![sym@]);
    Ok(InputResult { vuln_symbols, unsupported: Vec::new() })
}

// ---------------------------------------------------------------------------------------
// Advisories
// ---------------------------------------------------------------------------------------
/// A function that an advisory names, with the texts of the versions in which it is affected.
#[derive(Debug)]
pub struct AffectedFunction {
    pub path: String,
    pub reqs: Vec<String>,
}

/// An advisory on a crate. Without a list of affected functions, or with an empty one, it
/// cannot be narrowed down.
#[derive(Debug)]
pub struct AdvisoryEntry {
    pub advisory_id: String,
    pub crate_name: String,
    pub functions: Option<Vec<AffectedFunction>>,
}

/// A function that an advisory names, as contracts see it.
pub type Function = (Seq<char>, Seq<Seq<char>>);

/// An advisory, as contracts see it.
pub type Entry = (Seq<char>, Seq<char>, Option<Seq<Function>>);

/// Functions, as contracts see them.
pub open spec fn functions_view(v: Seq<AffectedFunction>) -> Seq<Function> {
    v.map_values(|f: AffectedFunction| (f.path@, texts(f.reqs@)))
}

impl View for AdvisoryEntry {
    type V = Entry;

    open spec fn view(&self) -> Entry {
        (
            self.advisory_id@,
            self.crate_name@,
            match self.functions {
                Some(f) => Some(functions_view(f@)),
                None => None,
            },
        )
    }
}

/// Advisories, as contracts see them.
pub open spec fn entries_view(v: Seq<AdvisoryEntry>) -> Seq<Entry> {
    v.map_values(|e: AdvisoryEntry| e@)
}

/// The vulnerabilities that a report lists, as [`read_report`] gives them.
pub uninterp spec fn report_entries(text: Seq<char>) -> Option<
    Seq<(Seq<char>, Seq<char>, Option<Seq<(Seq<char>, Seq<Seq<char>>)>>)>,
>;

/// Whether a text is an advisory id, as [`is_advisory_id`] finds.
pub uninterp spec fn advisory_id_valid(text: Seq<char>) -> bool;

/// `serde_json::from_str` into a `rustsec::Report`: the listed vulnerabilities, each with the
/// id of its advisory, the name of its package, and the affected functions with the texts of
/// their version requirements. The outcome is a function of the text. It is read only where
/// version requirements of one list begin at different versions and leave room for a next
/// version, and where checksums are ASCII: on others the call may panic.
#[verifier::external_body]
fn read_report(text: &str) -> (r: Option<Vec<AdvisoryEntry>>)
    requires
        in_good_order(text@),
    ensures
        match r {
            Some(v) => report_entries(text@) == Some(entries_view(v@)),
            None => report_entries(text@) is None,
        },
{
    let report: rustsec::Report = serde_json::from_str(text).ok()?;
    let entries = report.vulnerabilities.list.iter().map(|v| AdvisoryEntry {
        advisory_id: v.advisory.id.to_string(),
        crate_name: v.package.name.to_string(),
        functions: v.affected.as_ref().map(|a| {
            a.functions.iter().map(|(path, reqs)| AffectedFunction {
                path: path.to_string(),
                reqs: reqs.iter().map(|req| req.to_string()).collect(),
            }).collect()
        }),
    });
    Some(entries.collect())
}

/// `parse` into a `rustsec::advisory::Id`: whether it accepts a text. That is a function of the
/// text.
#[verifier::external_body]
fn is_advisory_id(text: &str) -> (r: bool)
    ensures
        r == advisory_id_valid(text@),
{
    text.parse::<rustsec::advisory::Id>().is_ok()
}

/// Checks an advisory id before it is looked up.
pub fn check_advisory_id(text: &str) -> (r: Result<(), InputError>)
    ensures
        match r {
            Ok(_) => advisory_id_valid(text@),
            Err(InputError::NotAnAdvisoryId(t)) => !advisory_id_valid(text@) && t@ == text@,
            Err(_) => false,
        },
{
    if is_advisory_id(text) {
        Ok(())
    } else {
        Err(InputError::NotAnAdvisoryId(text.to_owned()))
    }
}

/// Whether an advisory names functions.
pub open spec fn names_functions(e: Entry) -> bool {
    e.2 matches Some(f) && f.len() > 0
}

/// The symbol that a function of an advisory is.
pub open spec fn symbol_of(e: Entry, f: Function) -> Vuln {
    Vuln { advisory_id: Some(e.0), crate_name: e.1, path: f.0, reqs: f.1 }
}

/// The symbols that an advisory names.
pub open spec fn symbols_of(e: Entry) -> Seq<Vuln> {
    if names_functions(e) {
        e.2->0.map_values(|f: Function| symbol_of(e, f))
    } else {
        Seq::empty()
    }
}

/// The symbols that advisories name, in order.
pub open spec fn all_symbols(es: Seq<Entry>) -> Seq<Vuln>
    decreases es.len(),
{
    if es.len() == 0 {
        Seq::empty()
    } else {
        all_symbols(es.drop_last()) + symbols_of(es.last())
    }
}

/// The advisories that name no function, in order.
pub open spec fn all_unsupported(es: Seq<Entry>) -> Seq<Unsupported>
    decreases es.len(),
{
    if es.len() == 0 {
        Seq::empty()
    } else if names_functions(es.last()) {
        all_unsupported(es.drop_last())
    } else {
        all_unsupported(es.drop_last()).push(
            Unsupported {
                advisory_id: es.last().0,
                crate_name: es.last().1,
                reason: UnsupportedReason::NoAffectedFunctions,
            },
        )
    }
}

/// Whether a text among those of an advisory is no version requirement.
pub open spec fn bad_text(e: Entry, t: Seq<char>) -> bool {
    names_functions(e) && exists|k: int, j: int|
        #![trigger e.2->0[k].1[j]]
        0 <= k < e.2->0.len() && 0 <= j < e.2->0[k].1.len() && e.2->0[k].1[j] == t && req_text(t)
            is None
}

/// Whether all version requirements of an advisory are in order.
pub open spec fn reqs_in_order(e: Entry) -> bool {
    forall|t: Seq<char>| !#[trigger] bad_text(e, t)
}

/// Takes up an advisory.
pub fn push_from_advisory(entry: &AdvisoryEntry, out: &mut InputResult) -> (r: Result<
    (),
    InputError,
>)
    ensures
        match r {
            Ok(_) => reqs_in_order(entry@) && vulns(final(out).vuln_symbols@) == vulns(
                old(out).vuln_symbols@,
            ) + symbols_of(entry@) && unsupporteds(final(out).unsupported@) == if names_functions(
                entry@,
            ) {
                unsupporteds(old(out).unsupported@)
            } else {
                unsupporteds(old(out).unsupported@).push(
                    Unsupported {
                        advisory_id: entry@.0,
                        crate_name: entry@.1,
                        reason: UnsupportedReason::NoAffectedFunctions,
                    },
                )
            },
            Err(InputError::NotARequirement(t)) => bad_text(entry@, t@),
            Err(_) => false,
        },
{
    let ghost e = entry@;
    let ghost before = vulns(out.vuln_symbols@);
    let ghost apart = unsupporteds(out.unsupported@);
    if let Some(functions) = &entry.functions {
        if functions.len() > 0 {
            let ghost fs = functions_view(functions@);
            let ghost all = symbols_of(e);
            let mut i: usize = 0;
            assert(before + all.take(0) =~= before);
            while i < functions.len()
                invariant
                    i <= functions@.len(),
                    functions@.len() > 0,
                    e == entry@,
                    e.2 == Some(fs),
                    fs == functions_view(functions@),
                    all == symbols_of(e),
                    vulns(out.vuln_symbols@) == before + all.take(i as int),
                    unsupporteds(out.unsupported@) == apart,
                    forall|k: int, j: int|
                        #![trigger fs[k].1[j]]
                        0 <= k < i && 0 <= j < fs[k].1.len() ==> req_text(fs[k].1[j]) is Some,
                decreases functions.len() - i,
            {
                let f = &functions[i];
                assert(fs[i as int] == (f.path@, texts(f.reqs@)));
                let reqs = match parse_reqs(&f.reqs) {
                    Ok(v) => v,
                    Err(t) => {
                        proof {
                            let j = choose|j: int|
                                0 <= j < f.reqs@.len() && (#[trigger] f.reqs@[j])@ == t@
                                    && req_text(f.reqs@[j]@) is None;
                            assert(fs[i as int].1[j] == t@);
                            assert(e.2->0[i as int].1[j] == t@);
                        }
                        return Err(InputError::NotARequirement(t));
                    },
                };
                let sym = VulnSymbol {
                    advisory_id: Some(entry.advisory_id.clone()),
                    crate_name: entry.crate_name.clone(),
                    path: f.path.clone(),
                    version_reqs: reqs,
                };
                let ghost had = out.vuln_symbols@;
                out.vuln_symbols.push(sym);
                proof {
                    assert(sym@ == all[i as int]);
                    assert(vulns(out.vuln_symbols@) =~= vulns(had).push(all[i as int]));
                    assert(all.take(i + 1) =~= all.take(i as int).push(all[i as int]));
                    assert(vulns(out.vuln_symbols@) =~= before + all.take(i + 1));
                    assert forall|j: int| 0 <= j < fs[i as int].1.len() implies req_text(
                        #[trigger] fs[i as int].1[j],
                    ) is Some by {
                        assert(fs[i as int].1[j] == f.reqs@[j]@);
                    }
                }
                i = i + 1;
            }
            assert(all.take(i as int) =~= all);
            return Ok(());
        }
    }
    let ghost had = out.unsupported@;
    let u = UnsupportedAdvisory {
        advisory_id: entry.advisory_id.clone(),
        crate_name: entry.crate_name.clone(),
        reason: UnsupportedReason::NoAffectedFunctions,
    };
    out.unsupported.push(u);
    proof {
        assert(unsupporteds(out.unsupported@) =~= unsupporteds(had).push(u@));
        assert(before + Seq::<Vuln>::empty() =~= before);
    }
    Ok(())
}

/// What comes of advisories: the functions that they name and the advisories that name none,
/// or the first text that should be a version requirement and is not.
pub open spec fn collected(es: Seq<Entry>, r: Result<InputResult, InputError>) -> bool {
    match r {
        Ok(out) => {
            &&& vulns(out.vuln_symbols@) == all_symbols(es)
            &&& unsupporteds(out.unsupported@) == all_unsupported(es)
            &&& forall|i: int| 0 <= i < es.len() ==> reqs_in_order(#[trigger] es[i])
        },
        Err(InputError::NotARequirement(t)) => exists|i: int|
            0 <= i < es.len() && bad_text(#[trigger] es[i], t@) && forall|j: int|
                0 <= j < i ==> reqs_in_order(#[trigger] es[j]),
        Err(_) => false,
    }
}

/// The input that advisories amount to.
pub fn collect_from_entries(entries: &Vec<AdvisoryEntry>) -> (r: Result<InputResult, InputError>)
    ensures
        collected(entries_view(entries@), r),
{
    let ghost all = entries_view(entries@);
    let mut out = InputResult { vuln_symbols: Vec::new(), unsupported: Vec::new() };
    let mut i: usize = 0;
    assert(all.take(0) =~= Seq::<Entry>::empty());
    assert(vulns(out.vuln_symbols@) =~= Seq::<Vuln>::empty());
    assert(unsupporteds(out.unsupported@) =~= Seq::<Unsupported>::empty());
    while i < entries.len()
        invariant
            i <= entries@.len(),
            all == entries_view(entries@),
            vulns(out.vuln_symbols@) == all_symbols(all.take(i as int)),
            unsupporteds(out.unsupported@) == all_unsupported(all.take(i as int)),
            forall|k: int| 0 <= k < i ==> reqs_in_order(#[trigger] all[k]),
        decreases entries.len() - i,
    {
        proof {
            assert(all.take(i + 1).drop_last() =~= all.take(i as int));
            assert(all.take(i + 1).last() == all[i as int]);
            assert(all[i as int] == entries@[i as int]@);
        }
        if let Err(e) = push_from_advisory(&entries[i], &mut out) {
            return Err(e);
        }
        i = i + 1;
    }
    assert(all.take(i as int) =~= all);
    Ok(out)
}

/// The input that a report of `cargo audit --json` is. A report that its reader cannot take
/// apart is none.
pub fn collect_from_audit_json(content: &str) -> (r: Result<InputResult, InputError>)
    ensures
        if in_good_order(content@) {
            match report_entries(content@) {
                None => r matches Err(InputError::NotAReport),
                Some(es) => collected(es, r),
            }
        } else {
            r matches Err(InputError::NotAReport)
        },
{
    if !is_in_good_order(content) {
        return Err(InputError::NotAReport);
    }
    match read_report(content) {
        None => Err(InputError::NotAReport),
        Some(entries) => collect_from_entries(&entries),
    }
}

/// Every advisory ends up in exactly one of the two lists: an advisory that names functions
/// gives a symbol for each of them, and any other is listed as unsupported.
pub proof fn every_advisory_is_accounted_for(es: Seq<Entry>)
    ensures
        all_symbols(es).len() == function_total(es),
        all_unsupported(es).len() == es.len() - supported_total(es),
        forall|i: int|
            0 <= i < es.len() ==> (symbols_of(#[trigger] es[i]).len() == 0 <==> !names_functions(
                es[i],
            )),
    decreases es.len(),
{
    if es.len() > 0 {
        every_advisory_is_accounted_for(es.drop_last());
        assert forall|i: int| 0 <= i < es.len() implies (symbols_of(#[trigger] es[i]).len() == 0
            <==> !names_functions(es[i])) by {}
    }
}

/// The number of functions that advisories name.
pub open spec fn function_total(es: Seq<Entry>) -> nat
    decreases es.len(),
{
    if es.len() == 0 {
        0
    } else if names_functions(es.last()) {
        function_total(es.drop_last()) + es.last().2->0.len()
    } else {
        function_total(es.drop_last())
    }
}

/// The number of advisories that name functions.
pub open spec fn supported_total(es: Seq<Entry>) -> nat
    decreases es.len(),
{
    if es.len() == 0 {
        0
    } else if names_functions(es.last()) {
        supported_total(es.drop_last()) + 1
    } else {
        supported_total(es.drop_last())
    }
}

/// The symbols of two rows of advisories put together are those of the one and then those of
/// the other, and so are the advisories that cannot be narrowed down.
pub proof fn advisories_are_taken_one_by_one(a: Seq<Entry>, b: Seq<Entry>)
    ensures
        all_symbols(a + b) == all_symbols(a) + all_symbols(b),
        all_unsupported(a + b) == all_unsupported(a) + all_unsupported(b),
    decreases b.len(),
{
    if b.len() == 0 {
        assert(a + b =~= a);
        assert(all_symbols(a) + all_symbols(b) =~= all_symbols(a));
        assert(all_unsupported(a) + all_unsupported(b) =~= all_unsupported(a));
    } else {
        assert((a + b).drop_last() =~= a + b.drop_last());
        advisories_are_taken_one_by_one(a, b.drop_last());
        assert(all_symbols(a + b) =~= all_symbols(a) + all_symbols(b));
        assert(all_unsupported(a + b) =~= all_unsupported(a) + all_unsupported(b));
    }
}

/// An advisory gives one symbol for each function that it names, in order, with its own number,
/// its package, the path of the function and the versions that are affected. One that names none
/// gives no symbol and is set apart.
pub proof fn every_function_of_an_advisory_is_a_symbol(e: Entry)
    ensures
        e.2 is Some && e.2->0.len() > 0 ==> all_symbols(seq![e]).len() == e.2->0.len()
            && all_unsupported(seq![e]).len() == 0 && forall|k: int|
            0 <= k < e.2->0.len() ==> (#[trigger] all_symbols(seq![e])[k]) == (Vuln {
                advisory_id: Some(e.0),
                crate_name: e.1,
                path: e.2->0[k].0,
                reqs: e.2->0[k].1,
            }),
        e.2 is None || e.2->0.len() == 0 ==> all_symbols(seq![e]).len() == 0 && all_unsupported(
            seq![e],
        ) == seq![
            Unsupported {
                advisory_id: e.0,
                crate_name: e.1,
                reason: UnsupportedReason::NoAffectedFunctions,
            },
        ],
{
    let row = seq![e];
    assert(row.drop_last() =~= Seq::<Entry>::empty());
    assert(all_symbols(row.drop_last()) =~= Seq::<Vuln>::empty());
    assert(all_unsupported(row.drop_last()) =~= Seq::<Unsupported>::empty());
    assert(all_symbols(row) =~= symbols_of(e));
    if names_functions(e) {
        assert(all_unsupported(row) =~= Seq::<Unsupported>::empty());
    } else {
        assert(all_unsupported(row) =~= seq![
            Unsupported {
                advisory_id: e.0,
                crate_name: e.1,
                reason: UnsupportedReason::NoAffectedFunctions,
            },
        ]);
    }
}

/// An advisory that names functions is refused exactly where one of the requirements on their
/// versions is none.
pub proof fn bad_requirements_are_those_that_do_not_parse(e: Entry)
    ensures
        reqs_in_order(e) <==> !(e.2 is Some && exists|k: int, j: int|
            #![trigger e.2->0[k].1[j]]
            0 <= k < e.2->0.len() && 0 <= j < e.2->0[k].1.len() && req_text(e.2->0[k].1[j])
                is None),
{
    if e.2 is Some && exists|k: int, j: int|
        #![trigger e.2->0[k].1[j]]
        0 <= k < e.2->0.len() && 0 <= j < e.2->0[k].1.len() && req_text(e.2->0[k].1[j]) is None {
        let (k, j) = choose|k: int, j: int|
            #![trigger e.2->0[k].1[j]]
            0 <= k < e.2->0.len() && 0 <= j < e.2->0[k].1.len() && req_text(e.2->0[k].1[j]) is None;
        assert(bad_text(e, e.2->0[k].1[j]));
    }
}

/// What comes of collecting: the symbols of all advisories and the advisories set apart, one for
/// one and in order, or a text that is no requirement.
pub proof fn collecting_leaves_nothing_out(es: Seq<Entry>, out: InputResult, e: InputError)
    ensures
        collected(es, Ok(out)) ==> out.vuln_symbols@.len() == all_symbols(es).len() && (forall|
            i: int,
        |
            0 <= i < out.vuln_symbols@.len() ==> (#[trigger] out.vuln_symbols@[i])@
                == all_symbols(es)[i]) && out.unsupported@.len() == all_unsupported(es).len() && (
        forall|i: int|
            0 <= i < out.unsupported@.len() ==> (#[trigger] out.unsupported@[i])@
                == all_unsupported(es)[i]) && forall|i: int|
            0 <= i < es.len() ==> reqs_in_order(#[trigger] es[i]),
        collected(es, Err(e)) ==> e is NotARequirement && exists|i: int|
            0 <= i < es.len() && !reqs_in_order(#[trigger] es[i]),
{
    if collected(es, Ok(out)) {
        assert forall|i: int| 0 <= i < out.vuln_symbols@.len() implies (
        #[trigger] out.vuln_symbols@[i])@ == all_symbols(es)[i] by {
            assert(vulns(out.vuln_symbols@)[i] == all_symbols(es)[i]);
        }
        assert forall|i: int| 0 <= i < out.unsupported@.len() implies (
        #[trigger] out.unsupported@[i])@ == all_unsupported(es)[i] by {
            assert(unsupporteds(out.unsupported@)[i] == all_unsupported(es)[i]);
        }
        assert(vulns(out.vuln_symbols@).len() == all_symbols(es).len());
        assert(unsupporteds(out.unsupported@).len() == all_unsupported(es).len());
    }
    if collected(es, Err(e)) {
        if let InputError::NotARequirement(t) = e {
            let i = choose|i: int|
                0 <= i < es.len() && bad_text(#[trigger] es[i], t@) && forall|j: int|
                    0 <= j < i ==> reqs_in_order(#[trigger] es[j]);
            assert(!reqs_in_order(es[i]));
        }
    }
}

/// A path names a symbol exactly where it has two segments or more, none of them empty: put
/// together with `::` between them they are the path, and none holds a `::`.
pub proof fn symbol_paths_have_two_segments(path: Seq<char>)
    ensures
        is_symbol_path(path) ==> pieces(path, "::"@).len() >= 2 && joined(
            pieces(path, "::"@),
            "::"@,
        ) == path && forall|i: int|
            0 <= i < pieces(path, "::"@).len() ==> (#[trigger] pieces(path, "::"@)[i]).len() > 0
                && !contains_text(pieces(path, "::"@)[i], "::"@),
        !is_symbol_path(path) ==> pieces(path, "::"@).len() < 2 || exists|i: int|
            0 <= i < pieces(path, "::"@).len() && (#[trigger] pieces(path, "::"@)[i]).len() == 0,
{
    reveal_strlit("::");
    pieces_join_back(path, "::"@);
    assert forall|i: int| 0 <= i < pieces(path, "::"@).len() implies !contains_text(
        #[trigger] pieces(path, "::"@)[i],
        "::"@,
    ) by {
        pieces_hold_no_separator_text(path, "::"@, i);
    }
}

/// Symbols and advisories are seen whole, one for one and in order.
pub proof fn inputs_are_seen_whole(
    v: Seq<VulnSymbol>,
    u: Seq<UnsupportedAdvisory>,
    f: Seq<AffectedFunction>,
    e: AdvisoryEntry,
)
    ensures
        vulns(v).len() == v.len(),
        forall|i: int|
            #![trigger vulns(v)[i]]
            0 <= i < v.len() ==> (vulns(v)[i].advisory_id is Some <==> v[i].advisory_id is Some) && (
            v[i].advisory_id is Some ==> vulns(v)[i].advisory_id->0 == v[i].advisory_id->0@)
                && vulns(v)[i].crate_name == v[i].crate_name@ && vulns(v)[i].path == v[i].path@
                && vulns(v)[i].reqs.len() == v[i].version_reqs@.len() && forall|k: int|
                0 <= k < v[i].version_reqs@.len() ==> #[trigger] vulns(v)[i].reqs[k]
                    == v[i].version_reqs@[k]@,
        unsupporteds(u).len() == u.len(),
        forall|i: int|
            #![trigger unsupporteds(u)[i]]
            0 <= i < u.len() ==> unsupporteds(u)[i].advisory_id == u[i].advisory_id@
                && unsupporteds(u)[i].crate_name == u[i].crate_name@ && unsupporteds(u)[i].reason
                == u[i].reason,
        functions_view(f).len() == f.len(),
        forall|i: int|
            #![trigger functions_view(f)[i]]
            0 <= i < f.len() ==> functions_view(f)[i].0 == f[i].path@ && functions_view(
                f,
            )[i].1.len() == f[i].reqs@.len() && forall|k: int|
                0 <= k < f[i].reqs@.len() ==> #[trigger] functions_view(f)[i].1[k]
                    == f[i].reqs@[k]@,
        e@.0 == e.advisory_id@ && e@.1 == e.crate_name@ && (e@.2 is Some <==> e.functions is Some)
            && (e.functions is Some ==> e@.2->0 == functions_view(e.functions->0@)),
        entries_view(seq![e]) == seq![e@],
{
    assert(entries_view(seq![e]) =~= seq![e@]);
}

} // verus!
