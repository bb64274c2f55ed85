//! From vulnerable symbols to places in the source of the crates that define them.
//!
//! For each crate a small probe crate is written that mentions the symbols, one in a line, and
//! a language server is asked where each is defined.

use crate::cve::input::{vulns, Vuln, VulnSymbol};
use crate::cve::version::{
    affected_version, req_matches, version_before, version_matches, version_valid, Version,
};
use crate::lines::{end_lines, ended, ended_lines_read_back, is_line};
use crate::lsp::{
    extract_definition_location, first_location, FoundLocation, LocationResponse, RequestFailure,
};
use crate::order::views;
use crate::path::{Part, PathBuf};
use crate::sorting::{by_name, sort_by_name, sorting_keeps_what_is_read_off, Named};
use crate::text::{
    behind_last, behind_last_props, chars_of, contains_text, find_last_end, lines_of, occurs_at,
    same_text, string_of, texts,
};
use crate::types::Position;
use vstd::multiset::Multiset;
use vstd::prelude::*;
use vstd::utf8::{encode_utf8, is_ascii_chars, is_ascii_chars_encode_utf8};

verus! {

// ---------------------------------------------------------------------------------------
// The probe crate
// ---------------------------------------------------------------------------------------
/// The name of the directory of a probe crate.
pub open spec fn probe_name(crate_name: Seq<char>, version: Option<Seq<char>>) -> Seq<char> {
    "probe-"@ + crate_name + "-"@ + match version {
        Some(v) => v,
        None => "any"@,
    }
}

/// A version that may be missing, as contracts see it.
pub open spec fn label(version: Option<&str>) -> Option<Seq<char>> {
    match version {
        Some(v) => Some(v@),
        None => None,
    }
}

/// The name of the directory of a probe crate.
pub fn probe_dir_name(crate_name: &str, version: Option<&str>) -> (r: String)
    ensures
        r@ == probe_name(crate_name@, label(version)),
{
    let mut out = "probe-".to_owned();
    out.append(crate_name);
    out.append("-");
    match version {
        Some(v) => out.append(v),
        None => out.append("any"),
    }
    out
}

/// The versions that a probe crate may depend on: one exactly, or any where none is known.
pub open spec fn requirement(version: Option<Seq<char>>) -> Seq<char> {
    match version {
        Some(v) => "="@ + v,
        None => "*"@,
    }
}

/// The lines of the manifest of a probe crate.
pub open spec fn manifest_rows(crate_name: Seq<char>, version: Option<Seq<char>>) -> Seq<
    Seq<char>,
> {
    seq![
        "[package]"@,
        "name = \"dokono-cve-probe\""@,
        "version = \"0.0.1\""@,
        "edition = \"2021\""@,
        ""@,
        "[dependencies]"@,
        crate_name + " = \""@ + requirement(version) + "\""@,
        ""@,
        "[workspace]"@,
    ]
}

/// The manifest of a probe crate.
pub fn probe_manifest(crate_name: &str, version: Option<&str>) -> (r: String)
    ensures
        r@ == ended(manifest_rows(crate_name@, label(version))),
{
    let mut dep = crate_name.to_owned();
    dep.append(" = \"");
    match version {
        Some(v) => {
            dep.append("=");
            dep.append(v);
        },
        None => dep.append("*"),
    }
    assert(dep@ =~= crate_name@ + " = \""@ + requirement(label(version)));
    dep.append("\"");
    let mut rows: Vec<String> = Vec::new();
    rows.push("[package]".to_owned());
    rows.push("name = \"dokono-cve-probe\"".to_owned());
    rows.push("version = \"0.0.1\"".to_owned());
    rows.push("edition = \"2021\"".to_owned());
    rows.push("".to_owned());
    rows.push("[dependencies]".to_owned());
    rows.push(dep);
    rows.push("".to_owned());
    rows.push("[workspace]".to_owned());
    assert(texts(rows@) =~= manifest_rows(crate_name@, label(version)));
    end_lines(&rows)
}

/// What stands before a symbol in its line.
pub open spec fn mention() -> Seq<char> {
    "    let _ = "@
}

/// The line that mentions a symbol.
pub open spec fn mention_row(path: Seq<char>) -> Seq<char> {
    mention() + path + ";"@
}

/// The lines of the source file of a probe crate.
pub open spec fn probe_rows(paths: Seq<Seq<char>>) -> Seq<Seq<char>> {
    seq!["#![allow(unused, dead_code, clippy::all)]"@, "fn __dokono_cve_probe() {"@]
        + paths.map_values(|p: Seq<char>| mention_row(p)) + seq!["}"@]
}

/// The paths of symbols.
pub open spec fn paths_of(symbols: Seq<VulnSymbol>) -> Seq<Seq<char>> {
    symbols.map_values(|s: VulnSymbol| s.path@)
}

/// The source file of a probe crate.
pub fn build_probe_main(symbols: &Vec<VulnSymbol>) -> (r: String)
    ensures
        r@ == ended(probe_rows(paths_of(symbols@))),
{
    let ghost all = paths_of(symbols@);
    let ghost head = seq![
        "#![allow(unused, dead_code, clippy::all)]"@,
        "fn __dokono_cve_probe() {"@,
    ];
    let mut rows: Vec<String> = Vec::new();
    rows.push("#![allow(unused, dead_code, clippy::all)]".to_owned());
    rows.push("fn __dokono_cve_probe() {".to_owned());
    let mut i: usize = 0;
    assert(texts(rows@) =~= head + all.take(0).map_values(|p: Seq<char>| mention_row(p)));
    while i < symbols.len()
        invariant
            i <= symbols@.len(),
            all == paths_of(symbols@),
            texts(rows@) == head + all.take(i as int).map_values(|p: Seq<char>| mention_row(p)),
        decreases symbols.len() - i,
    {
        let ghost had = texts(rows@);
        let mut row = "    let _ = ".to_owned();
        row.append(symbols[i].path.as_str());
        row.append(";");
        let ghost shown = row@;
        rows.push(row);
        proof {
            assert(shown == mention_row(all[i as int]));
            assert(texts(rows@) =~= had.push(shown));
            assert(all.take(i + 1).map_values(|p: Seq<char>| mention_row(p)) =~= all.take(
                i as int,
            ).map_values(|p: Seq<char>| mention_row(p)).push(shown));
        }
        i = i + 1;
    }
    let ghost had = texts(rows@);
    rows.push("}".to_owned());
    proof {
        assert(all.take(i as int) =~= all);
        assert(texts(rows@) =~= had.push("}"@));
        assert(texts(rows@) =~= probe_rows(all));
    }
    end_lines(&rows)
}

/// Where the last segment of a path starts, in bytes.
pub open spec fn leaf_start(path: Seq<char>) -> nat {
    encode_utf8(path.take(behind_last(path, "::"@))).len()
}

/// Whether the place of a symbol in the source file of a probe crate fits into a position.
pub open spec fn position_fits(index: int, path: Seq<char>) -> bool {
    index + 2 <= u32::MAX && leaf_start(path) + 12 <= u32::MAX
}

/// The place of the last segment of a symbol in the source file of a probe crate: the symbol
/// with the given index has the third line or a later one, and its path comes behind twelve
/// characters. Columns count bytes.
pub fn symbol_position_in_probe(index: usize, path: &str) -> (r: Position)
    requires
        position_fits(index as int, path@),
    ensures
        r.line == index + 2,
        r.character == leaf_start(path@) + 12,
{
    let c = chars_of(path);
    let k = find_last_end(c.as_slice(), "::");
    let head = string_of(&c[0..k]);
    assert(head@ =~= path@.take(k as int));
    let width: usize = head.as_str().len();
    Position { line: index as u32 + 2, character: width as u32 + 12 }
}

proof fn widths_add(a: Seq<char>, b: Seq<char>)
    ensures
        encode_utf8(a + b).len() == encode_utf8(a).len() + encode_utf8(b).len(),
    decreases a.len(),
{
    if a.len() == 0 {
        assert(a + b =~= b);
    } else {
        assert((a + b).drop_first() =~= a.drop_first() + b);
        widths_add(a.drop_first(), b);
    }
}

proof fn mention_width()
    ensures
        mention().len() == 12,
        encode_utf8(mention()).len() == 12,
        !mention().contains('\n'),
{
    reveal_strlit("    let _ = ");
    assert(is_ascii_chars(mention()));
    is_ascii_chars_encode_utf8(mention());
}

proof fn mention_row_is_line(path: Seq<char>)
    requires
        !path.contains('\n'),
    ensures
        is_line(mention_row(path)),
{
    reveal_strlit(";");
    mention_width();
    let row = mention_row(path);
    assert forall|k: int| 0 <= k < row.len() implies row[k] != '\n' by {
        if k < 12 {
            assert(row[k] == mention()[k]);
        } else if k < 12 + path.len() {
            assert(row[k] == path[k - 12]);
        }
    }
}

/// The position of a symbol in the source file of a probe crate points at the last segment of
/// its path: the line is the one that mentions the symbol, as many bytes stand before the
/// column as it says, and behind it stands the rest of the path, with no `::` in it.
pub proof fn positions_point_at_leaves(paths: Seq<Seq<char>>, index: int)
    requires
        0 <= index < paths.len(),
        forall|i: int| 0 <= i < paths.len() ==> !(#[trigger] paths[i]).contains('\n'),
    ensures
        ({
            let path = paths[index];
            let rows = lines_of(ended(probe_rows(paths)));
            let before = behind_last(path, "::"@);
            let column = mention().len() + before;
            &&& rows.len() == paths.len() + 3
            &&& rows[index + 2] == mention_row(path)
            &&& encode_utf8(rows[index + 2].take(column as int)).len() == leaf_start(path) + 12
            &&& rows[index + 2].skip(column as int) == path.skip(before) + ";"@
            &&& !contains_text(path.skip(before), "::"@)
        }),
{
    let path = paths[index];
    let rows = probe_rows(paths);
    let before = behind_last(path, "::"@);
    reveal_strlit("#![allow(unused, dead_code, clippy::all)]");
    reveal_strlit("fn __dokono_cve_probe() {");
    reveal_strlit("}");
    reveal_strlit("::");
    reveal_strlit(";");
    mention_width();
    assert forall|i: int| 0 <= i < rows.len() implies is_line(#[trigger] rows[i]) by {
        if 2 <= i < paths.len() + 2 {
            assert(rows[i] == mention_row(paths[i - 2]));
            mention_row_is_line(paths[i - 2]);
        }
    }
    ended_lines_read_back(rows);
    assert(rows[index + 2] == mention_row(path));
    behind_last_props(path, "::"@);
    let column = mention().len() + before;
    assert(mention_row(path).take(column as int) =~= mention() + path.take(before));
    widths_add(mention(), path.take(before));
    assert(mention_row(path).skip(column as int) =~= path.skip(before) + ";"@);
    let leaf = path.skip(before);
    assert forall|i: int| !occurs_at(leaf, "::"@, i) by {
        if occurs_at(leaf, "::"@, i) {
            assert(path.subrange(before + i, before + i + 2) =~= leaf.subrange(i, i + 2));
            assert(!occurs_at(path, "::"@, before + i + 2 - "::"@.len()));
        }
    }
}

// ---------------------------------------------------------------------------------------
// Versions in use
// ---------------------------------------------------------------------------------------
/// Packages with their versions, as contracts see them.
pub type Packages = Seq<(Seq<char>, Seq<char>)>;

/// Packages with their versions.
pub open spec fn packages_view(v: Seq<(String, String)>) -> Packages {
    v.map_values(|p: (String, String)| (p.0@, p.1@))
}

/// The version of a package that is in use: the lowest of those listed.
pub open spec fn in_use(packages: Packages, name: Seq<char>) -> Option<Seq<char>>
    decreases packages.len(),
{
    if packages.len() == 0 {
        None
    } else {
        let earlier = in_use(packages.drop_last(), name);
        let (n, v) = packages.last();
        if n != name {
            earlier
        } else {
            match earlier {
                None => Some(v),
                Some(lowest) => if version_before(v, lowest) {
                    Some(v)
                } else {
                    Some(lowest)
                },
            }
        }
    }
}

/// The version that stands first for a name.
pub open spec fn version_of(v: Seq<(String, Version)>, name: Seq<char>) -> Option<Seq<char>>
    decreases v.len(),
{
    if v.len() == 0 {
        None
    } else if v[0].0@ == name {
        Some(v[0].1@)
    } else {
        version_of(v.drop_first(), name)
    }
}

proof fn version_of_found(v: Seq<(String, Version)>, name: Seq<char>, i: int)
    requires
        0 <= i < v.len(),
        v[i].0@ == name,
        forall|k: int| 0 <= k < i ==> (#[trigger] v[k]).0@ != name,
    ensures
        version_of(v, name) == Some(v[i].1@),
    decreases v.len(),
{
    if i > 0 {
        assert(v[0].0@ != name);
        let r = v.drop_first();
        assert(r[i - 1] == v[i]);
        assert forall|k: int| 0 <= k < i - 1 implies (#[trigger] r[k]).0@ != name by {
            assert(r[k] == v[k + 1]);
        }
        version_of_found(r, name, i - 1);
    }
}

proof fn version_of_none(v: Seq<(String, Version)>, name: Seq<char>)
    requires
        forall|k: int| 0 <= k < v.len() ==> (#[trigger] v[k]).0@ != name,
    ensures
        version_of(v, name) is None,
    decreases v.len(),
{
    if v.len() > 0 {
        assert(v[0].0@ != name);
        let r = v.drop_first();
        assert forall|k: int| 0 <= k < r.len() implies (#[trigger] r[k]).0@ != name by {
            assert(r[k] == v[k + 1]);
        }
        version_of_none(r, name);
    }
}

/// A change of the first entry for a name changes the version of that name alone.
proof fn version_of_update(
    v: Seq<(String, Version)>,
    i: int,
    entry: (String, Version),
    name: Seq<char>,
)
    requires
        0 <= i < v.len(),
        entry.0@ == v[i].0@,
        forall|k: int| 0 <= k < i ==> (#[trigger] v[k]).0@ != v[i].0@,
    ensures
        version_of(v.update(i, entry), name) == if name == entry.0@ {
            Some(entry.1@)
        } else {
            version_of(v, name)
        },
    decreases v.len(),
{
    let w = v.update(i, entry);
    if i == 0 {
        assert(w.drop_first() =~= v.drop_first());
    } else {
        assert(v[0].0@ != v[i].0@);
        let r = v.drop_first();
        assert(w.drop_first() =~= r.update(i - 1, entry));
        assert(r[i - 1] == v[i]);
        assert forall|k: int| 0 <= k < i - 1 implies (#[trigger] r[k]).0@ != r[i - 1].0@ by {
            assert(r[k] == v[k + 1]);
        }
        version_of_update(r, i - 1, entry, name);
    }
}

/// A new entry behind the others counts where none of them has its name.
proof fn version_of_push(v: Seq<(String, Version)>, entry: (String, Version), name: Seq<char>)
    ensures
        version_of(v.push(entry), name) == match version_of(v, name) {
            Some(x) => Some(x),
            None => if name == entry.0@ {
                Some(entry.1@)
            } else {
                None
            },
        },
    decreases v.len(),
{
    let w = v.push(entry);
    if v.len() > 0 {
        assert(w.drop_first() =~= v.drop_first().push(entry));
        version_of_push(v.drop_first(), entry, name);
    } else {
        assert(w.drop_first() =~= v);
    }
}

/// The index of the first entry for a name, or the number of entries.
fn find_version(v: &Vec<(String, Version)>, name: &str) -> (r: usize)
    ensures
        r <= v@.len(),
        r < v@.len() ==> v@[r as int].0@ == name@,
        forall|k: int| 0 <= k < r ==> (#[trigger] v@[k]).0@ != name@,
        version_of(v@, name@) == if r < v@.len() {
            Some(v@[r as int].1@)
        } else {
            None
        },
{
    let mut i: usize = 0;
    while i < v.len()
        invariant
            i <= v@.len(),
            forall|k: int| 0 <= k < i ==> (#[trigger] v@[k]).0@ != name@,
        decreases v.len() - i,
    {
        if same_text(v[i].0.as_str(), name) {
            proof {
                version_of_found(v@, name@, i as int);
            }
            return i;
        }
        i = i + 1;
    }
    proof {
        version_of_none(v@, name@);
    }
    i
}

/// Whether no listed version of a package is lower than the one that stands for it.
pub open spec fn lowest(packages: Packages, versions: Seq<(String, Version)>) -> bool {
    forall|i: int|
        0 <= i < packages.len() ==> {
            let (name, version) = #[trigger] packages[i];
            version_of(versions, name) matches Some(v) && !version_before(version, v)
        }
}

/// The versions in use of the packages of a workspace: of each package the lowest. Gives the
/// first text that is no version, if there is one.
pub fn workspace_dep_versions(packages: &Vec<(String, String)>) -> (r: Result<
    Vec<(String, Version)>,
    String,
>)
    ensures
        match r {
            Ok(out) => {
                &&& forall|name: Seq<char>| #[trigger]
                    version_of(out@, name) == in_use(packages_view(packages@), name)
                &&& lowest(packages_view(packages@), out@)
                &&& forall|i: int|
                    0 <= i < packages@.len() ==> {
                        let (name, version) = #[trigger] packages@[i];
                        version_of(out@, name@) matches Some(v) && !version_before(version@, v)
                    }
                &&& forall|i: int|
                    0 <= i < packages@.len() ==> version_valid((#[trigger] packages@[i]).1@)
            },
            Err(t) => exists|i: int|
                0 <= i < packages@.len() && (#[trigger] packages@[i]).1@ == t@ && !version_valid(t@)
                    && forall|j: int|
                    0 <= j < i ==> version_valid((#[trigger] packages@[j]).1@),
        },
{
    let ghost all = packages_view(packages@);
    let mut out: Vec<(String, Version)> = Vec::new();
    let mut i: usize = 0;
    assert(all.take(0) =~= Seq::<(Seq<char>, Seq<char>)>::empty());
    while i < packages.len()
        invariant
            i <= packages@.len(),
            all == packages_view(packages@),
            forall|k: int| 0 <= k < i ==> version_valid((#[trigger] packages@[k]).1@),
            forall|name: Seq<char>| #[trigger]
                version_of(out@, name) == in_use(all.take(i as int), name),
            lowest(all.take(i as int), out@),
        decreases packages.len() - i,
    {
        let ghost had = out@;
        let ghost now = all.take(i as int);
        let ghost next = all.take(i + 1);
        proof {
            assert(next.drop_last() =~= all.take(i as int));
            assert(next.last() == (packages@[i as int].0@, packages@[i as int].1@));
        }
        let version = match Version::parse(packages[i].1.as_str()) {
            Some(v) => v,
            None => {
                return Err(packages[i].1.clone());
            },
        };
        let ghost shown = version@;
        let at = find_version(&out, packages[i].0.as_str());
        if at == out.len() {
            let entry = (packages[i].0.clone(), version);
            let ghost e = entry;
            out.push(entry);
            proof {
                assert forall|name: Seq<char>| #[trigger] version_of(out@, name) == in_use(
                    next,
                    name,
                ) by {
                    version_of_push(had, e, name);
                    assert(version_of(had, name) == in_use(all.take(i as int), name));
                }
                assert forall|k: int| 0 <= k < next.len() implies ({
                    let (name, version) = #[trigger] next[k];
                    version_of(out@, name) matches Some(v) && !version_before(version, v)
                }) by {
                    version_of_push(had, e, next[k].0);
                    if k < i {
                        assert(next[k] == now[k]);
                    }
                }
            }
        } else if version.is_before(&out[at].1) {
            let entry = (packages[i].0.clone(), version);
            let ghost e = entry;
            out.set(at, entry);
            proof {
                assert(out@ =~= had.update(at as int, e));
                assert forall|name: Seq<char>| #[trigger] version_of(out@, name) == in_use(
                    next,
                    name,
                ) by {
                    version_of_update(had, at as int, e, name);
                    assert(version_of(had, name) == in_use(all.take(i as int), name));
                }
                assert forall|k: int| 0 <= k < next.len() implies ({
                    let (name, version) = #[trigger] next[k];
                    version_of(out@, name) matches Some(v) && !version_before(version, v)
                }) by {
                    version_of_update(had, at as int, e, next[k].0);
                    if k < i {
                        assert(next[k] == now[k]);
                        assert(version_valid(packages@[k].1@));
                    }
                }
            }
        } else {
            proof {
                assert forall|name: Seq<char>| #[trigger] version_of(out@, name) == in_use(
                    next,
                    name,
                ) by {
                    assert(version_of(had, name) == in_use(all.take(i as int), name));
                }
                assert forall|k: int| 0 <= k < next.len() implies ({
                    let (name, version) = #[trigger] next[k];
                    version_of(out@, name) matches Some(v) && !version_before(version, v)
                }) by {
                    if k < i {
                        assert(next[k] == now[k]);
                    }
                }
            }
        }
        i = i + 1;
    }
    assert(all.take(i as int) =~= all);
    assert forall|k: int| 0 <= k < packages@.len() implies ({
        let (name, version) = #[trigger] packages@[k];
        version_of(out@, name@) matches Some(v) && !version_before(version@, v)
    }) by {
        assert(all[k] == (packages@[k].0@, packages@[k].1@));
    }
    Ok(out)
}

// ---------------------------------------------------------------------------------------
// Seeds
// ---------------------------------------------------------------------------------------
/// A vulnerable symbol with the place where it is defined.
#[derive(Debug, PartialEq, Eq)]
pub struct ResolvedSeed {
    pub symbol: VulnSymbol,
    pub file: PathBuf,
    pub position: Position,
}

/// A vulnerable symbol with its place, as contracts see it.
pub struct Resolved {
    pub symbol: Vuln,
    pub file: Seq<Part>,
    /// The file as it was spelled.
    pub spelled: Seq<char>,
    pub position: Position,
}

impl View for ResolvedSeed {
    type V = Resolved;

    open spec fn view(&self) -> Resolved {
        Resolved {
            symbol: self.symbol@,
            file: self.file@,
            spelled: self.file.spelling(),
            position: self.position,
        }
    }
}

impl Clone for ResolvedSeed {
    fn clone(&self) -> (r: Self)
        ensures
            r@ == self@,
    {
        ResolvedSeed {
            symbol: self.symbol.clone(),
            file: self.file.clone(),
            position: self.position,
        }
    }
}

/// Why the place of a symbol is not known.
#[derive(Debug, PartialEq, Eq)]
pub enum UnresolvedReason {
    /// The workspace does not depend on the crate.
    NoDependency,
    /// The version in use is not an affected one.
    NotAffectedVersion(Version),
    /// The place could not be found.
    ProbeFailed(String),
}

/// Why the place of a symbol is not known, as contracts see it.
pub enum Reason {
    NoDependency,
    NotAffectedVersion(Seq<char>),
    ProbeFailed(Seq<char>),
}

impl View for UnresolvedReason {
    type V = Reason;

    open spec fn view(&self) -> Reason {
        match self {
            UnresolvedReason::NoDependency => Reason::NoDependency,
            UnresolvedReason::NotAffectedVersion(v) => Reason::NotAffectedVersion(v@),
            UnresolvedReason::ProbeFailed(m) => Reason::ProbeFailed(m@),
        }
    }
}

/// A vulnerable symbol whose place is not known.
#[derive(Debug, PartialEq, Eq)]
pub struct UnresolvedSeed {
    pub symbol: VulnSymbol,
    pub reason: UnresolvedReason,
}

/// A vulnerable symbol whose place is not known, as contracts see it.
pub struct Unresolved {
    pub symbol: Vuln,
    pub reason: Reason,
}

impl View for UnresolvedSeed {
    type V = Unresolved;

    open spec fn view(&self) -> Unresolved {
        Unresolved { symbol: self.symbol@, reason: self.reason@ }
    }
}

impl Named for ResolvedSeed {
    open spec fn name(v: Resolved) -> Seq<char> {
        v.symbol.path
    }

    fn name_text(&self) -> (r: &str) {
        self.symbol.path.as_str()
    }
}

impl Named for UnresolvedSeed {
    open spec fn name(v: Unresolved) -> Seq<char> {
        v.symbol.path
    }

    fn name_text(&self) -> (r: &str) {
        self.symbol.path.as_str()
    }
}

/// What became of symbols, each list ordered by path.
#[derive(Debug, PartialEq, Eq)]
pub struct ResolveResult {
    pub resolved: Vec<ResolvedSeed>,
    pub unresolved: Vec<UnresolvedSeed>,
}

/// Why a symbol is not probed, if there is a reason. A symbol that no advisory names was given
/// by hand, and is probed though no package in use bears the name of its crate.
pub open spec fn early_reason(sym: Vuln, versions: Seq<(String, Version)>) -> Option<Reason> {
    match version_of(versions, sym.crate_name) {
        None => if sym.advisory_id is Some {
            Some(Reason::NoDependency)
        } else {
            None
        },
        Some(v) => if affected_version(sym.reqs, v) {
            None
        } else {
            Some(Reason::NotAffectedVersion(v))
        },
    }
}

/// The symbols that are not probed, in order.
pub open spec fn early(symbols: Seq<Vuln>, versions: Seq<(String, Version)>) -> Seq<Unresolved>
    decreases symbols.len(),
{
    if symbols.len() == 0 {
        Seq::empty()
    } else {
        match early_reason(symbols.last(), versions) {
            Some(reason) => early(symbols.drop_last(), versions).push(
                Unresolved { symbol: symbols.last(), reason },
            ),
            None => early(symbols.drop_last(), versions),
        }
    }
}

/// The symbols of a crate that are probed, in order.
pub open spec fn probed(
    symbols: Seq<Vuln>,
    versions: Seq<(String, Version)>,
    crate_name: Seq<char>,
) -> Seq<Vuln>
    decreases symbols.len(),
{
    if symbols.len() == 0 {
        Seq::empty()
    } else if symbols.last().crate_name == crate_name && early_reason(symbols.last(), versions)
        is None {
        probed(symbols.drop_last(), versions, crate_name).push(symbols.last())
    } else {
        probed(symbols.drop_last(), versions, crate_name)
    }
}

/// Symbols that one probe crate serves.
#[derive(Debug)]
pub struct ProbeGroup {
    pub crate_name: String,
    /// The version in use, where there is one.
    pub version: Option<Version>,
    pub symbols: Vec<VulnSymbol>,
}

/// What is to be done about symbols.
#[derive(Debug)]
pub struct Plan {
    pub unresolved: Vec<UnresolvedSeed>,
    pub groups: Vec<ProbeGroup>,
}

/// A version that may be missing, as contracts see it.
pub open spec fn version_view(version: Option<Version>) -> Option<Seq<char>> {
    match version {
        Some(v) => Some(v@),
        None => None,
    }
}

/// Whether groups hold the symbols that are probed: for each crate with such symbols one group,
/// with the version in use if there is one, and the symbols in order.
pub open spec fn groups_are(
    groups: Seq<ProbeGroup>,
    symbols: Seq<Vuln>,
    versions: Seq<(String, Version)>,
) -> bool {
    &&& forall|i: int, j: int|
        0 <= i < j < groups.len() ==> (#[trigger] groups[i]).crate_name@ != (
        #[trigger] groups[j]).crate_name@
    &&& forall|i: int|
        0 <= i < groups.len() ==> {
            let g = #[trigger] groups[i];
            &&& version_of(versions, g.crate_name@) == version_view(g.version)
            &&& vulns(g.symbols@) == probed(symbols, versions, g.crate_name@)
        }
    &&& forall|name: Seq<char>|
        (#[trigger] probed(symbols, versions, name)).len() > 0 <==> exists|i: int|
            0 <= i < groups.len() && (#[trigger] groups[i]).crate_name@ == name
}

/// Adds a symbol to the group of its crate.
fn add_to_group(
    groups: &mut Vec<ProbeGroup>,
    sym: &VulnSymbol,
    version: Option<Version>,
    Ghost(before): Ghost<Seq<Vuln>>,
    Ghost(versions): Ghost<Seq<(String, Version)>>,
)
    requires
        groups_are(old(groups)@, before, versions),
        version_of(versions, sym.crate_name@) == version_view(version),
        early_reason(sym@, versions) is None,
    ensures
        groups_are(final(groups)@, before.push(sym@), versions),
{
    let ghost had = groups@;
    let ghost after = before.push(sym@);
    let ghost name = sym.crate_name@;
    proof {
        assert(after.drop_last() =~= before);
        assert forall|n: Seq<char>| #[trigger] probed(after, versions, n) == if n == name {
            probed(before, versions, n).push(sym@)
        } else {
            probed(before, versions, n)
        } by {}
    }
    let mut i: usize = 0;
    while i < groups.len() && !same_text(groups[i].crate_name.as_str(), sym.crate_name.as_str())
        invariant
            i <= groups@.len(),
            groups@ == had,
            name == sym.crate_name@,
            forall|k: int| 0 <= k < i ==> (#[trigger] had[k]).crate_name@ != name,
        decreases groups.len() - i,
    {
        i = i + 1;
    }
    if i < groups.len() {
        let ghost earlier = groups@[i as int].symbols@;
        groups[i].symbols.push(sym.clone());
        proof {
            let now = groups@;
            assert(vulns(now[i as int].symbols@) =~= vulns(earlier).push(sym@));
            assert forall|k: int| 0 <= k < now.len() && k != i implies now[k] == had[k] by {}
            assert forall|a: int, b: int| 0 <= a < b < now.len() implies (
            #[trigger] now[a]).crate_name@ != (#[trigger] now[b]).crate_name@ by {
                assert(had[a].crate_name@ != had[b].crate_name@);
            }
            assert forall|k: int| 0 <= k < now.len() implies ({
                let g = #[trigger] now[k];
                &&& version_of(versions, g.crate_name@) == version_view(g.version)
                &&& vulns(g.symbols@) == probed(after, versions, g.crate_name@)
            }) by {
                assert(vulns(had[k].symbols@) == probed(before, versions, had[k].crate_name@));
                if k != i {
                    assert(had[k].crate_name@ != had[i as int].crate_name@);
                }
            }
            assert forall|n: Seq<char>|
                (#[trigger] probed(after, versions, n)).len() > 0 <==> exists|k: int|
                    0 <= k < now.len() && (#[trigger] now[k]).crate_name@ == n by {
                if n == name {
                    assert(now[i as int].crate_name@ == n);
                } else {
                    assert(probed(after, versions, n) == probed(before, versions, n));
                    if exists|k: int| 0 <= k < had.len() && (#[trigger] had[k]).crate_name@ == n {
                        let k = choose|k: int|
                            0 <= k < had.len() && (#[trigger] had[k]).crate_name@ == n;
                        assert(now[k].crate_name@ == n);
                    }
                    if exists|k: int| 0 <= k < now.len() && (#[trigger] now[k]).crate_name@ == n {
                        let k = choose|k: int|
                            0 <= k < now.len() && (#[trigger] now[k]).crate_name@ == n;
                        assert(had[k].crate_name@ == n);
                    }
                }
            }
        }
    } else {
        let mut symbols: Vec<VulnSymbol> = Vec::new();
        symbols.push(sym.clone());
        let ghost row = vulns(symbols@);
        assert(row =~= seq![sym@]);
        let group = ProbeGroup {
            crate_name: sym.crate_name.clone(),
            version,
            symbols,
        };
        groups.push(group);
        proof {
            let now = groups@;
            assert(probed(before, versions, name).len() == 0) by {
                if probed(before, versions, name).len() > 0 {
                    let k = choose|k: int|
                        0 <= k < had.len() && (#[trigger] had[k]).crate_name@ == name;
                    assert(had[k].crate_name@ != name);
                }
            }
            assert(probed(after, versions, name) =~= seq![sym@]);
            assert forall|a: int, b: int| 0 <= a < b < now.len() implies (
            #[trigger] now[a]).crate_name@ != (#[trigger] now[b]).crate_name@ by {
                if b < had.len() {
                    assert(had[a].crate_name@ != had[b].crate_name@);
                } else {
                    assert(had[a].crate_name@ != name);
                }
            }
            assert forall|k: int| 0 <= k < now.len() implies ({
                let g = #[trigger] now[k];
                &&& version_of(versions, g.crate_name@) == version_view(g.version)
                &&& vulns(g.symbols@) == probed(after, versions, g.crate_name@)
            }) by {
                if k < had.len() {
                    assert(now[k] == had[k]);
                    assert(had[k].crate_name@ != name);
                }
            }
            assert forall|n: Seq<char>|
                (#[trigger] probed(after, versions, n)).len() > 0 <==> exists|k: int|
                    0 <= k < now.len() && (#[trigger] now[k]).crate_name@ == n by {
                if n == name {
                    assert(now[had.len() as int].crate_name@ == n);
                } else {
                    assert(probed(after, versions, n) == probed(before, versions, n));
                    if exists|k: int| 0 <= k < had.len() && (#[trigger] had[k]).crate_name@ == n {
                        let k = choose|k: int|
                            0 <= k < had.len() && (#[trigger] had[k]).crate_name@ == n;
                        assert(now[k].crate_name@ == n);
                    }
                    if exists|k: int| 0 <= k < now.len() && (#[trigger] now[k]).crate_name@ == n {
                        let k = choose|k: int|
                            0 <= k < now.len() && (#[trigger] now[k]).crate_name@ == n;
                        assert(k < had.len());
                        assert(had[k].crate_name@ == n);
                    }
                }
            }
        }
    }
}

/// Sorts symbols out: those of advisories on crates that are not in use, those whose version in use is not
/// affected, and those that are to be probed, crate by crate.
pub fn plan_seeds(symbols: &Vec<VulnSymbol>, versions: &Vec<(String, Version)>) -> (r: Plan)
    ensures
        views(r.unresolved@) == early(vulns(symbols@), versions@),
        groups_are(r.groups@, vulns(symbols@), versions@),
{
    let ghost all = vulns(symbols@);
    let mut unresolved: Vec<UnresolvedSeed> = Vec::new();
    let mut groups: Vec<ProbeGroup> = Vec::new();
    let mut i: usize = 0;
    proof {
        assert(all.take(0) =~= Seq::<Vuln>::empty());
        assert(views(unresolved@) =~= Seq::<Unresolved>::empty());
    }
    while i < symbols.len()
        invariant
            i <= symbols@.len(),
            all == vulns(symbols@),
            views(unresolved@) == early(all.take(i as int), versions@),
            groups_are(groups@, all.take(i as int), versions@),
        decreases symbols.len() - i,
    {
        let ghost next = all.take(i + 1);
        let sym = &symbols[i];
        proof {
            assert(next.drop_last() =~= all.take(i as int));
            assert(next.last() == sym@);
            assert(next =~= all.take(i as int).push(sym@));
        }
        let ghost had = unresolved@;
        let at = find_version(versions, sym.crate_name.as_str());
        if at == versions.len() {
            if sym.advisory_id.is_some() {
                let u = UnresolvedSeed {
                    symbol: sym.clone(),
                    reason: UnresolvedReason::NoDependency,
                };
                let ghost shown = u@;
                unresolved.push(u);
                proof {
                    assert(views(unresolved@) =~= views(had).push(shown));
                    groups_skip(groups@, all.take(i as int), sym@, versions@);
                }
            } else {
                add_to_group(
                    &mut groups,
                    sym,
                    None,
                    Ghost(all.take(i as int)),
                    Ghost(versions@),
                );
            }
        } else if !version_matches(&sym.version_reqs, &versions[at].1) {
            let u = UnresolvedSeed {
                symbol: sym.clone(),
                reason: UnresolvedReason::NotAffectedVersion(versions[at].1.clone()),
            };
            let ghost shown = u@;
            unresolved.push(u);
            proof {
                assert(views(unresolved@) =~= views(had).push(shown));
                groups_skip(groups@, all.take(i as int), sym@, versions@);
            }
        } else {
            add_to_group(
                &mut groups,
                sym,
                Some(versions[at].1.clone()),
                Ghost(all.take(i as int)),
                Ghost(versions@),
            );
        }
        i = i + 1;
    }
    assert(all.take(i as int) =~= all);
    Plan { unresolved, groups }
}

/// A symbol that is not probed changes no group.
proof fn groups_skip(
    groups: Seq<ProbeGroup>,
    before: Seq<Vuln>,
    sym: Vuln,
    versions: Seq<(String, Version)>,
)
    requires
        groups_are(groups, before, versions),
        early_reason(sym, versions) is Some,
    ensures
        groups_are(groups, before.push(sym), versions),
{
    assert(before.push(sym).drop_last() =~= before);
    assert forall|n: Seq<char>| #[trigger] probed(before.push(sym), versions, n) == probed(
        before,
        versions,
        n,
    ) by {}
}

/// The message on a symbol for which no definition is found.
pub open spec fn no_definition(path: Seq<char>) -> Seq<char> {
    "no definition returned for "@ + path
}

/// What an answer of the language server says of the place of a symbol.
pub fn probe_answer(path: &str, response: Option<LocationResponse>) -> (r: Result<
    (PathBuf, Position),
    String,
>)
    ensures
        match first_location(response) {
            Some(FoundLocation { path: Some(p), range }) => r matches Ok(n) && n == (
                p,
                range.start,
            ),
            _ => r matches Err(m) && m@ == no_definition(path@),
        },
{
    match extract_definition_location(response) {
        Some(found) => Ok(found),
        None => {
            let mut m = "no definition returned for ".to_owned();
            m.append(path);
            Err(m)
        },
    }
}

/// What came of the probe of a group: the places of its symbols, or a message.
pub type Outcome = Result<Vec<(PathBuf, Position)>, String>;

/// The message on a reply that gives no place for a symbol, if it gives none.
pub open spec fn probe_message(
    path: Seq<char>,
    reply: Result<Option<LocationResponse>, RequestFailure>,
) -> Option<Seq<char>> {
    match reply {
        Err(e) => Some(e.message@),
        Ok(response) => match first_location(response) {
            Some(FoundLocation { path: Some(_), .. }) => None,
            _ => Some(no_definition(path)),
        },
    }
}

/// The place that a reply gives.
pub open spec fn probe_place(reply: Result<Option<LocationResponse>, RequestFailure>) -> (
    PathBuf,
    Position,
) {
    let l = first_location(reply->Ok_0)->0;
    (l.path->0, l.range.start)
}

/// What comes of the probe of a group, given the replies to the questions for its symbols: the
/// place of each symbol, or the message on the first reply that gives none.
pub fn probe_outcome(
    symbols: &Vec<VulnSymbol>,
    replies: Vec<Result<Option<LocationResponse>, RequestFailure>>,
) -> (r: Outcome)
    requires
        symbols@.len() == replies@.len(),
    ensures
        match r {
            Ok(places) => places@.len() == symbols@.len() && forall|i: int|
                0 <= i < symbols@.len() ==> probe_message(
                    symbols@[i].path@,
                    #[trigger] replies@[i],
                ) is None && places@[i] == probe_place(replies@[i]),
            Err(m) => exists|i: int|
                0 <= i < symbols@.len() && probe_message(symbols@[i].path@, #[trigger] replies@[i])
                    == Some(m@) && forall|j: int|
                    0 <= j < i ==> probe_message(symbols@[j].path@, #[trigger] replies@[j]) is None,
        },
{
    let ghost all = replies@;
    let mut left = replies;
    let mut out: Vec<(PathBuf, Position)> = Vec::new();
    while left.len() > 0
        invariant
            out@.len() + left@.len() == all.len(),
            symbols@.len() == all.len(),
            all == replies@,
            left@ =~= all.skip(out@.len() as int),
            forall|i: int|
                0 <= i < out@.len() ==> probe_message(symbols@[i].path@, #[trigger] all[i]) is None
                    && out@[i] == probe_place(all[i]),
        decreases left.len(),
    {
        let at = out.len();
        let reply = left.remove(0);
        assert(reply == all[at as int]);
        let response = match reply {
            Ok(response) => response,
            Err(e) => {
                assert(probe_message(symbols@[at as int].path@, all[at as int]) == Some(e.message@));
                return Err(e.message);
            },
        };
        match probe_answer(symbols[at].path.as_str(), response) {
            Ok(place) => {
                out.push(place);
            },
            Err(m) => {
                assert(probe_message(symbols@[at as int].path@, all[at as int]) == Some(m@));
                return Err(m);
            },
        }
    }
    Ok(out)
}

/// Symbols with their places.
pub open spec fn zipped(symbols: Seq<Vuln>, places: Seq<(PathBuf, Position)>) -> Seq<Resolved> {
    Seq::new(
        if symbols.len() <= places.len() {
            symbols.len()
        } else {
            places.len()
        },
        |i: int|
            Resolved {
                symbol: symbols[i],
                file: places[i].0@,
                spelled: places[i].0.spelling(),
                position: places[i].1,
            },
    )
}

/// Symbols with the message that stands for their places.
pub open spec fn all_failed(symbols: Seq<Vuln>, message: Seq<char>) -> Seq<Unresolved> {
    symbols.map_values(
        |s: Vuln| Unresolved { symbol: s, reason: Reason::ProbeFailed(message) },
    )
}

/// The symbols whose places were found, group by group.
pub open spec fn found(groups: Seq<ProbeGroup>, outcomes: Seq<Outcome>) -> Seq<Resolved>
    decreases groups.len(),
{
    if groups.len() == 0 {
        Seq::empty()
    } else {
        let n = groups.len() - 1;
        found(groups.drop_last(), outcomes) + match outcomes[n] {
            Ok(places) => zipped(vulns(groups[n].symbols@), places@),
            Err(_) => Seq::empty(),
        }
    }
}

/// The symbols whose places were not found, group by group.
pub open spec fn missed(groups: Seq<ProbeGroup>, outcomes: Seq<Outcome>) -> Seq<Unresolved>
    decreases groups.len(),
{
    if groups.len() == 0 {
        Seq::empty()
    } else {
        let n = groups.len() - 1;
        missed(groups.drop_last(), outcomes) + match outcomes[n] {
            Ok(_) => Seq::empty(),
            Err(m) => all_failed(vulns(groups[n].symbols@), m@),
        }
    }
}

/// Adds symbols with their places to a list.
fn push_found(
    out: &mut Vec<ResolvedSeed>,
    symbols: &Vec<VulnSymbol>,
    places: &Vec<(PathBuf, Position)>,
)
    ensures
        views(final(out)@) == views(old(out)@) + zipped(vulns(symbols@), places@),
{
    let ghost start = views(out@);
    let ghost all = zipped(vulns(symbols@), places@);
    let mut i: usize = 0;
    assert(start + all.take(0) =~= start);
    while i < symbols.len() && i < places.len()
        invariant
            i <= symbols@.len(),
            i <= places@.len(),
            all == zipped(vulns(symbols@), places@),
            views(out@) == start + all.take(i as int),
        decreases symbols.len() - i,
    {
        let seed = ResolvedSeed {
            symbol: symbols[i].clone(),
            file: places[i].0.clone(),
            position: places[i].1,
        };
        let ghost had = out@;
        let ghost shown = seed@;
        out.push(seed);
        proof {
            assert(shown == all[i as int]);
            assert(views(out@) =~= views(had).push(shown));
            assert(all.take(i + 1) =~= all.take(i as int).push(shown));
            assert(views(out@) =~= start + all.take(i + 1));
        }
        i = i + 1;
    }
    assert(all.take(i as int) =~= all);
}

/// Adds symbols with a message to a list.
fn push_missed(out: &mut Vec<UnresolvedSeed>, symbols: &Vec<VulnSymbol>, message: &str)
    ensures
        views(final(out)@) == views(old(out)@) + all_failed(vulns(symbols@), message@),
{
    let ghost start = views(out@);
    let ghost all = all_failed(vulns(symbols@), message@);
    let mut i: usize = 0;
    assert(start + all.take(0) =~= start);
    while i < symbols.len()
        invariant
            i <= symbols@.len(),
            all == all_failed(vulns(symbols@), message@),
            views(out@) == start + all.take(i as int),
        decreases symbols.len() - i,
    {
        let seed = UnresolvedSeed {
            symbol: symbols[i].clone(),
            reason: UnresolvedReason::ProbeFailed(message.to_owned()),
        };
        let ghost had = out@;
        let ghost shown = seed@;
        out.push(seed);
        proof {
            assert(shown == all[i as int]);
            assert(views(out@) =~= views(had).push(shown));
            assert(all.take(i + 1) =~= all.take(i as int).push(shown));
            assert(views(out@) =~= start + all.take(i + 1));
        }
        i = i + 1;
    }
    assert(all.take(i as int) =~= all);
}

/// Whether each probe that succeeded gave a place for each symbol.
pub open spec fn full(groups: Seq<ProbeGroup>, outcomes: Seq<Outcome>) -> bool {
    outcomes.len() == groups.len() && forall|i: int|
        0 <= i < groups.len() ==> (#[trigger] outcomes[i] matches Ok(places) ==> places@.len()
            == groups[i].symbols@.len())
}

/// What became of the symbols of a plan, given what came of the probe of each group.
pub fn gather_seeds(plan: Plan, outcomes: &Vec<Outcome>) -> (r: ResolveResult)
    requires
        full(plan.groups@, outcomes@),
    ensures
        views(r.resolved@) == by_name::<ResolvedSeed>(found(plan.groups@, outcomes@)),
        views(r.unresolved@) == by_name::<UnresolvedSeed>(
            views(plan.unresolved@) + missed(plan.groups@, outcomes@),
        ),
{
    let ghost start = views(plan.unresolved@);
    let groups = plan.groups;
    let mut unresolved = plan.unresolved;
    let mut resolved: Vec<ResolvedSeed> = Vec::new();
    let mut i: usize = 0;
    proof {
        assert(views(resolved@) =~= Seq::<Resolved>::empty());
        assert(start + Seq::<Unresolved>::empty() =~= start);
    }
    while i < groups.len()
        invariant
            i <= groups@.len(),
            outcomes@.len() == groups@.len(),
            views(resolved@) == found(groups@.take(i as int), outcomes@),
            views(unresolved@) == start + missed(groups@.take(i as int), outcomes@),
        decreases groups.len() - i,
    {
        let ghost next = groups@.take(i + 1);
        proof {
            assert(next.drop_last() =~= groups@.take(i as int));
            assert(next[i as int] == groups@[i as int]);
        }
        let ghost f = views(resolved@);
        let ghost m = views(unresolved@);
        match &outcomes[i] {
            Ok(places) => {
                push_found(&mut resolved, &groups[i].symbols, places);
                proof {
                    assert(missed(next, outcomes@) =~= missed(groups@.take(i as int), outcomes@));
                }
            },
            Err(message) => {
                push_missed(&mut unresolved, &groups[i].symbols, message.as_str());
                proof {
                    assert(found(next, outcomes@) =~= found(groups@.take(i as int), outcomes@));
                    assert(views(unresolved@) =~= start + missed(next, outcomes@));
                }
            },
        }
        i = i + 1;
    }
    assert(groups@.take(i as int) =~= groups@);
    ResolveResult { resolved: sort_by_name(resolved), unresolved: sort_by_name(unresolved) }
}

// ---------------------------------------------------------------------------------------
// No symbol is lost
// ---------------------------------------------------------------------------------------
/// The symbols of a list of resolved ones.
pub open spec fn resolved_symbols(v: Seq<Resolved>) -> Seq<Vuln> {
    v.map_values(|r: Resolved| r.symbol)
}

/// The symbols of a list of unresolved ones.
pub open spec fn unresolved_symbols(v: Seq<Unresolved>) -> Seq<Vuln> {
    v.map_values(|u: Unresolved| u.symbol)
}

spec fn probed_total(
    groups: Seq<ProbeGroup>,
    symbols: Seq<Vuln>,
    versions: Seq<(String, Version)>,
) -> Multiset<Vuln>
    decreases groups.len(),
{
    if groups.len() == 0 {
        Multiset::empty()
    } else {
        probed_total(groups.drop_last(), symbols, versions).add(
            probed(symbols, versions, groups.last().crate_name@).to_multiset(),
        )
    }
}

proof fn probed_total_push(
    groups: Seq<ProbeGroup>,
    symbols: Seq<Vuln>,
    sym: Vuln,
    versions: Seq<(String, Version)>,
)
    requires
        forall|i: int, j: int|
            0 <= i < j < groups.len() ==> (#[trigger] groups[i]).crate_name@ != (
            #[trigger] groups[j]).crate_name@,
    ensures
        probed_total(groups, symbols.push(sym), versions) == if early_reason(sym, versions) is None
            && exists|i: int|
            0 <= i < groups.len() && (#[trigger] groups[i]).crate_name@ == sym.crate_name {
            probed_total(groups, symbols, versions).insert(sym)
        } else {
            probed_total(groups, symbols, versions)
        },
    decreases groups.len(),
{
    broadcast use vstd::seq_lib::group_to_multiset_ensures;

    assert(symbols.push(sym).drop_last() =~= symbols);
    if groups.len() > 0 {
        let front = groups.drop_last();
        let n = front.len() as int;
        assert forall|i: int, j: int| 0 <= i < j < front.len() implies (
        #[trigger] front[i]).crate_name@ != (#[trigger] front[j]).crate_name@ by {
            assert(groups[i].crate_name@ != groups[j].crate_name@);
        }
        probed_total_push(front, symbols, sym, versions);
        let here = groups[n].crate_name@ == sym.crate_name;
        let there = exists|i: int|
            0 <= i < front.len() && (#[trigger] front[i]).crate_name@ == sym.crate_name;
        let any = exists|i: int|
            0 <= i < groups.len() && (#[trigger] groups[i]).crate_name@ == sym.crate_name;
        if there {
            let i = choose|i: int|
                0 <= i < front.len() && (#[trigger] front[i]).crate_name@ == sym.crate_name;
            assert(groups[i].crate_name@ == sym.crate_name);
            assert(groups[i].crate_name@ != groups[n].crate_name@);
            assert(any && !here);
        } else if any {
            let i = choose|i: int|
                0 <= i < groups.len() && (#[trigger] groups[i]).crate_name@ == sym.crate_name;
            if i < n {
                assert(front[i].crate_name@ == sym.crate_name);
            }
            assert(here);
        }
        assert(probed_total(groups, symbols.push(sym), versions) =~= if early_reason(sym, versions)
            is None && any {
            probed_total(groups, symbols, versions).insert(sym)
        } else {
            probed_total(groups, symbols, versions)
        });
    }
}

proof fn probed_total_is_rest(
    groups: Seq<ProbeGroup>,
    symbols: Seq<Vuln>,
    versions: Seq<(String, Version)>,
)
    requires
        forall|i: int, j: int|
            0 <= i < j < groups.len() ==> (#[trigger] groups[i]).crate_name@ != (
            #[trigger] groups[j]).crate_name@,
        forall|k: int|
            0 <= k < symbols.len() && early_reason(#[trigger] symbols[k], versions) is None
                ==> exists|i: int|
                0 <= i < groups.len() && (#[trigger] groups[i]).crate_name@
                    == symbols[k].crate_name,
    ensures
        probed_total(groups, symbols, versions).add(
            unresolved_symbols(early(symbols, versions)).to_multiset(),
        ) == symbols.to_multiset(),
    decreases symbols.len(),
{
    broadcast use vstd::seq_lib::group_to_multiset_ensures;

    if symbols.len() == 0 {
        probed_total_empty(groups, symbols, versions);
        assert(symbols =~= Seq::empty());
        assert(unresolved_symbols(early(symbols, versions)) =~= Seq::empty());
        assert(symbols.to_multiset() =~= Multiset::empty());
    } else {
        let front = symbols.drop_last();
        let sym = symbols.last();
        assert forall|k: int|
            0 <= k < front.len() && early_reason(#[trigger] front[k], versions)
                is None implies exists|i: int|
            0 <= i < groups.len() && (#[trigger] groups[i]).crate_name@ == front[k].crate_name by {
            assert(symbols[k] == front[k]);
        }
        probed_total_is_rest(groups, front, versions);
        probed_total_push(groups, front, sym, versions);
        assert(symbols =~= front.push(sym));
        assert(symbols[symbols.len() - 1] == sym);
        let before = unresolved_symbols(early(front, versions));
        if early_reason(sym, versions) is Some {
            assert(unresolved_symbols(early(symbols, versions)) =~= before.push(sym));
        }
        assert(probed_total(groups, symbols, versions).add(
            unresolved_symbols(early(symbols, versions)).to_multiset(),
        ) =~= symbols.to_multiset());
    }
}

proof fn probed_total_empty(
    groups: Seq<ProbeGroup>,
    symbols: Seq<Vuln>,
    versions: Seq<(String, Version)>,
)
    requires
        symbols.len() == 0,
    ensures
        probed_total(groups, symbols, versions) == Multiset::<Vuln>::empty(),
    decreases groups.len(),
{
    broadcast use vstd::seq_lib::group_to_multiset_ensures;

    if groups.len() > 0 {
        probed_total_empty(groups.drop_last(), symbols, versions);
        let none = probed(symbols, versions, groups.last().crate_name@);
        assert(none =~= Seq::empty());
        assert(none.to_multiset() =~= Multiset::empty());
        assert(probed_total(groups, symbols, versions) =~= Multiset::empty());
    }
}

/// A probed symbol is among the symbols of its crate.
proof fn probed_has(
    symbols: Seq<Vuln>,
    versions: Seq<(String, Version)>,
    k: int,
)
    requires
        0 <= k < symbols.len(),
        early_reason(symbols[k], versions) is None,
    ensures
        probed(symbols, versions, symbols[k].crate_name).contains(symbols[k]),
    decreases symbols.len(),
{
    let name = symbols[k].crate_name;
    let row = probed(symbols, versions, name);
    if k == symbols.len() - 1 {
        assert(row[row.len() - 1] == symbols[k]);
    } else {
        let front = symbols.drop_last();
        probed_has(front, versions, k);
        let before = probed(front, versions, name);
        let j = choose|j: int| 0 <= j < before.len() && before[j] == front[k];
        assert(row[j] == symbols[k]);
    }
}

proof fn lists_add_up(
    groups: Seq<ProbeGroup>,
    outcomes: Seq<Outcome>,
    symbols: Seq<Vuln>,
    versions: Seq<(String, Version)>,
    n: int,
)
    requires
        0 <= n <= groups.len(),
        full(groups, outcomes),
        forall|i: int|
            0 <= i < groups.len() ==> vulns((#[trigger] groups[i]).symbols@) == probed(
                symbols,
                versions,
                groups[i].crate_name@,
            ),
    ensures
        resolved_symbols(found(groups.take(n), outcomes)).to_multiset().add(
            unresolved_symbols(missed(groups.take(n), outcomes)).to_multiset(),
        ) == probed_total(groups.take(n), symbols, versions),
    decreases n,
{
    broadcast use vstd::seq_lib::group_to_multiset_ensures;

    let places = resolved_symbols(found(groups.take(n), outcomes));
    let others = unresolved_symbols(missed(groups.take(n), outcomes));
    if n == 0 {
        assert(places =~= Seq::empty());
        assert(others =~= Seq::empty());
        assert(places.to_multiset().add(others.to_multiset()) =~= Multiset::empty());
    } else {
        lists_add_up(groups, outcomes, symbols, versions, n - 1);
        assert(groups.take(n).drop_last() =~= groups.take(n - 1));
        assert(groups.take(n)[n - 1] == groups[n - 1]);
        assert(outcomes[n - 1] matches Ok(places) ==> places@.len() == groups[n - 1].symbols@.len());
        let here = vulns(groups[n - 1].symbols@);
        assert(here.len() == groups[n - 1].symbols@.len());
        let earlier = resolved_symbols(found(groups.take(n - 1), outcomes));
        let others_earlier = unresolved_symbols(missed(groups.take(n - 1), outcomes));
        match outcomes[n - 1] {
            Ok(_) => {
                assert(places =~= earlier + here);
                assert(others =~= others_earlier);
                vstd::seq_lib::lemma_multiset_commutative(earlier, here);
            },
            Err(_) => {
                assert(places =~= earlier);
                assert(others =~= others_earlier + here);
                vstd::seq_lib::lemma_multiset_commutative(others_earlier, here);
            },
        }
        assert(places.to_multiset().add(others.to_multiset()) =~= probed_total(
            groups.take(n),
            symbols,
            versions,
        ));
    }
}

/// No symbol is lost and none is counted twice: the resolved and the unresolved symbols are
/// together the symbols that were given, each as often as it was given.
pub proof fn every_symbol_is_accounted_for(
    symbols: Seq<Vuln>,
    versions: Seq<(String, Version)>,
    groups: Seq<ProbeGroup>,
    outcomes: Seq<Outcome>,
)
    requires
        groups_are(groups, symbols, versions),
        full(groups, outcomes),
    ensures
        resolved_symbols(by_name::<ResolvedSeed>(found(groups, outcomes))).to_multiset().add(
            unresolved_symbols(
                by_name::<UnresolvedSeed>(early(symbols, versions) + missed(groups, outcomes)),
            ).to_multiset(),
        ) == symbols.to_multiset(),
{
    broadcast use vstd::seq_lib::group_to_multiset_ensures;

    assert forall|k: int|
        0 <= k < symbols.len() && early_reason(#[trigger] symbols[k], versions)
            is None implies exists|i: int|
        0 <= i < groups.len() && (#[trigger] groups[i]).crate_name@ == symbols[k].crate_name by {
        probed_has(symbols, versions, k);
        assert(probed(symbols, versions, symbols[k].crate_name).len() > 0);
    }
    probed_total_is_rest(groups, symbols, versions);
    lists_add_up(groups, outcomes, symbols, versions, groups.len() as int);
    assert(groups.take(groups.len() as int) =~= groups);
    let places = found(groups, outcomes);
    let others = early(symbols, versions) + missed(groups, outcomes);
    sorting_keeps_what_is_read_off::<ResolvedSeed, Vuln>(places, |r: Resolved| r.symbol);
    sorting_keeps_what_is_read_off::<UnresolvedSeed, Vuln>(others, |u: Unresolved| u.symbol);
    let first = unresolved_symbols(early(symbols, versions));
    let rest = unresolved_symbols(missed(groups, outcomes));
    assert(unresolved_symbols(others) =~= first + rest);
    vstd::seq_lib::lemma_multiset_commutative(first, rest);
    assert(resolved_symbols(places).to_multiset().add(unresolved_symbols(others).to_multiset())
        =~= symbols.to_multiset());
}

/// A package in use has one of the versions that are given for its name; one that is not given
/// is not in use. Where another version of the name is given, the lower of the two counts.
pub proof fn versions_in_use_are_given(packages: Packages, name: Seq<char>, p: (Seq<char>, Seq<char>))
    ensures
        in_use(packages, name) is Some <==> exists|i: int|
            0 <= i < packages.len() && (#[trigger] packages[i]).0 == name,
        in_use(packages, name) is Some ==> packages.contains((name, in_use(packages, name)->0)),
        p.0 != name ==> in_use(packages.push(p), name) == in_use(packages, name),
        p.0 == name && in_use(packages, name) is None ==> in_use(packages.push(p), name) == Some(
            p.1,
        ),
        p.0 == name && in_use(packages, name) is Some ==> in_use(packages.push(p), name) == Some(
            if version_before(p.1, in_use(packages, name)->0) {
                p.1
            } else {
                in_use(packages, name)->0
            },
        ),
    decreases packages.len(),
{
    assert(packages.push(p).drop_last() =~= packages);
    if packages.len() > 0 {
        let front = packages.drop_last();
        versions_in_use_are_given(front, name, p);
        assert(packages[packages.len() - 1] == packages.last());
        if exists|i: int| 0 <= i < front.len() && (#[trigger] front[i]).0 == name {
            let i = choose|i: int| 0 <= i < front.len() && (#[trigger] front[i]).0 == name;
            assert(packages[i] == front[i]);
        }
        if exists|i: int| 0 <= i < packages.len() && (#[trigger] packages[i]).0 == name {
            let i = choose|i: int| 0 <= i < packages.len() && (#[trigger] packages[i]).0 == name;
            if i < front.len() {
                assert(front[i] == packages[i]);
            }
        }
        if in_use(front, name) is Some {
            let x = (name, in_use(front, name)->0);
            let i = choose|i: int| 0 <= i < front.len() && front[i] == x;
            assert(packages[i] == x);
        }
    }
}

/// The version of a name is that of its entry; a name without an entry has none.
pub proof fn versions_stand_in_their_entry(v: Seq<(String, Version)>, name: Seq<char>, i: int)
    ensures
        0 <= i < v.len() && v[i].0@ == name && (forall|j: int|
            0 <= j < i ==> (#[trigger] v[j]).0@ != name) ==> version_of(v, name) == Some(v[i].1@),
        (forall|j: int| 0 <= j < v.len() ==> (#[trigger] v[j]).0@ != name) ==> version_of(v, name)
            is None,
    decreases v.len(),
{
    if v.len() > 0 && v[0].0@ != name {
        let rest = v.drop_first();
        versions_stand_in_their_entry(rest, name, i - 1);
        assert forall|j: int| 0 <= j < rest.len() implies #[trigger] rest[j] == v[j + 1] by {}
    }
}

/// A symbol is not probed where its package is in use in a version that no requirement admits,
/// or is not in use although an advisory names it; otherwise it is.
pub proof fn what_is_set_aside(sym: Vuln, versions: Seq<(String, Version)>, v: Seq<char>)
    ensures
        version_of(versions, sym.crate_name) == Some(v) && (sym.reqs.len() == 0 || exists|i: int|
            0 <= i < sym.reqs.len() && req_matches(#[trigger] sym.reqs[i], v)) ==> early_reason(
            sym,
            versions,
        ) is None,
        version_of(versions, sym.crate_name) == Some(v) && sym.reqs.len() > 0 && (forall|i: int|
            0 <= i < sym.reqs.len() ==> !req_matches(#[trigger] sym.reqs[i], v)) ==> early_reason(
            sym,
            versions,
        ) == Some(Reason::NotAffectedVersion(v)),
        version_of(versions, sym.crate_name) is None && sym.advisory_id is Some ==> early_reason(
            sym,
            versions,
        ) == Some(Reason::NoDependency),
        version_of(versions, sym.crate_name) is None && sym.advisory_id is None ==> early_reason(
            sym,
            versions,
        ) is None,
{
}

/// All symbols for which there is a reason are set aside with it, in order, and no others are.
pub proof fn symbols_set_aside_are_filtered(symbols: Seq<Vuln>, versions: Seq<(String, Version)>)
    ensures
        early(symbols, versions) == symbols.filter(
            |s: Vuln| early_reason(s, versions) is Some,
        ).map_values(
            |s: Vuln| Unresolved { symbol: s, reason: early_reason(s, versions)->0 },
        ),
    decreases symbols.len(),
{
    reveal(Seq::filter);
    let aside = |s: Vuln| early_reason(s, versions) is Some;
    let with = |s: Vuln| Unresolved { symbol: s, reason: early_reason(s, versions)->0 };
    if symbols.len() == 0 {
        assert(symbols.filter(aside).map_values(with) =~= Seq::<Unresolved>::empty());
    } else {
        let front = symbols.drop_last();
        symbols_set_aside_are_filtered(front, versions);
        if aside(symbols.last()) {
            assert(symbols.filter(aside).map_values(with) =~= front.filter(aside).map_values(
                with,
            ).push(with(symbols.last())));
        }
    }
}

/// All symbols of a package for which there is no reason are probed, in order, and no others
/// are.
pub proof fn symbols_probed_are_filtered(
    symbols: Seq<Vuln>,
    versions: Seq<(String, Version)>,
    crate_name: Seq<char>,
)
    ensures
        probed(symbols, versions, crate_name) == symbols.filter(
            |s: Vuln| s.crate_name == crate_name && early_reason(s, versions) is None,
        ),
    decreases symbols.len(),
{
    reveal(Seq::filter);
    let here = |s: Vuln| s.crate_name == crate_name && early_reason(s, versions) is None;
    if symbols.len() > 0 {
        symbols_probed_are_filtered(symbols.drop_last(), versions, crate_name);
    } else {
        assert(probed(symbols, versions, crate_name) =~= symbols.filter(here));
    }
}

/// A group holds the symbols of its package that are probed, all of them, and is probed in the
/// version that is in use; and every package with such a symbol has a group.
pub proof fn groups_are_probed_in_the_version_in_use(
    groups: Seq<ProbeGroup>,
    symbols: Seq<Vuln>,
    versions: Seq<(String, Version)>,
    s: Vuln,
)
    requires
        groups_are(groups, symbols, versions),
    ensures
        forall|i: int|
            #![trigger groups[i]]
            0 <= i < groups.len() ==> (match version_of(versions, groups[i].crate_name@) {
                Some(v) => groups[i].version is Some && groups[i].version->0@ == v,
                None => groups[i].version is None,
            }) && groups[i].symbols@.len() == symbols.filter(
                |x: Vuln|
                    x.crate_name == groups[i].crate_name@ && early_reason(x, versions) is None,
            ).len() && forall|k: int|
                0 <= k < groups[i].symbols@.len() ==> (#[trigger] groups[i].symbols@[k])@
                    == symbols.filter(
                    |x: Vuln|
                        x.crate_name == groups[i].crate_name@ && early_reason(x, versions) is None,
                )[k],
        symbols.contains(s) && early_reason(s, versions) is None ==> exists|i: int|
            0 <= i < groups.len() && (#[trigger] groups[i]).crate_name@ == s.crate_name,
{
    assert forall|i: int| #![trigger groups[i]] 0 <= i < groups.len() implies (match version_of(
        versions,
        groups[i].crate_name@,
    ) {
        Some(v) => groups[i].version is Some && groups[i].version->0@ == v,
        None => groups[i].version is None,
    }) && groups[i].symbols@.len() == symbols.filter(
        |x: Vuln| x.crate_name == groups[i].crate_name@ && early_reason(x, versions) is None,
    ).len() && forall|k: int|
        0 <= k < groups[i].symbols@.len() ==> (#[trigger] groups[i].symbols@[k])@ == symbols.filter(
            |x: Vuln| x.crate_name == groups[i].crate_name@ && early_reason(x, versions) is None,
        )[k] by {
        let g = groups[i];
        symbols_probed_are_filtered(symbols, versions, g.crate_name@);
        let row = probed(symbols, versions, g.crate_name@);
        assert(vulns(g.symbols@) == row);
        assert(vulns(g.symbols@).len() == row.len());
        assert forall|k: int| 0 <= k < g.symbols@.len() implies (#[trigger] g.symbols@[k])@
            == row[k] by {
            assert(vulns(g.symbols@)[k] == row[k]);
        }
    }
    if symbols.contains(s) && early_reason(s, versions) is None {
        let here = |x: Vuln| x.crate_name == s.crate_name && early_reason(x, versions) is None;
        symbols_probed_are_filtered(symbols, versions, s.crate_name);
        let k = choose|k: int| 0 <= k < symbols.len() && symbols[k] == s;
        symbols.lemma_filter_contains(here, k);
        assert(symbols.filter(here).contains(s));
        assert(probed(symbols, versions, s.crate_name).len() > 0);
    }
}

/// The symbols of a group that was found get the places that were found for them, one for one;
/// those of a group that failed get its message.
pub proof fn symbols_get_their_own_places(
    groups: Seq<ProbeGroup>,
    outcomes: Seq<Outcome>,
    i: int,
    k: int,
)
    requires
        full(groups, outcomes),
        0 <= i < groups.len(),
        0 <= k < groups[i].symbols@.len(),
    ensures
        outcomes[i] matches Ok(places) ==> found(groups, outcomes).contains(
            Resolved {
                symbol: groups[i].symbols@[k]@,
                file: places@[k].0@,
                spelled: places@[k].0.spelling(),
                position: places@[k].1,
            },
        ),
        outcomes[i] matches Err(m) ==> missed(groups, outcomes).contains(
            Unresolved { symbol: groups[i].symbols@[k]@, reason: Reason::ProbeFailed(m@) },
        ),
{
    places_are_found(groups, outcomes, i, k);
}

proof fn places_are_found(groups: Seq<ProbeGroup>, outcomes: Seq<Outcome>, i: int, k: int)
    requires
        groups.len() <= outcomes.len(),
        0 <= i < groups.len(),
        0 <= k < groups[i].symbols@.len(),
        outcomes[i] matches Ok(places) ==> places@.len() == groups[i].symbols@.len(),
    ensures
        outcomes[i] matches Ok(places) ==> found(groups, outcomes).contains(
            Resolved {
                symbol: groups[i].symbols@[k]@,
                file: places@[k].0@,
                spelled: places@[k].0.spelling(),
                position: places@[k].1,
            },
        ),
        outcomes[i] matches Err(m) ==> missed(groups, outcomes).contains(
            Unresolved { symbol: groups[i].symbols@[k]@, reason: Reason::ProbeFailed(m@) },
        ),
    decreases groups.len(),
{
    let n = groups.len() - 1;
    let front = groups.drop_last();
    let before = found(front, outcomes);
    let gone = missed(front, outcomes);
    let all = found(groups, outcomes);
    let lost = missed(groups, outcomes);
    if i < n {
        assert(front[i] == groups[i]);
        places_are_found(front, outcomes, i, k);
        match outcomes[i] {
            Ok(places) => {
                let x = Resolved {
                    symbol: groups[i].symbols@[k]@,
                    file: places@[k].0@,
                    spelled: places@[k].0.spelling(),
                    position: places@[k].1,
                };
                let j = choose|j: int| 0 <= j < before.len() && before[j] == x;
                assert(all[j] == x);
            },
            Err(m) => {
                let x = Unresolved {
                    symbol: groups[i].symbols@[k]@,
                    reason: Reason::ProbeFailed(m@),
                };
                let j = choose|j: int| 0 <= j < gone.len() && gone[j] == x;
                assert(lost[j] == x);
            },
        }
    } else {
        let row = vulns(groups[n].symbols@);
        assert(row[k] == groups[n].symbols@[k]@);
        match outcomes[i] {
            Ok(places) => {
                let more = zipped(row, places@);
                assert(all == before + more);
                assert(all[before.len() + k] == more[k]);
            },
            Err(m) => {
                let more = all_failed(row, m@);
                assert(lost == gone + more);
                assert(lost[gone.len() + k] == more[k]);
            },
        }
    }
}

/// A reply gives a place exactly where its first location lies in a file; otherwise the message
/// is that of the failure, or names the symbol.
pub proof fn replies_give_places(
    path: Seq<char>,
    response: Option<LocationResponse>,
    e: RequestFailure,
)
    ensures
        probe_message(path, Err(e)) == Some(e.message@),
        first_location(response) is Some && first_location(response)->0.path is Some
            ==> probe_message(path, Ok(response)) is None && probe_place(Ok(response)) == (
            first_location(response)->0.path->0,
            first_location(response)->0.range.start,
        ),
        first_location(response) is None || first_location(response)->0.path is None
            ==> probe_message(path, Ok(response)) == Some("no definition returned for "@ + path),
{
}

/// A probe depends on its package in exactly the version in use, or in any where none is.
pub proof fn probes_pin_the_version(crate_name: Seq<char>, v: Seq<char>)
    ensures
        manifest_rows(crate_name, Some(v)).contains(crate_name + " = \""@ + ("="@ + v) + "\""@),
        manifest_rows(crate_name, None).contains(crate_name + " = \""@ + "*"@ + "\""@),
        probe_name(crate_name, Some(v)) == "probe-"@ + crate_name + "-"@ + v,
        probe_name(crate_name, None) == "probe-"@ + crate_name + "-"@ + "any"@,
{
    assert(manifest_rows(crate_name, Some(v))[6] == crate_name + " = \""@ + ("="@ + v) + "\""@);
    assert(manifest_rows(crate_name, None)[6] == crate_name + " = \""@ + "*"@ + "\""@);
}

/// A probe mentions every symbol on a line of its own, in order, behind two lines.
pub proof fn probes_mention_every_symbol(paths: Seq<Seq<char>>, i: int)
    requires
        0 <= i < paths.len(),
    ensures
        probe_rows(paths).len() == paths.len() + 3,
        probe_rows(paths)[i + 2] == "    let _ = "@ + paths[i] + ";"@,
{
    let rows = paths.map_values(|p: Seq<char>| mention_row(p));
    assert(probe_rows(paths)[i + 2] == rows[i]);
}

/// Seeds are seen whole.
pub proof fn seeds_are_seen_whole(r: ResolvedSeed, u: UnresolvedSeed)
    ensures
        r@.symbol == r.symbol@,
        r@.file == r.file@,
        r@.spelled == r.file.spelling(),
        r@.position == r.position,
        u@.symbol == u.symbol@,
        match u.reason {
            UnresolvedReason::NoDependency => u@.reason == Reason::NoDependency,
            UnresolvedReason::NotAffectedVersion(v) => u@.reason == Reason::NotAffectedVersion(v@),
            UnresolvedReason::ProbeFailed(m) => u@.reason == Reason::ProbeFailed(m@),
        },
        <ResolvedSeed as Named>::name(r@) == r.symbol.path@,
        <UnresolvedSeed as Named>::name(u@) == u.symbol.path@,
{
}

/// Packages are seen whole, one for one and in order.
pub proof fn packages_are_seen_whole(v: Seq<(String, String)>)
    ensures
        packages_view(v).len() == v.len(),
        forall|i: int| 0 <= i < v.len() ==> #[trigger] packages_view(v)[i] == (v[i].0@, v[i].1@),
{
}

/// Symbols have their paths one for one, in order.
pub proof fn every_symbol_has_its_path(symbols: Seq<VulnSymbol>, i: int)
    requires
        0 <= i < symbols.len(),
    ensures
        paths_of(symbols).len() == symbols.len(),
        paths_of(symbols)[i] == symbols[i].path@,
{
}

} // verus!
