//! Function-level affected-test resolution.
//!
//! A search reaches files. This module narrows file-level hits down to the test functions
//! whose range encloses a visited position.

use crate::bfs::{has_key, links, noted, spot, spots, BfsResult, Link, Spot};
use crate::order::{insert_ranked, ranked, views, Ranked};
use crate::path::{
    path_before, path_order_laws, text_before, text_is_before, text_order_laws, Component, Part,
    PathBuf,
};
use crate::test_goals::{copy_texts, goals_view, Goal, TestFn};
use crate::text::{chars_of, join, joined, same_text, string_of, texts};
use crate::types::Position;
use vstd::prelude::*;

verus! {

/// A test that a change reaches.
#[derive(Debug, PartialEq, Eq)]
pub struct AffectedTest {
    pub package: String,
    pub file: PathBuf,
    pub name: String,
    /// `<crate>::<file::components>::<mod>::<name>` — for display / JSON.
    pub full_path: String,
    /// `<file::components>::<mod>::<name>` — the path `cargo test -p PKG` matches against. It
    /// omits the crate because that filter works inside the selected target.
    pub test_path: String,
    /// 1-based line of the opening brace of the function body.
    pub line: u32,
}

/// An affected test, as contracts see it.
pub struct Affected {
    pub package: Seq<char>,
    pub file: Seq<Part>,
    pub name: Seq<char>,
    pub full_path: Seq<char>,
    pub test_path: Seq<char>,
    pub line: u32,
}

impl View for AffectedTest {
    type V = Affected;

    open spec fn view(&self) -> Affected {
        Affected {
            package: self.package@,
            file: self.file@,
            name: self.name@,
            full_path: self.full_path@,
            test_path: self.test_path@,
            line: self.line,
        }
    }
}

/// Order of affected tests: by package, file, name, full path, test path, and line.
pub open spec fn affected_before(a: Affected, b: Affected) -> bool {
    if a.package != b.package {
        text_before(a.package, b.package)
    } else if a.file != b.file {
        path_before(a.file, b.file)
    } else if a.name != b.name {
        text_before(a.name, b.name)
    } else if a.full_path != b.full_path {
        text_before(a.full_path, b.full_path)
    } else if a.test_path != b.test_path {
        text_before(a.test_path, b.test_path)
    } else {
        a.line < b.line
    }
}

impl Ranked for AffectedTest {
    open spec fn precedes(a: Affected, b: Affected) -> bool {
        affected_before(a, b)
    }

    proof fn precedes_laws(a: Affected, b: Affected, c: Affected) {
        text_order_laws(a.package, b.package, c.package);
        path_order_laws(a.file, b.file, c.file);
        text_order_laws(a.name, b.name, c.name);
        text_order_laws(a.full_path, b.full_path, c.full_path);
        text_order_laws(a.test_path, b.test_path, c.test_path);
        text_order_laws(b.package, a.package, c.package);
        path_order_laws(b.file, a.file, c.file);
        text_order_laws(b.name, a.name, c.name);
        text_order_laws(b.full_path, a.full_path, c.full_path);
        text_order_laws(b.test_path, a.test_path, c.test_path);
    }

    fn is_before(&self, other: &Self) -> (r: bool) {
        if !same_text(self.package.as_str(), other.package.as_str()) {
            return text_is_before(self.package.as_str(), other.package.as_str());
        }
        if !self.file.same(&other.file) {
            return self.file.comes_before(&other.file);
        }
        if !same_text(self.name.as_str(), other.name.as_str()) {
            return text_is_before(self.name.as_str(), other.name.as_str());
        }
        if !same_text(self.full_path.as_str(), other.full_path.as_str()) {
            return text_is_before(self.full_path.as_str(), other.full_path.as_str());
        }
        if !same_text(self.test_path.as_str(), other.test_path.as_str()) {
            return text_is_before(self.test_path.as_str(), other.test_path.as_str());
        }
        self.line < other.line
    }
}

// ---------------------------------------------------------------------------------------
// Packages
// ---------------------------------------------------------------------------------------
/// A package: its root and its name, as contracts see it.
pub type Package = (Seq<Part>, Seq<char>);

/// The packages of a workspace.
#[derive(Debug, PartialEq, Eq)]
pub struct PackageMap {
    /// (crate-root, package-name); sorted by descending root depth so the most specific match
    /// wins when packages nest.
    entries: Vec<(PathBuf, String)>,
}

/// Packages, as contracts see them.
pub open spec fn packages(v: Seq<(PathBuf, String)>) -> Seq<Package> {
    v.map_values(|e: (PathBuf, String)| (e.0@, e.1@))
}

impl View for PackageMap {
    type V = Seq<Package>;

    closed spec fn view(&self) -> Seq<Package> {
        packages(self.entries@)
    }
}

/// The number of entries in front that are at least as deep as `depth`.
pub open spec fn as_deep(entries: Seq<Package>, depth: nat) -> int
    decreases entries.len(),
{
    if entries.len() > 0 && entries[0].0.len() >= depth {
        1 + as_deep(entries.drop_first(), depth)
    } else {
        0
    }
}

/// Entries with one more, put behind those that are at least as deep.
pub open spec fn placed(entries: Seq<Package>, e: Package) -> Seq<Package> {
    entries.insert(as_deep(entries, e.0.len()), e)
}

/// Entries by descending depth; those of one depth in the given order.
pub open spec fn by_depth(given: Seq<Package>) -> Seq<Package>
    decreases given.len(),
{
    if given.len() == 0 {
        Seq::empty()
    } else {
        placed(by_depth(given.drop_last()), given.last())
    }
}

/// The first entry whose root holds a file.
pub open spec fn first_holding(entries: Seq<Package>, file: Seq<Part>) -> Option<Package>
    decreases entries.len(),
{
    if entries.len() == 0 {
        None
    } else if entries[0].0.is_prefix_of(file) {
        Some(entries[0])
    } else {
        first_holding(entries.drop_first(), file)
    }
}

proof fn as_deep_bounds(entries: Seq<Package>, depth: nat)
    ensures
        0 <= as_deep(entries, depth) <= entries.len(),
        forall|i: int| 0 <= i < as_deep(entries, depth) ==> (#[trigger] entries[i]).0.len() >= depth,
        as_deep(entries, depth) < entries.len() ==> entries[as_deep(entries, depth)].0.len() < depth,
    decreases entries.len(),
{
    if entries.len() > 0 && entries[0].0.len() >= depth {
        let rest = entries.drop_first();
        as_deep_bounds(rest, depth);
        assert forall|i: int| 0 <= i < as_deep(entries, depth) implies (#[trigger] entries[i]).0.len()
            >= depth by {
            if i > 0 {
                assert(entries[i] == rest[i - 1]);
            }
        }
        if as_deep(entries, depth) < entries.len() {
            assert(entries[as_deep(entries, depth)] == rest[as_deep(rest, depth)]);
        }
    }
}

impl PackageMap {
    /// A map of the given packages, each with the directory of its manifest.
    pub fn new(given: Vec<(PathBuf, String)>) -> (r: PackageMap)
        ensures
            r@ == by_depth(packages(given@)),
    {
        let ghost all = packages(given@);
        let mut entries: Vec<(PathBuf, String)> = Vec::new();
        let mut i: usize = 0;
        assert(all.take(0) =~= Seq::<Package>::empty());
        assert(packages(entries@) =~= Seq::<Package>::empty());
        while i < given.len()
            invariant
                i <= given@.len(),
                all == packages(given@),
                packages(entries@) == by_depth(all.take(i as int)),
            decreases given.len() - i,
        {
            let depth = given[i].0.len();
            let ghost now = packages(entries@);
            let mut k: usize = 0;
            assert(now.skip(0) =~= now);
            while k < entries.len() && entries[k].0.len() >= depth
                invariant
                    k <= entries@.len(),
                    now == packages(entries@),
                    as_deep(now, depth as nat) == k + as_deep(now.skip(k as int), depth as nat),
                decreases entries.len() - k,
            {
                proof {
                    assert(now.skip(k as int)[0] == now[k as int]);
                    assert(now[k as int].0 == entries@[k as int].0@);
                    assert(now.skip(k as int).drop_first() =~= now.skip(k + 1));
                }
                k = k + 1;
            }
            proof {
                if k < entries@.len() {
                    assert(now.skip(k as int)[0] == now[k as int]);
                    assert(now[k as int].0 == entries@[k as int].0@);
                }
                assert(as_deep(now, depth as nat) == k);
            }
            let entry = (given[i].0.clone(), given[i].1.clone());
            let ghost had = entries@;
            entries.insert(k, entry);
            proof {
                assert(packages(entries@) =~= now.insert(k as int, all[i as int]));
                assert(all.take(i + 1).drop_last() =~= all.take(i as int));
                assert(all.take(i + 1).last() == all[i as int]);
            }
            i = i + 1;
        }
        assert(all.take(i as int) =~= all);
        PackageMap { entries }
    }

    fn lookup(&self, file: &PathBuf) -> (r: Option<usize>)
        ensures
            match r {
                Some(i) => i < self@.len() && first_holding(self@, file@) == Some(self@[i as int]),
                None => first_holding(self@, file@) is None,
            },
    {
        let mut i: usize = 0;
        assert(self@.skip(0) =~= self@);
        while i < self.entries.len()
            invariant
                i <= self.entries@.len() == self@.len(),
                first_holding(self@, file@) == first_holding(self@.skip(i as int), file@),
            decreases self.entries.len() - i,
        {
            proof {
                assert(self@.skip(i as int)[0] == self@[i as int]);
                assert(self@[i as int].0 == self.entries@[i as int].0@);
                assert(self@.skip(i as int).drop_first() =~= self@.skip(i + 1));
            }
            if file.starts_with(&self.entries[i].0) {
                return Some(i);
            }
            i = i + 1;
        }
        None
    }

    /// The name of the package that a file belongs to.
    pub fn package_for(&self, file: &PathBuf) -> (r: Option<&str>)
        ensures
            match r {
                Some(name) => first_holding(self@, file@) matches Some(p) && p.1 == name@,
                None => first_holding(self@, file@) is None,
            },
    {
        match self.lookup(file) {
            Some(i) => Some(self.entries[i].1.as_str()),
            None => None,
        }
    }

    /// The root of the package that a file belongs to.
    pub fn root_for(&self, file: &PathBuf) -> (r: Option<&PathBuf>)
        ensures
            match r {
                Some(root) => first_holding(self@, file@) matches Some(p) && p.0 == root@,
                None => first_holding(self@, file@) is None,
            },
    {
        match self.lookup(file) {
            Some(i) => Some(&self.entries[i].0),
            None => None,
        }
    }
}

proof fn by_depth_sorted(given: Seq<Package>)
    ensures
        forall|i: int, j: int|
            0 <= i < j < by_depth(given).len() ==> (#[trigger] by_depth(given)[i]).0.len() >= (
            #[trigger] by_depth(given)[j]).0.len(),
        forall|e: Package| #[trigger] by_depth(given).contains(e) <==> given.contains(e),
    decreases given.len(),
{
    if given.len() > 0 {
        let front = given.drop_last();
        let e = given.last();
        by_depth_sorted(front);
        let before = by_depth(front);
        let after = by_depth(given);
        let k = as_deep(before, e.0.len());
        as_deep_bounds(before, e.0.len());
        assert(after == before.insert(k, e));
        assert forall|i: int, j: int| 0 <= i < j < after.len() implies (#[trigger] after[i]).0.len()
            >= (#[trigger] after[j]).0.len() by {
            if j < k {
                assert(after[i] == before[i] && after[j] == before[j]);
            } else if j == k {
                assert(after[i] == before[i]);
            } else if i < k {
                assert(after[i] == before[i] && after[j] == before[j - 1]);
            } else if i == k {
                assert(after[j] == before[j - 1]);
                if j - 1 > k {
                    assert(before[k].0.len() >= before[j - 1].0.len());
                }
            } else {
                assert(after[i] == before[i - 1] && after[j] == before[j - 1]);
            }
        }
        assert forall|x: Package| #[trigger] after.contains(x) <==> given.contains(x) by {
            if after.contains(x) {
                let i = choose|i: int| 0 <= i < after.len() && after[i] == x;
                if i == k {
                    assert(given[given.len() - 1] == x);
                } else {
                    if i < k {
                        assert(before[i] == x);
                    } else {
                        assert(before[i - 1] == x);
                    }
                    assert(before.contains(x));
                    let m = choose|m: int| 0 <= m < front.len() && front[m] == x;
                    assert(given[m] == x);
                }
            }
            if given.contains(x) {
                let m = choose|m: int| 0 <= m < given.len() && given[m] == x;
                if m == given.len() - 1 {
                    assert(after[k] == x);
                } else {
                    assert(front[m] == x);
                    assert(before.contains(x));
                    let i = choose|i: int| 0 <= i < before.len() && before[i] == x;
                    if i < k {
                        assert(after[i] == x);
                    } else {
                        assert(after[i + 1] == x);
                    }
                }
            }
        }
    }
}

proof fn first_holding_is_first(entries: Seq<Package>, file: Seq<Part>)
    ensures
        match first_holding(entries, file) {
            Some(p) => exists|i: int|
                0 <= i < entries.len() && (#[trigger] entries[i]) == p && p.0.is_prefix_of(file)
                    && forall|j: int|
                    0 <= j < i ==> !(#[trigger] entries[j]).0.is_prefix_of(file),
            None => forall|j: int|
                0 <= j < entries.len() ==> !(#[trigger] entries[j]).0.is_prefix_of(file),
        },
    decreases entries.len(),
{
    if entries.len() > 0 && !entries[0].0.is_prefix_of(file) {
        let rest = entries.drop_first();
        first_holding_is_first(rest, file);
        match first_holding(rest, file) {
            Some(p) => {
                let i = choose|i: int|
                    0 <= i < rest.len() && (#[trigger] rest[i]) == p && p.0.is_prefix_of(file)
                        && forall|j: int|
                        0 <= j < i ==> !(#[trigger] rest[j]).0.is_prefix_of(file);
                assert(entries[i + 1] == p);
                assert forall|j: int| 0 <= j < i + 1 implies !(
                #[trigger] entries[j]).0.is_prefix_of(file) by {
                    if j > 0 {
                        assert(entries[j] == rest[j - 1]);
                    }
                }
            },
            None => {
                assert forall|j: int| 0 <= j < entries.len() implies !(
                #[trigger] entries[j]).0.is_prefix_of(file) by {
                    if j > 0 {
                        assert(entries[j] == rest[j - 1]);
                    }
                }
            },
        }
    } else if entries.len() > 0 {
        assert(entries[0].0.is_prefix_of(file));
    }
}

/// A file belongs to a package exactly where some root holds it, and then to one of the
/// deepest such roots.
pub proof fn deepest_package_wins(given: Seq<Package>, file: Seq<Part>)
    ensures
        match first_holding(by_depth(given), file) {
            Some(p) => given.contains(p) && p.0.is_prefix_of(file) && forall|q: Package| #[trigger]
                given.contains(q) && q.0.is_prefix_of(file) ==> q.0.len() <= p.0.len(),
            None => forall|q: Package| #[trigger]
                given.contains(q) ==> !q.0.is_prefix_of(file),
        },
{
    let all = by_depth(given);
    by_depth_sorted(given);
    first_holding_is_first(all, file);
    match first_holding(all, file) {
        Some(p) => {
            let i = choose|i: int|
                0 <= i < all.len() && (#[trigger] all[i]) == p && p.0.is_prefix_of(file)
                    && forall|j: int| 0 <= j < i ==> !(#[trigger] all[j]).0.is_prefix_of(file);
            assert(all.contains(p));
            assert forall|q: Package| #[trigger] given.contains(q) && q.0.is_prefix_of(
                file,
            ) implies q.0.len() <= p.0.len() by {
                assert(all.contains(q));
                let k = choose|k: int| 0 <= k < all.len() && all[k] == q;
                if k < i {
                    assert(!all[k].0.is_prefix_of(file));
                } else if k > i {
                    assert(all[i].0.len() >= all[k].0.len());
                }
            }
        },
        None => {
            assert forall|q: Package| #[trigger] given.contains(q) implies !q.0.is_prefix_of(file) by {
                assert(all.contains(q));
                let k = choose|k: int| 0 <= k < all.len() && all[k] == q;
                assert(!all[k].0.is_prefix_of(file));
            }
        },
    }
}

// ---------------------------------------------------------------------------------------
// Test paths
// ---------------------------------------------------------------------------------------
/// What is left of a path below a root; the path itself where it does not lie below.
pub open spec fn below(path: Seq<Part>, root: Seq<Part>) -> Seq<Part> {
    if root.is_prefix_of(path) {
        path.skip(root.len() as int)
    } else {
        path
    }
}

/// The names in a path, in order.
pub open spec fn names_in(path: Seq<Part>) -> Seq<Seq<char>>
    decreases path.len(),
{
    if path.len() == 0 {
        Seq::empty()
    } else {
        match path.last() {
            Part::Name(n) => names_in(path.drop_last()).push(n),
            _ => names_in(path.drop_last()),
        }
    }
}

/// A text without the ending `.rs`.
pub open spec fn without_rs(s: Seq<char>) -> Seq<char> {
    if ".rs"@.is_suffix_of(s) {
        s.take(s.len() - 3)
    } else {
        s
    }
}

/// The module names that a file stands for: its path below the crate root, without a leading
/// `src`, without the ending, without a final `lib` or `main`, and without a final `mod` below a
/// directory.
pub open spec fn file_modules(rel: Seq<Part>) -> Seq<Seq<char>> {
    let names = names_in(rel);
    let inner = if names.len() > 0 && names[0] == "src"@ {
        names.drop_first()
    } else {
        names
    };
    let stems = if inner.len() > 0 {
        inner.drop_last().push(without_rs(inner.last()))
    } else {
        inner
    };
    if stems.len() > 0 && (stems.last() == "lib"@ || stems.last() == "main"@) {
        stems.drop_last()
    } else if stems.len() > 1 && stems.last() == "mod"@ {
        stems.drop_last()
    } else {
        stems
    }
}

/// The path under which `cargo test` knows a test.
pub open spec fn test_path_of(t: Goal, crate_root: Seq<Part>) -> Seq<char> {
    joined(file_modules(below(t.file, crate_root)) + t.mod_path + seq![t.name], "::"@)
}

/// A text with every dash made an underscore.
pub open spec fn underscored(s: Seq<char>) -> Seq<char> {
    s.map_values(
        |c: char|
            if c == '-' {
                '_'
            } else {
                c
            },
    )
}

/// The affected test that a test function is.
pub open spec fn affected_of(t: Goal, packages: Seq<Package>, workspace: Seq<Part>) -> Affected {
    let (package, root) = match first_holding(packages, t.file) {
        Some(p) => (p.1, p.0),
        None => ("<unknown>"@, workspace),
    };
    let test_path = test_path_of(t, root);
    Affected {
        package,
        file: t.file,
        name: t.name,
        full_path: underscored(package) + "::"@ + test_path,
        test_path,
        line: t.brace_line,
    }
}

fn names(path: &PathBuf) -> (out: Vec<String>)
    ensures
        texts(out@) == names_in(path@),
{
    let mut out: Vec<String> = Vec::new();
    let mut i: usize = 0;
    assert(path@.take(0) =~= Seq::<Part>::empty());
    assert(texts(out@) =~= Seq::<Seq<char>>::empty());
    while i < path.len()
        invariant
            i <= path@.len(),
            texts(out@) == names_in(path@.take(i as int)),
        decreases path@.len() - i,
    {
        proof {
            assert(path@.take(i + 1).drop_last() =~= path@.take(i as int));
            assert(path@.take(i + 1).last() == path@[i as int]);
        }
        let ghost had = out@;
        if let Component::Normal(name) = path.component(i) {
            out.push(name.clone());
            assert(texts(out@) =~= texts(had).push(name@));
        }
        i = i + 1;
    }
    assert(path@.take(i as int) =~= path@);
    out
}

fn strip_rs(s: &str) -> (r: String)
    ensures
        r@ == without_rs(s@),
{
    let c = chars_of(s);
    let n = c.len();
    proof {
        reveal_strlit(".rs");
    }
    if n >= 3 && c[n - 3] == '.' && c[n - 2] == 'r' && c[n - 1] == 's' {
        assert(s@.subrange(n - 3, n as int) =~= ".rs"@);
        let r = string_of(&c[0..n - 3]);
        assert(c@.subrange(0, n - 3) =~= s@.take(n - 3));
        r
    } else {
        proof {
            if ".rs"@.is_suffix_of(s@) {
                let tail = s@.subrange(n - 3, n as int);
                assert(tail[0] == s@[n - 3] && tail[1] == s@[n - 2] && tail[2] == s@[n - 1]);
            }
        }
        s.to_owned()
    }
}

/// The path under which `cargo test` knows a test: the modules that its file stands for, its
/// inline modules, and its name.
pub fn test_path_for(t: &TestFn, crate_root: &PathBuf) -> (r: String)
    ensures
        r@ == test_path_of(t@, crate_root@),
{
    let rel = match t.file.strip_prefix(crate_root) {
        Some(p) => p,
        None => t.file.clone(),
    };
    assert(rel@ == below(t.file@, crate_root@));
    let mut segs = names(&rel);
    let ghost all = names_in(rel@);
    if segs.len() > 0 && same_text(segs[0].as_str(), "src") {
        assert(all[0] == segs@[0]@);
        let ghost had = segs@;
        segs.remove(0);
        assert(texts(segs@) =~= texts(had).drop_first());
    } else if segs.len() > 0 {
        assert(all[0] == segs@[0]@);
    }
    let ghost inner = texts(segs@);
    if let Some(last) = segs.pop() {
        let ghost front = segs@;
        assert(texts(front) =~= inner.drop_last());
        assert(inner.last() == last@);
        let stem = strip_rs(last.as_str());
        let is_root = same_text(stem.as_str(), "lib") || same_text(stem.as_str(), "main");
        let is_mod = same_text(stem.as_str(), "mod") && segs.len() > 0;
        assert(inner.drop_last().push(stem@).last() == stem@);
        if !is_root && !is_mod {
            segs.push(stem);
            assert(texts(segs@) =~= inner.drop_last().push(without_rs(inner.last())));
        } else {
            assert(inner.drop_last().push(stem@).drop_last() =~= inner.drop_last());
        }
    }
    let ghost modules = texts(segs@);
    assert(modules == file_modules(rel@));
    let mut inline_mods = copy_texts(&t.mod_path);
    let ghost a = segs@;
    let ghost b = inline_mods@;
    segs.append(&mut inline_mods);
    assert(texts(segs@) =~= texts(a) + texts(b));
    segs.push(t.name.clone());
    assert(texts(segs@) =~= modules + t@.mod_path + seq![t.name@]);
    join(&segs, "::")
}

fn with_underscores(s: &str) -> (r: String)
    ensures
        r@ == underscored(s@),
{
    let c = chars_of(s);
    let mut out: Vec<char> = Vec::new();
    let mut i: usize = 0;
    while i < c.len()
        invariant
            i <= c@.len(),
            c@ == s@,
            out@.len() == i,
            forall|k: int| 0 <= k < i ==> #[trigger] out@[k] == underscored(s@)[k],
        decreases c.len() - i,
    {
        if c[i] == '-' {
            out.push('_');
        } else {
            out.push(c[i]);
        }
        i = i + 1;
    }
    assert(out@ =~= underscored(s@));
    string_of(out.as_slice())
}

/// The affected test that a test function is.
pub fn make_affected(t: &TestFn, packages: &PackageMap, workspace: &PathBuf) -> (r: AffectedTest)
    ensures
        r@ == affected_of(t@, packages@, workspace@),
{
    let package = match packages.package_for(&t.file) {
        Some(name) => name.to_owned(),
        None => "<unknown>".to_owned(),
    };
    let crate_root = match packages.root_for(&t.file) {
        Some(root) => root,
        None => workspace,
    };
    let test_path = test_path_for(t, crate_root);
    let mut full_path = with_underscores(package.as_str());
    full_path.append("::");
    full_path.append(test_path.as_str());
    AffectedTest {
        package,
        file: t.file.clone(),
        name: t.name.clone(),
        full_path,
        test_path,
        line: t.brace_line,
    }
}

// ---------------------------------------------------------------------------------------
// Resolution
// ---------------------------------------------------------------------------------------
/// Test functions, file by file.
pub type TestsByFile = Vec<(PathBuf, Vec<TestFn>)>;

/// The test functions that are listed for a file.
pub open spec fn tests_in(v: Seq<(PathBuf, Vec<TestFn>)>, file: Seq<Part>) -> Seq<Goal>
    decreases v.len(),
{
    if v.len() == 0 {
        Seq::empty()
    } else if v[0].0@ == file {
        goals_view(v[0].1@)
    } else {
        tests_in(v.drop_first(), file)
    }
}

/// Whether a 0-based line lies in the 1-based range of a test.
pub open spec fn encloses(t: Goal, line0: u32) -> bool {
    t.body_range.0 <= line0 + 1 <= t.body_range.1
}

/// Whether a place counts as visited: the change itself, a place that the search came by, or
/// a reference in a test file.
pub open spec fn visited(starts: Seq<Spot>, found: BfsResult, n: Spot) -> bool {
    starts.contains(n) || has_key(links(found.parents@), n) || noted(found.entry_hits@, n)
}

/// Whether a test encloses one of the places, and is the affected test `a`.
pub open spec fn encloses_one(
    ns: Seq<Spot>,
    tests: Seq<(PathBuf, Vec<TestFn>)>,
    packages: Seq<Package>,
    workspace: Seq<Part>,
    a: Affected,
) -> bool {
    exists|i: int, k: int|
        #![trigger ns[i], tests_in(tests, ns[i].0)[k]]
        0 <= i < ns.len() && 0 <= k < tests_in(tests, ns[i].0).len() && encloses(
            tests_in(tests, ns[i].0)[k],
            ns[i].1.line,
        ) && a == affected_of(tests_in(tests, ns[i].0)[k], packages, workspace)
}

/// Positions are 0-based; `body_range` is 1-based.
pub fn pos_in_body(pos: Position, t: &TestFn) -> (r: bool)
    ensures
        r == encloses(t@, pos.line),
        r <==> t.body_range.0 <= pos.line + 1 && pos.line + 1 <= t.body_range.1,
{
    let line: u64 = pos.line as u64 + 1;
    t.body_range.0 as u64 <= line && line <= t.body_range.1 as u64
}

/// The places that count as visited.
fn visited_spots(starts: &Vec<(PathBuf, Position)>, found: &BfsResult) -> (out: Vec<
    (PathBuf, Position),
>)
    ensures
        forall|n: Spot| #[trigger]
            spots(out@).contains(n) <==> visited(spots(starts@), *found, n),
{
    let mut out: Vec<(PathBuf, Position)> = Vec::new();
    let ghost from = spots(starts@);
    let ghost ls = links(found.parents@);
    let mut i: usize = 0;
    while i < starts.len()
        invariant
            i <= starts@.len(),
            from == spots(starts@),
            spots(out@) =~= from.take(i as int),
        decreases starts.len() - i,
    {
        let ghost had = out@;
        out.push((starts[i].0.clone(), starts[i].1));
        assert(spots(out@) =~= spots(had).push(from[i as int]));
        i = i + 1;
    }
    assert(from.take(i as int) =~= from);
    let mut j: usize = 0;
    while j < found.parents.len()
        invariant
            j <= found.parents@.len(),
            ls == links(found.parents@),
            forall|n: Spot| #[trigger]
                spots(out@).contains(n) <==> from.contains(n) || has_key(ls.take(j as int), n),
        decreases found.parents.len() - j,
    {
        let ghost had = out@;
        let ghost key = ls[j as int].0;
        let entry = &found.parents[j].0;
        out.push((entry.0.clone(), entry.1));
        proof {
            assert(key == spot(*entry));
            assert(spots(out@) =~= spots(had).push(key));
            assert forall|n: Spot| #[trigger] spots(out@).contains(n) <==> from.contains(n)
                || has_key(ls.take(j + 1), n) by {
                push_contains(spots(had), key, n);
                key_taken(ls, j as int, n);
                assert(spots(had).contains(n) <==> from.contains(n) || has_key(
                    ls.take(j as int),
                    n,
                ));
            }
        }
        j = j + 1;
    }
    assert(ls.take(j as int) =~= ls);
    let ghost eh = found.entry_hits@;
    let mut k: usize = 0;
    assert(forall|n: Spot| !(#[trigger] noted(eh.take(0), n)));
    while k < found.entry_hits.len()
        invariant
            k <= found.entry_hits@.len(),
            eh == found.entry_hits@,
            forall|n: Spot| #[trigger]
                spots(out@).contains(n) <==> from.contains(n) || has_key(ls, n) || noted(
                    eh.take(k as int),
                    n,
                ),
        decreases found.entry_hits.len() - k,
    {
        let (file, row) = (&found.entry_hits[k].0, &found.entry_hits[k].1);
        let ghost before = spots(out@);
        let mut m: usize = 0;
        while m < row.len()
            invariant
                m <= row@.len(),
                forall|n: Spot| #[trigger]
                    spots(out@).contains(n) <==> before.contains(n) || (n.0 == file@
                        && row@.take(m as int).contains(n.1)),
            decreases row.len() - m,
        {
            let ghost had = out@;
            let pos = row[m];
            out.push((file.clone(), pos));
            proof {
                assert(spots(out@) =~= spots(had).push((file@, pos)));
                assert forall|n: Spot| #[trigger] spots(out@).contains(n) <==> before.contains(n)
                    || (n.0 == file@ && row@.take(m + 1).contains(n.1)) by {
                    push_contains(spots(had), (file@, pos), n);
                    assert(row@.take(m + 1) =~= row@.take(m as int).push(pos));
                    pos_push_contains(row@.take(m as int), pos, n.1);
                    assert(spots(had).contains(n) <==> before.contains(n) || (n.0 == file@
                        && row@.take(m as int).contains(n.1)));
                }
            }
            m = m + 1;
        }
        proof {
            assert(row@.take(m as int) =~= row@);
            assert forall|n: Spot| #[trigger] spots(out@).contains(n) <==> from.contains(n)
                || has_key(ls, n) || noted(eh.take(k + 1), n) by {
                noted_taken(eh, k as int, n);
                assert(before.contains(n) <==> from.contains(n) || has_key(ls, n) || noted(
                    eh.take(k as int),
                    n,
                ));
            }
        }
        k = k + 1;
    }
    assert(eh.take(k as int) =~= eh);
    out
}

proof fn push_contains(a: Seq<Spot>, y: Spot, x: Spot)
    ensures
        a.push(y).contains(x) <==> a.contains(x) || x == y,
{
    if a.contains(x) {
        let i = choose|i: int| 0 <= i < a.len() && a[i] == x;
        assert(a.push(y)[i] == x);
    }
    if x == y {
        assert(a.push(y)[a.len() as int] == x);
    }
}

proof fn pos_push_contains(a: Seq<Position>, y: Position, x: Position)
    ensures
        a.push(y).contains(x) <==> a.contains(x) || x == y,
{
    if a.contains(x) {
        let i = choose|i: int| 0 <= i < a.len() && a[i] == x;
        assert(a.push(y)[i] == x);
    }
    if x == y {
        assert(a.push(y)[a.len() as int] == x);
    }
}

proof fn key_taken(ls: Seq<Link>, j: int, n: Spot)
    requires
        0 <= j < ls.len(),
    ensures
        has_key(ls.take(j + 1), n) <==> has_key(ls.take(j), n) || ls[j].0 == n,
{
    let a = ls.take(j);
    let b = ls.take(j + 1);
    if has_key(a, n) {
        let i = choose|i: int| 0 <= i < a.len() && (#[trigger] a[i]).0 == n;
        assert(b[i].0 == n);
    }
    if ls[j].0 == n {
        assert(b[j].0 == n);
    }
    if has_key(b, n) {
        let i = choose|i: int| 0 <= i < b.len() && (#[trigger] b[i]).0 == n;
        if i < j {
            assert(a[i].0 == n);
        }
    }
}

proof fn noted_taken(eh: Seq<(PathBuf, Vec<Position>)>, k: int, n: Spot)
    requires
        0 <= k < eh.len(),
    ensures
        noted(eh.take(k + 1), n) <==> noted(eh.take(k), n) || (eh[k].0@ == n.0
            && eh[k].1@.contains(n.1)),
{
    let a = eh.take(k);
    let b = eh.take(k + 1);
    if noted(a, n) {
        let i = choose|i: int|
            0 <= i < a.len() && (#[trigger] a[i]).0@ == n.0 && a[i].1@.contains(n.1);
        assert(b[i] == a[i]);
    }
    if eh[k].0@ == n.0 && eh[k].1@.contains(n.1) {
        assert(b[k] == eh[k]);
    }
    if noted(b, n) {
        let i = choose|i: int|
            0 <= i < b.len() && (#[trigger] b[i]).0@ == n.0 && b[i].1@.contains(n.1);
        if i < k {
            assert(a[i] == b[i]);
        }
    }
}

/// The place of a file in a list of tests.
fn find_tests(tests: &TestsByFile, file: &PathBuf) -> (r: Option<usize>)
    ensures
        match r {
            Some(i) => i < tests@.len() && tests_in(tests@, file@) == goals_view(
                tests@[i as int].1@,
            ) && tests@[i as int].0@ == file@,
            None => tests_in(tests@, file@).len() == 0 && forall|j: int|
                0 <= j < tests@.len() ==> (#[trigger] tests@[j]).0@ != file@,
        },
{
    let mut i: usize = 0;
    assert(tests@.skip(0) =~= tests@);
    while i < tests.len()
        invariant
            i <= tests@.len(),
            tests_in(tests@, file@) == tests_in(tests@.skip(i as int), file@),
            forall|j: int| 0 <= j < i ==> (#[trigger] tests@[j]).0@ != file@,
        decreases tests.len() - i,
    {
        proof {
            assert(tests@.skip(i as int)[0] == tests@[i as int]);
            assert(tests@.skip(i as int).drop_first() =~= tests@.skip(i + 1));
        }
        if tests[i].0.same(file) {
            return Some(i);
        }
        i = i + 1;
    }
    None
}

/// The tests that enclose a visited place, in order.
///
/// Places come from three sources, so that it does not matter which one carries a hit: the
/// changes themselves, in case the edit landed directly inside a test; every place that the
/// search came by; and the references that landed inside a test file, which a search notes
/// but does not follow.
pub fn resolve(
    starts: &Vec<(PathBuf, Position)>,
    bfs: &BfsResult,
    tests_by_file: &TestsByFile,
    packages: &PackageMap,
    workspace: &PathBuf,
) -> (out: Vec<AffectedTest>)
    ensures
        ranked::<AffectedTest>(views(out@)),
        forall|a: Affected| #[trigger]
            views(out@).to_set().contains(a) <==> exists|n: Spot, k: int|
                #![trigger tests_in(tests_by_file@, n.0)[k]]
                visited(spots(starts@), *bfs, n) && 0 <= k < tests_in(tests_by_file@, n.0).len()
                    && encloses(tests_in(tests_by_file@, n.0)[k], n.1.line) && a == affected_of(
                    tests_in(tests_by_file@, n.0)[k],
                    packages@,
                    workspace@,
                ),
{
    let places = visited_spots(starts, bfs);
    let ghost ns = spots(places@);
    let mut out: Vec<AffectedTest> = Vec::new();
    let mut i: usize = 0;
    assert(views(out@) =~= Seq::<Affected>::empty());
    while i < places.len()
        invariant
            i <= places@.len(),
            ns == spots(places@),
            ranked::<AffectedTest>(views(out@)),
            forall|a: Affected| #[trigger]
                views(out@).to_set().contains(a) <==> encloses_one(
                    ns.take(i as int),
                    tests_by_file@,
                    packages@,
                    workspace@,
                    a,
                ),
        decreases places.len() - i,
    {
        let file = &places[i].0;
        let pos = places[i].1;
        let ghost n = ns[i as int];
        assert(n == (file@, pos));
        let ghost row = tests_in(tests_by_file@, n.0);
        let ghost before = views(out@).to_set();
        let ghost mut done: int = 0;
        assert(row.len() > 0 || row.len() == 0);
        if let Some(at) = find_tests(tests_by_file, file) {
            let tests = &tests_by_file[at].1;
            let mut k: usize = 0;
            while k < tests.len()
                invariant
                    k <= tests@.len(),
                    row == goals_view(tests@),
                    ranked::<AffectedTest>(views(out@)),
                    forall|a: Affected| #[trigger]
                        views(out@).to_set().contains(a) <==> before.contains(a) || exists|j: int|
                            0 <= j < k && encloses(#[trigger] row[j], pos.line) && a == affected_of(
                                row[j],
                                packages@,
                                workspace@,
                            ),
                decreases tests.len() - k,
            {
                let ghost had = views(out@).to_set();
                let t = &tests[k];
                assert(row[k as int] == t@);
                if pos_in_body(pos, t) {
                    let a = make_affected(t, packages, workspace);
                    insert_ranked(&mut out, a);
                }
                proof {
                    assert forall|a: Affected| #[trigger]
                        views(out@).to_set().contains(a) <==> before.contains(a) || exists|j: int|
                            0 <= j < k + 1 && encloses(#[trigger] row[j], pos.line) && a
                                == affected_of(row[j], packages@, workspace@) by {
                        assert(had.contains(a) <==> before.contains(a) || exists|j: int|
                            0 <= j < k && encloses(#[trigger] row[j], pos.line) && a == affected_of(
                                row[j],
                                packages@,
                                workspace@,
                            ));
                    }
                }
                k = k + 1;
            }
            proof {
                done = k as int;
            }
        }
        proof {
            assert(done == row.len());
            assert forall|a: Affected| #[trigger]
                views(out@).to_set().contains(a) <==> encloses_one(
                    ns.take(i + 1),
                    tests_by_file@,
                    packages@,
                    workspace@,
                    a,
                ) by {
                enclosed_taken(ns, i as int, tests_by_file@, packages@, workspace@, a);
            }
        }
        i = i + 1;
    }
    proof {
        assert(ns.take(i as int) =~= ns);
        assert forall|a: Affected| #[trigger]
            views(out@).to_set().contains(a) <==> exists|n: Spot, k: int|
                #![trigger tests_in(tests_by_file@, n.0)[k]]
                visited(spots(starts@), *bfs, n) && 0 <= k < tests_in(tests_by_file@, n.0).len()
                    && encloses(tests_in(tests_by_file@, n.0)[k], n.1.line) && a == affected_of(
                    tests_in(tests_by_file@, n.0)[k],
                    packages@,
                    workspace@,
                ) by {
            if encloses_one(ns, tests_by_file@, packages@, workspace@, a) {
                let (j, k) = choose|j: int, k: int|
                    #![trigger ns[j], tests_in(tests_by_file@, ns[j].0)[k]]
                    0 <= j < ns.len() && 0 <= k < tests_in(tests_by_file@, ns[j].0).len()
                        && encloses(tests_in(tests_by_file@, ns[j].0)[k], ns[j].1.line) && a
                        == affected_of(
                        tests_in(tests_by_file@, ns[j].0)[k],
                        packages@,
                        workspace@,
                    );
                let n = ns[j];
                assert(ns.contains(n));
                assert(encloses(tests_in(tests_by_file@, n.0)[k], n.1.line));
            }
            if exists|n: Spot, k: int|
                #![trigger tests_in(tests_by_file@, n.0)[k]]
                visited(spots(starts@), *bfs, n) && 0 <= k < tests_in(tests_by_file@, n.0).len()
                    && encloses(tests_in(tests_by_file@, n.0)[k], n.1.line) && a == affected_of(
                    tests_in(tests_by_file@, n.0)[k],
                    packages@,
                    workspace@,
                ) {
                let (n, k) = choose|n: Spot, k: int|
                    #![trigger tests_in(tests_by_file@, n.0)[k]]
                    visited(spots(starts@), *bfs, n) && 0 <= k < tests_in(tests_by_file@, n.0).len()
                        && encloses(tests_in(tests_by_file@, n.0)[k], n.1.line) && a == affected_of(
                        tests_in(tests_by_file@, n.0)[k],
                        packages@,
                        workspace@,
                    );
                assert(ns.contains(n));
                let j = choose|j: int| 0 <= j < ns.len() && ns[j] == n;
                assert(encloses(tests_in(tests_by_file@, ns[j].0)[k], ns[j].1.line));
            }
        }
    }
    out
}

proof fn enclosed_taken(
    ns: Seq<Spot>,
    i: int,
    tests: Seq<(PathBuf, Vec<TestFn>)>,
    packages: Seq<Package>,
    workspace: Seq<Part>,
    a: Affected,
)
    requires
        0 <= i < ns.len(),
    ensures
        encloses_one(ns.take(i + 1), tests, packages, workspace, a) <==> encloses_one(
            ns.take(i),
            tests,
            packages,
            workspace,
            a,
        ) || exists|k: int|
            0 <= k < tests_in(tests, ns[i].0).len() && encloses(
                #[trigger] tests_in(tests, ns[i].0)[k],
                ns[i].1.line,
            ) && a == affected_of(tests_in(tests, ns[i].0)[k], packages, workspace),
{
    let x = ns.take(i);
    let y = ns.take(i + 1);
    if encloses_one(x, tests, packages, workspace, a) {
        let (j, k) = choose|j: int, k: int|
            #![trigger x[j], tests_in(tests, x[j].0)[k]]
            0 <= j < x.len() && 0 <= k < tests_in(tests, x[j].0).len() && encloses(
                tests_in(tests, x[j].0)[k],
                x[j].1.line,
            ) && a == affected_of(tests_in(tests, x[j].0)[k], packages, workspace);
        assert(y[j] == x[j]);
        assert(encloses(tests_in(tests, y[j].0)[k], y[j].1.line));
    }
    if exists|k: int|
        0 <= k < tests_in(tests, ns[i].0).len() && encloses(
            #[trigger] tests_in(tests, ns[i].0)[k],
            ns[i].1.line,
        ) && a == affected_of(tests_in(tests, ns[i].0)[k], packages, workspace) {
        let k = choose|k: int|
            0 <= k < tests_in(tests, ns[i].0).len() && encloses(
                #[trigger] tests_in(tests, ns[i].0)[k],
                ns[i].1.line,
            ) && a == affected_of(tests_in(tests, ns[i].0)[k], packages, workspace);
        assert(y[i] == ns[i]);
        assert(encloses(tests_in(tests, y[i].0)[k], y[i].1.line));
    }
    if encloses_one(y, tests, packages, workspace, a) {
        let (j, k) = choose|j: int, k: int|
            #![trigger y[j], tests_in(tests, y[j].0)[k]]
            0 <= j < y.len() && 0 <= k < tests_in(tests, y[j].0).len() && encloses(
                tests_in(tests, y[j].0)[k],
                y[j].1.line,
            ) && a == affected_of(tests_in(tests, y[j].0)[k], packages, workspace);
        if j < i {
            assert(x[j] == y[j]);
            assert(encloses(tests_in(tests, x[j].0)[k], x[j].1.line));
        } else {
            assert(encloses(tests_in(tests, ns[i].0)[k], ns[i].1.line));
        }
    }
}

/// The test functions of a file among those given, in order.
pub open spec fn of_file(given: Seq<Goal>, file: Seq<Part>) -> Seq<Goal>
    decreases given.len(),
{
    if given.len() == 0 {
        Seq::empty()
    } else if given.last().file == file {
        of_file(given.drop_last(), file).push(given.last())
    } else {
        of_file(given.drop_last(), file)
    }
}

/// Whether every file has one entry.
pub open spec fn one_entry_each(v: Seq<(PathBuf, Vec<TestFn>)>) -> bool {
    forall|i: int, j: int| 0 <= i < j < v.len() ==> (#[trigger] v[i]).0@ != (#[trigger] v[j]).0@
}

proof fn tests_in_at(v: Seq<(PathBuf, Vec<TestFn>)>, i: int)
    requires
        one_entry_each(v),
        0 <= i < v.len(),
    ensures
        tests_in(v, v[i].0@) == goals_view(v[i].1@),
    decreases v.len(),
{
    if i > 0 {
        assert(v[0].0@ != v[i].0@);
        let r = v.drop_first();
        assert(r[i - 1] == v[i]);
        assert forall|a: int, b: int| 0 <= a < b < r.len() implies (#[trigger] r[a]).0@ != (
        #[trigger] r[b]).0@ by {
            assert(r[a] == v[a + 1] && r[b] == v[b + 1]);
        }
        tests_in_at(r, i - 1);
    }
}

proof fn tests_in_none(v: Seq<(PathBuf, Vec<TestFn>)>, file: Seq<Part>)
    requires
        forall|i: int| 0 <= i < v.len() ==> (#[trigger] v[i]).0@ != file,
    ensures
        tests_in(v, file) == Seq::<Goal>::empty(),
    decreases v.len(),
{
    if v.len() > 0 {
        let r = v.drop_first();
        assert forall|i: int| 0 <= i < r.len() implies (#[trigger] r[i]).0@ != file by {
            assert(r[i] == v[i + 1]);
        }
        assert(v[0].0@ != file);
        tests_in_none(r, file);
    }
}

/// Lists test functions file by file.
pub fn group_by_file(tests: Vec<TestFn>) -> (out: TestsByFile)
    ensures
        one_entry_each(out@),
        forall|file: Seq<Part>| #[trigger]
            tests_in(out@, file) == of_file(goals_view(tests@), file),
        forall|i: int| 0 <= i < out@.len() ==> (#[trigger] out@[i]).1@.len() > 0,
{
    let ghost all = goals_view(tests@);
    let mut out: TestsByFile = Vec::new();
    let mut i: usize = 0;
    assert(all.take(0) =~= Seq::<Goal>::empty());
    assert forall|file: Seq<Part>| #[trigger] tests_in(out@, file) == of_file(all.take(0), file) by {}
    while i < tests.len()
        invariant
            i <= tests@.len(),
            all == goals_view(tests@),
            one_entry_each(out@),
            forall|file: Seq<Part>| #[trigger]
                tests_in(out@, file) == of_file(all.take(i as int), file),
            forall|k: int| 0 <= k < out@.len() ==> (#[trigger] out@[k]).1@.len() > 0,
        decreases tests.len() - i,
    {
        let t = tests[i].clone();
        let ghost had = out@;
        let ghost goal = t@;
        let ghost done = i as int;
        proof {
            assert(all[done] == goal);
            assert(all.take(done + 1).drop_last() =~= all.take(done));
            assert(all.take(done + 1).last() == goal);
        }
        match find_tests(&out, &t.file) {
            Some(at) => {
                let ghost row = out@[at as int].1@;
                out[at].1.push(t);
                proof {
                    assert(goals_view(out@[at as int].1@) =~= goals_view(row).push(goal));
                    assert forall|j: int| 0 <= j < out@.len() && j != at implies #[trigger] out@[j]
                        == had[j] by {}
                    assert forall|file: Seq<Part>| #[trigger]
                        tests_in(out@, file) == of_file(all.take(done + 1), file) by {
                        assert(tests_in(had, file) == of_file(all.take(done), file));
                        same_elsewhere(had, out@, at as int, file);
                        tests_in_at(had, at as int);
                        tests_in_at(out@, at as int);
                    }
                }
            },
            None => {
                let file = t.file.clone();
                let mut row: Vec<TestFn> = Vec::new();
                row.push(t);
                let ghost new = row@;
                assert(goals_view(new) =~= seq![goal]);
                out.push((file, row));
                proof {
                    assert forall|i: int, j: int| 0 <= i < j < out@.len() implies (
                    #[trigger] out@[i]).0@ != (#[trigger] out@[j]).0@ by {
                        assert(out@[i] == had[i]);
                        if j < had.len() {
                            assert(out@[j] == had[j]);
                        }
                    }
                    assert forall|file: Seq<Part>| #[trigger]
                        tests_in(out@, file) == of_file(all.take(done + 1), file) by {
                        assert(tests_in(had, file) == of_file(all.take(done), file));
                        added_elsewhere(had, out@[had.len() as int], file);
                        assert(out@ =~= had.push(out@[had.len() as int]));
                        if file == goal.file {
                            tests_in_none(had, file);
                            tests_in_at(out@, had.len() as int);
                            assert(of_file(all.take(done), file).push(goal) =~= seq![goal]);
                        }
                    }
                }
            },
        }
        i = i + 1;
    }
    assert(all.take(i as int) =~= all);
    out
}

proof fn same_elsewhere(
    a: Seq<(PathBuf, Vec<TestFn>)>,
    b: Seq<(PathBuf, Vec<TestFn>)>,
    at: int,
    file: Seq<Part>,
)
    requires
        a.len() == b.len(),
        0 <= at < a.len(),
        a[at].0@ == b[at].0@,
        forall|j: int| 0 <= j < a.len() && j != at ==> #[trigger] b[j] == a[j],
    ensures
        file != a[at].0@ ==> tests_in(a, file) == tests_in(b, file),
    decreases a.len(),
{
    if file != a[at].0@ {
        let x = a.drop_first();
        let y = b.drop_first();
        if at == 0 {
            assert forall|j: int| 0 <= j < x.len() implies #[trigger] y[j] == x[j] by {
                assert(b[j + 1] == a[j + 1]);
            }
            assert(x =~= y);
        } else {
            assert(b[0] == a[0]);
            assert(x[at - 1] == a[at] && y[at - 1] == b[at]);
            assert forall|j: int| 0 <= j < x.len() && j != at - 1 implies #[trigger] y[j] == x[j] by {
                assert(b[j + 1] == a[j + 1]);
            }
            same_elsewhere(x, y, at - 1, file);
        }
    }
}

proof fn added_elsewhere(
    a: Seq<(PathBuf, Vec<TestFn>)>,
    e: (PathBuf, Vec<TestFn>),
    file: Seq<Part>,
)
    ensures
        file != e.0@ ==> tests_in(a.push(e), file) == tests_in(a, file),
    decreases a.len(),
{
    let b = a.push(e);
    if file != e.0@ {
        if a.len() > 0 {
            assert(b[0] == a[0]);
            assert(b.drop_first() =~= a.drop_first().push(e));
            added_elsewhere(a.drop_first(), e, file);
        } else {
            assert(b[0] == e);
            assert(b.drop_first() =~= a);
        }
    }
}

/// Affected tests are ordered by package, then by file, name, full path, test path and line.
pub proof fn affected_tests_are_ordered_by_package_first(a: Affected, b: Affected)
    ensures
        a.package != b.package ==> (affected_before(a, b) <==> text_before(a.package, b.package)),
        a.package == b.package && a.file != b.file ==> (affected_before(a, b) <==> path_before(
            a.file,
            b.file,
        )),
        a.package == b.package && a.file == b.file && a.name != b.name ==> (affected_before(a, b)
            <==> text_before(a.name, b.name)),
        a.package == b.package && a.file == b.file && a.name == b.name && a.full_path == b.full_path
            && a.test_path == b.test_path ==> (affected_before(a, b) <==> a.line < b.line),
{
}

/// What stands below a root is what is left behind it; a path that does not begin with the root
/// is left whole.
pub proof fn below_is_what_is_left(root: Seq<Part>, rest: Seq<Part>, path: Seq<Part>)
    ensures
        below(root + rest, root) == rest,
        !root.is_prefix_of(path) ==> below(path, root) == path,
{
    let p = root + rest;
    assert(root =~= p.subrange(0, root.len() as int));
    assert(root.is_prefix_of(p));
    assert(p.skip(root.len() as int) =~= rest);
}

/// The names in a path are those of its components that have one, in order.
pub proof fn names_are_those_of_components(a: Seq<Part>, b: Seq<Part>, x: Part)
    ensures
        names_in(a + b) == names_in(a) + names_in(b),
        names_in(seq![x]) == match x {
            Part::Name(n) => seq![n],
            _ => Seq::empty(),
        },
    decreases b.len(),
{
    assert(seq![x].drop_last() =~= Seq::<Part>::empty());
    assert(names_in(seq![x].drop_last()) =~= Seq::<Seq<char>>::empty());
    assert(names_in(seq![x]) =~= match x {
        Part::Name(n) => seq![n],
        _ => Seq::empty(),
    });
    if b.len() == 0 {
        assert(a + b =~= a);
        assert(names_in(a) + names_in(b) =~= names_in(a));
    } else {
        assert((a + b).drop_last() =~= a + b.drop_last());
        names_are_those_of_components(a, b.drop_last(), x);
        assert(names_in(a + b) =~= names_in(a) + names_in(b));
    }
}

/// The ending `.rs` is taken off once, and nothing else is.
pub proof fn one_ending_is_taken_off(stem: Seq<char>, s: Seq<char>)
    ensures
        without_rs(stem + ".rs"@) == stem,
        !".rs"@.is_suffix_of(s) ==> without_rs(s) == s,
{
    reveal_strlit(".rs");
    let t = stem + ".rs"@;
    assert(".rs"@.len() == 3);
    assert(t.subrange(t.len() - 3, t.len() as int) =~= ".rs"@);
    assert(".rs"@.is_suffix_of(t));
    assert(t.take(t.len() - 3) =~= stem);
}

/// The components with the given names.
pub open spec fn named(names: Seq<Seq<char>>) -> Seq<Part> {
    names.map_values(|n: Seq<char>| Part::Name(n))
}

proof fn names_of_named(names: Seq<Seq<char>>)
    ensures
        names_in(named(names)) == names,
    decreases names.len(),
{
    if names.len() > 0 {
        assert(named(names).drop_last() =~= named(names.drop_last()));
        names_of_named(names.drop_last());
        assert(named(names).last() == Part::Name(names.last()));
        assert(names.drop_last().push(names.last()) =~= names);
    } else {
        assert(named(names) =~= Seq::<Part>::empty());
    }
}

/// A source file below `src` stands for the modules of its directories and of its stem, except
/// that `lib.rs` and `main.rs`, and `mod.rs` in a directory, stand for what they are in.
pub proof fn files_stand_for_modules(dirs: Seq<Seq<char>>, stem: Seq<char>)
    ensures
        file_modules(named(seq!["src"@] + dirs + seq![stem + ".rs"@])) == if stem == "lib"@ || stem
            == "main"@ || (stem == "mod"@ && dirs.len() > 0) {
            dirs
        } else {
            dirs.push(stem)
        },
        (dirs.len() > 0 && dirs[0] != "src"@) || (dirs.len() == 0 && stem + ".rs"@ != "src"@)
            ==> file_modules(named(dirs + seq![stem + ".rs"@])) == if stem == "lib"@ || stem
            == "main"@ || (stem == "mod"@ && dirs.len() > 0) {
            dirs
        } else {
            dirs.push(stem)
        },
{
    reveal_strlit("lib");
    reveal_strlit("main");
    reveal_strlit("mod");
    let last = stem + ".rs"@;
    one_ending_is_taken_off(stem, stem);
    let whole = seq!["src"@] + dirs + seq![last];
    names_of_named(whole);
    assert(whole.drop_first() =~= dirs + seq![last]);
    let inner = dirs + seq![last];
    names_of_named(inner);
    assert(inner.drop_last() =~= dirs);
    assert(inner.last() == last);
    let stems = dirs.push(stem);
    assert(inner.drop_last().push(without_rs(inner.last())) =~= stems);
    assert(stems.drop_last() =~= dirs);
    assert("lib"@.len() == 3 && "main"@.len() == 4 && "mod"@.len() == 3);
    assert("lib"@[0] == 'l' && "mod"@[0] == 'm');
}

/// The path of a test is that of the modules of its file below the root of its package, of the
/// modules around it, and its name, with `::` between them.
pub proof fn test_paths_are_module_paths(t: Goal, root: Seq<Part>, rel: Seq<Part>)
    requires
        t.file == root + rel,
    ensures
        test_path_of(t, root) == joined(file_modules(rel) + t.mod_path + seq![t.name], "::"@),
        file_modules(rel).len() + t.mod_path.len() > 0 ==> (seq![':', ':'] + t.name).is_suffix_of(
            test_path_of(t, root),
        ),
        file_modules(rel).len() + t.mod_path.len() == 0 ==> test_path_of(t, root) == t.name,
{
    below_is_what_is_left(root, rel, t.file);
    reveal_strlit("::");
    let front = file_modules(rel) + t.mod_path;
    let all = front + seq![t.name];
    assert(all.drop_last() =~= front);
    assert(all.last() == t.name);
    assert("::"@ =~= seq![':', ':']);
    if front.len() > 0 {
        let p = joined(all, "::"@);
        let end = seq![':', ':'] + t.name;
        assert(p == joined(front, "::"@) + "::"@ + t.name);
        assert(p.subrange(p.len() - end.len(), p.len() as int) =~= end);
    }
}

/// Dashes become underscores, and nothing else changes.
pub proof fn dashes_become_underscores(s: Seq<char>)
    ensures
        underscored(s).len() == s.len(),
        forall|i: int|
            0 <= i < s.len() ==> #[trigger] underscored(s)[i] == if s[i] == '-' {
                '_'
            } else {
                s[i]
            },
{
}

/// An affected test has the name, the file and the line of the test, and belongs to the package
/// with the deepest root around its file.
pub proof fn affected_tests_are_the_tests(
    t: Goal,
    given: Seq<Package>,
    workspace: Seq<Part>,
    q: Package,
)
    ensures
        ({
            let a = affected_of(t, by_depth(given), workspace);
            &&& a.name == t.name
            &&& a.file == t.file
            &&& a.line == t.brace_line
            &&& a.full_path == underscored(a.package) + "::"@ + a.test_path
            &&& given.contains(q) && q.0.is_prefix_of(t.file) ==> exists|p: Package| #[trigger]
                given.contains(p) && p.0.is_prefix_of(t.file) && q.0.len() <= p.0.len() && a.package
                    == p.1 && a.test_path == test_path_of(t, p.0)
            &&& (forall|p: Package| #[trigger] given.contains(p) ==> !p.0.is_prefix_of(t.file))
                ==> a.package == "<unknown>"@ && a.test_path == test_path_of(t, workspace)
        }),
{
    deepest_package_wins(given, t.file);
}

/// The tests of a file are those of its entry; a file without an entry has none.
pub proof fn tests_stand_in_the_entry_of_their_file(
    v: Seq<(PathBuf, Vec<TestFn>)>,
    file: Seq<Part>,
    i: int,
)
    ensures
        0 <= i < v.len() && v[i].0@ == file && (forall|j: int|
            0 <= j < i ==> (#[trigger] v[j]).0@ != file) ==> tests_in(v, file) == goals_view(
            v[i].1@,
        ),
        (forall|j: int| 0 <= j < v.len() ==> (#[trigger] v[j]).0@ != file) ==> tests_in(
            v,
            file,
        ).len() == 0,
    decreases v.len(),
{
    if v.len() > 0 && v[0].0@ != file {
        let rest = v.drop_first();
        tests_stand_in_the_entry_of_their_file(rest, file, i - 1);
        assert forall|j: int| 0 <= j < rest.len() implies #[trigger] rest[j] == v[j + 1] by {}
    }
}

/// The tests of a file are all those that stand in it, in order.
pub proof fn tests_of_a_file_are_filtered(given: Seq<Goal>, file: Seq<Part>)
    ensures
        of_file(given, file) == given.filter(|t: Goal| t.file == file),
    decreases given.len(),
{
    reveal(Seq::filter);
    let here = |t: Goal| t.file == file;
    if given.len() > 0 {
        tests_of_a_file_are_filtered(given.drop_last(), file);
    } else {
        assert(of_file(given, file) =~= given.filter(here));
    }
}

/// A place counts as visited where it is a start, has an entry among the parents, or is a
/// reference in a goal.
pub proof fn what_counts_as_visited(starts: Seq<Spot>, found: BfsResult, n: Spot)
    ensures
        visited(starts, found, n) <==> starts.contains(n) || (exists|i: int|
            0 <= i < found.parents@.len() && (#[trigger] found.parents@[i]).0.0@ == n.0
                && found.parents@[i].0.1 == n.1) || (exists|i: int|
            0 <= i < found.entry_hits@.len() && (#[trigger] found.entry_hits@[i]).0@ == n.0
                && found.entry_hits@[i].1@.contains(n.1)),
{
    let ls = links(found.parents@);
    if has_key(ls, n) {
        let i = choose|i: int| 0 <= i < ls.len() && (#[trigger] ls[i]).0 == n;
        assert(found.parents@[i].0.0@ == n.0);
    }
    if exists|i: int|
        0 <= i < found.parents@.len() && (#[trigger] found.parents@[i]).0.0@ == n.0
            && found.parents@[i].0.1 == n.1 {
        let i = choose|i: int|
            0 <= i < found.parents@.len() && (#[trigger] found.parents@[i]).0.0@ == n.0
                && found.parents@[i].0.1 == n.1;
        assert(ls[i].0 == n);
    }
}

/// An affected test is seen whole.
pub proof fn affected_tests_are_seen_whole(a: AffectedTest)
    ensures
        a@.package == a.package@,
        a@.file == a.file@,
        a@.name == a.name@,
        a@.full_path == a.full_path@,
        a@.test_path == a.test_path@,
        a@.line == a.line,
{
}

/// Packages are seen whole, one for one and in order.
pub proof fn packages_are_seen_whole(v: Seq<(PathBuf, String)>)
    ensures
        packages(v).len() == v.len(),
        forall|i: int| 0 <= i < v.len() ==> #[trigger] packages(v)[i] == (v[i].0@, v[i].1@),
{
}

} // verus!
