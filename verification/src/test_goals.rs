//! Test functions as goals of a search.
//!
//! A source text is parsed and walked through by `syn`. The walk meets modules and functions,
//! and the functions whose attributes match a known test attribute are kept. Nothing is
//! expanded, so tests that a macro generates are missed.
//!
//! Line numbers are 1-based.

use crate::path::{path_has_extension, Part, PathBuf};
use crate::text::{same_text, texts};
use vstd::prelude::*;

verus! {

/// The attribute that makes a function a test.
#[derive(Debug, Clone, Copy, PartialEq, Eq, Structural)]
pub enum TestAttr {
    /// `#[test]`
    Test,
    /// `#[tokio::test]`
    TokioTest,
    /// `#[async_std::test]`
    AsyncStdTest,
    /// `#[rstest]`
    Rstest,
    /// `#[test_case(...)]` — one function may expand to several cases.
    TestCase,
}

/// A test function.
#[derive(Debug, PartialEq, Eq)]
pub struct TestFn {
    pub file: PathBuf,
    pub name: String,
    /// Inclusive 1-based line range of the **whole** item, from its first attribute to the
    /// closing brace of the body: the name of the function, at which its symbol is reported,
    /// stands between the two.
    pub body_range: (u32, u32),
    /// 1-based line of the opening brace of the body.
    pub brace_line: u32,
    pub attr: TestAttr,
    /// Inline `mod` names that wrap this function, in nesting order. `mod foo;` is not
    /// followed: what it holds lies in another file and counts through `file`.
    pub mod_path: Vec<String>,
}

/// A test function, as contracts see it.
pub struct Goal {
    pub file: Seq<Part>,
    pub name: Seq<char>,
    pub body_range: (u32, u32),
    pub brace_line: u32,
    pub attr: TestAttr,
    pub mod_path: Seq<Seq<char>>,
}

impl View for TestFn {
    type V = Goal;

    open spec fn view(&self) -> Goal {
        Goal {
            file: self.file@,
            name: self.name@,
            body_range: self.body_range,
            brace_line: self.brace_line,
            attr: self.attr,
            mod_path: texts(self.mod_path@),
        }
    }
}

impl Clone for TestFn {
    fn clone(&self) -> (r: Self)
        ensures
            r@ == self@,
    {
        TestFn {
            file: self.file.clone(),
            name: self.name.clone(),
            body_range: self.body_range,
            brace_line: self.brace_line,
            attr: self.attr,
            mod_path: copy_texts(&self.mod_path),
        }
    }
}

/// The test attribute that an attribute path is. The last segment decides, so that both
/// `#[tokio::test]` and `#[::tokio::test]` count; a bare `test` stands alone, so that not
/// every `*::test` counts.
pub open spec fn attr_of(segs: Seq<Seq<char>>) -> Option<TestAttr> {
    if segs.len() == 0 {
        None
    } else if segs.last() == "test"@ {
        if segs.len() == 1 {
            Some(TestAttr::Test)
        } else if segs.contains("tokio"@) {
            Some(TestAttr::TokioTest)
        } else if segs.contains("async_std"@) {
            Some(TestAttr::AsyncStdTest)
        } else {
            None
        }
    } else if segs.last() == "rstest"@ {
        Some(TestAttr::Rstest)
    } else if segs.last() == "test_case"@ {
        Some(TestAttr::TestCase)
    } else {
        None
    }
}

/// The first test attribute of a row of attribute paths.
pub open spec fn first_attr(attrs: Seq<Seq<Seq<char>>>) -> Option<TestAttr>
    decreases attrs.len(),
{
    if attrs.len() == 0 {
        None
    } else if attr_of(attrs[0]) is Some {
        attr_of(attrs[0])
    } else {
        first_attr(attrs.drop_first())
    }
}

/// Attribute paths, as contracts see them.
pub open spec fn attr_paths(v: Seq<Vec<String>>) -> Seq<Seq<Seq<char>>> {
    v.map_values(|a: Vec<String>| texts(a@))
}

/// Whether a text is among the given ones.
pub fn has_name(v: &Vec<String>, name: &str) -> (r: bool)
    ensures
        r == texts(v@).contains(name@),
{
    let mut i: usize = 0;
    while i < v.len()
        invariant
            i <= v@.len(),
            forall|j: int| 0 <= j < i ==> texts(v@)[j] != name@,
        decreases v.len() - i,
    {
        if same_text(v[i].as_str(), name) {
            assert(texts(v@)[i as int] == name@);
            return true;
        }
        i = i + 1;
    }
    false
}

fn classify_attr(segs: &Vec<String>) -> (r: Option<TestAttr>)
    ensures
        r == attr_of(texts(segs@)),
{
    if segs.len() == 0 {
        return None;
    }
    let last = segs[segs.len() - 1].as_str();
    assert(texts(segs@).last() == last@);
    if same_text(last, "test") {
        if segs.len() == 1 {
            return Some(TestAttr::Test);
        }
        if has_name(segs, "tokio") {
            return Some(TestAttr::TokioTest);
        }
        if has_name(segs, "async_std") {
            return Some(TestAttr::AsyncStdTest);
        }
        return None;
    }
    if same_text(last, "rstest") {
        return Some(TestAttr::Rstest);
    }
    if same_text(last, "test_case") {
        return Some(TestAttr::TestCase);
    }
    None
}

/// The first test attribute among attributes, each given by the segments of its path.
pub fn classify_attrs(attrs: &Vec<Vec<String>>) -> (r: Option<TestAttr>)
    ensures
        r == first_attr(attr_paths(attrs@)),
{
    let ghost all = attr_paths(attrs@);
    let mut i: usize = 0;
    assert(all.skip(0) =~= all);
    while i < attrs.len()
        invariant
            i <= attrs@.len(),
            all == attr_paths(attrs@),
            first_attr(all) == first_attr(all.skip(i as int)),
        decreases attrs.len() - i,
    {
        let found = classify_attr(&attrs[i]);
        proof {
            assert(all.skip(i as int)[0] == texts(attrs@[i as int]@));
            assert(all.skip(i as int).drop_first() =~= all.skip(i + 1));
        }
        if found.is_some() {
            return found;
        }
        i = i + 1;
    }
    None
}

/// A copy of a row of texts.
pub fn copy_texts(v: &Vec<String>) -> (out: Vec<String>)
    ensures
        texts(out@) == texts(v@),
{
    let mut out: Vec<String> = Vec::new();
    let mut i: usize = 0;
    while i < v.len()
        invariant
            i <= v@.len(),
            out@.len() == i,
            forall|k: int| 0 <= k < i ==> (#[trigger] out@[k])@ == v@[k]@,
        decreases v.len() - i,
    {
        out.push(v[i].clone());
        i = i + 1;
    }
    assert(texts(out@) =~= texts(v@));
    out
}

/// Test functions, as contracts see them.
pub open spec fn goals_view(v: Seq<TestFn>) -> Seq<Goal> {
    v.map_values(|t: TestFn| t@)
}

/// The first line of a function: that of its first attribute, or of its `fn`.
pub open spec fn first_line(attr_line: Option<u32>, fn_line: u32) -> u32 {
    match attr_line {
        Some(line) => line,
        None => fn_line,
    }
}

// ---------------------------------------------------------------------------------------
// Walks
// ---------------------------------------------------------------------------------------
/// A function that a walk meets.
#[derive(Debug)]
pub struct MetFn {
    pub name: String,
    /// The paths of its attributes, each by its segments.
    pub attrs: Vec<Vec<String>>,
    /// The line of its first attribute.
    pub attr_line: Option<u32>,
    /// The line of its `fn`.
    pub fn_line: u32,
    /// The line of the opening brace of its body.
    pub brace_line: u32,
    /// The line on which its body ends.
    pub end_line: u32,
}

/// What a walk meets, in order.
#[derive(Debug)]
pub enum Met {
    /// A module: its name, and whether its body stands in the same file.
    Module(String, bool),
    /// The end of the module last entered.
    ModuleEnd,
    Function(MetFn),
}

/// What a walk meets, as contracts see it.
pub enum MetView {
    Module(Seq<char>, bool),
    ModuleEnd,
    Function {
        name: Seq<char>,
        attrs: Seq<Seq<Seq<char>>>,
        attr_line: Option<u32>,
        fn_line: u32,
        brace_line: u32,
        end_line: u32,
    },
}

impl View for Met {
    type V = MetView;

    open spec fn view(&self) -> MetView {
        match self {
            Met::Module(name, inline) => MetView::Module(name@, *inline),
            Met::ModuleEnd => MetView::ModuleEnd,
            Met::Function(f) => MetView::Function {
                name: f.name@,
                attrs: attr_paths(f.attrs@),
                attr_line: f.attr_line,
                fn_line: f.fn_line,
                brace_line: f.brace_line,
                end_line: f.end_line,
            },
        }
    }
}

/// What a walk meets, as contracts see it.
pub open spec fn met_views(met: Seq<Met>) -> Seq<MetView> {
    met.map_values(|m: Met| m@)
}

/// Where a walk stands: the modules around, each with whether its body stands in the same
/// file, and the test functions met so far.
pub struct Walked {
    pub modules: Seq<(Seq<char>, bool)>,
    pub found: Seq<Goal>,
}

/// The names of modules.
pub open spec fn module_names(modules: Seq<(Seq<char>, bool)>) -> Seq<Seq<char>> {
    modules.map_values(|m: (Seq<char>, bool)| m.0)
}

/// Whether the bodies of all modules stand in the same file.
pub open spec fn all_inline(modules: Seq<(Seq<char>, bool)>) -> bool {
    forall|i: int| 0 <= i < modules.len() ==> (#[trigger] modules[i]).1
}

/// One step of a walk. A function counts where it has a test attribute and all modules around
/// it have their bodies in the same file; it begins with its first attribute.
pub open spec fn met_step(file: Seq<Part>, w: Walked, met: MetView) -> Walked {
    match met {
        MetView::Module(name, inline) => Walked {
            modules: w.modules.push((name, inline)),
            found: w.found,
        },
        MetView::ModuleEnd => Walked {
            modules: if w.modules.len() > 0 {
                w.modules.drop_last()
            } else {
                w.modules
            },
            found: w.found,
        },
        MetView::Function { name, attrs, attr_line, fn_line, brace_line, end_line } => {
            if first_attr(attrs) is Some && all_inline(w.modules) {
                Walked {
                    modules: w.modules,
                    found: w.found.push(
                        Goal {
                            file,
                            name,
                            body_range: (first_line(attr_line, fn_line), end_line),
                            brace_line,
                            attr: first_attr(attrs)->0,
                            mod_path: module_names(w.modules),
                        },
                    ),
                }
            } else {
                w
            }
        },
    }
}

/// Where a walk stands after what it has met.
pub open spec fn walked(file: Seq<Part>, met: Seq<MetView>) -> Walked
    decreases met.len(),
{
    if met.len() == 0 {
        Walked { modules: Seq::empty(), found: Seq::empty() }
    } else {
        met_step(file, walked(file, met.drop_last()), met.last())
    }
}

/// The test functions among what a walk of a file meets.
pub open spec fn goals_met(file: Seq<Part>, met: Seq<MetView>) -> Seq<Goal> {
    walked(file, met).found
}

/// Collects the test functions of one file.
struct TestVisitor {
    file: PathBuf,
    modules: Vec<(String, bool)>,
    out: Vec<TestFn>,
}

/// Modules, as contracts see them.
spec fn module_views(v: Seq<(String, bool)>) -> Seq<(Seq<char>, bool)> {
    v.map_values(|m: (String, bool)| (m.0@, m.1))
}

impl TestVisitor {
    /// How far the walk of the file has come.
    spec fn so_far(self) -> Walked {
        Walked { modules: module_views(self.modules@), found: goals_view(self.out@) }
    }

    /// The names of the modules around, or nothing where a body stands in another file.
    fn mod_path(&self) -> (r: Option<Vec<String>>)
        ensures
            match r {
                Some(v) => all_inline(self.so_far().modules) && texts(v@) == module_names(
                    self.so_far().modules,
                ),
                None => !all_inline(self.so_far().modules),
            },
    {
        let mut out: Vec<String> = Vec::new();
        let mut i: usize = 0;
        while i < self.modules.len()
            invariant
                i <= self.modules@.len(),
                out@.len() == i,
                forall|k: int|
                    0 <= k < i ==> (#[trigger] out@[k])@ == self.modules@[k].0@
                        && self.modules@[k].1,
            decreases self.modules.len() - i,
        {
            let (name, inline) = &self.modules[i];
            assert(self.so_far().modules[i as int] == (name@, *inline));
            if !*inline {
                return None;
            }
            out.push(name.clone());
            i = i + 1;
        }
        assert forall|k: int| 0 <= k < self.so_far().modules.len() implies (
        #[trigger] self.so_far().modules[k]).1 by {
            assert(out@[k]@ == self.modules@[k].0@);
        }
        assert(texts(out@) =~= module_names(self.so_far().modules));
        Some(out)
    }

    /// Meets a function.
    fn visit_fn(&mut self, f: &MetFn)
        ensures
            final(self).file@ == old(self).file@,
            final(self).so_far() == met_step(old(self).file@, old(self).so_far(), Met::Function(*f)@),
    {
        let attr = match classify_attrs(&f.attrs) {
            Some(attr) => attr,
            None => return,
        };
        let mod_path = match self.mod_path() {
            Some(path) => path,
            None => return,
        };
        let start_line: u32 = match f.attr_line {
            Some(line) => line,
            None => f.fn_line,
        };
        let t = TestFn {
            file: self.file.clone(),
            name: f.name.clone(),
            body_range: (start_line, f.end_line),
            brace_line: f.brace_line,
            attr,
            mod_path,
        };
        self.out.push(t);
        assert(self.so_far().found =~= old(self).so_far().found.push(t@));
    }

    /// Takes a step of the walk.
    fn meet(&mut self, met: &Met)
        ensures
            final(self).file@ == old(self).file@,
            final(self).so_far() == met_step(old(self).file@, old(self).so_far(), met@),
    {
        match met {
            Met::Module(name, inline) => {
                let entry = (name.clone(), *inline);
                self.modules.push(entry);
                assert(self.so_far().modules =~= old(self).so_far().modules.push((name@, *inline)));
            },
            Met::ModuleEnd => {
                let _ = self.modules.pop();
                assert(self.so_far().modules =~= met_step(
                    old(self).file@,
                    old(self).so_far(),
                    met@,
                ).modules);
            },
            Met::Function(f) => self.visit_fn(f),
        }
    }
}

/// The test functions among what a walk of a file meets.
pub fn tests_met(file: PathBuf, met: &Vec<Met>) -> (r: Vec<TestFn>)
    ensures
        goals_view(r@) == goals_met(file@, met_views(met@)),
{
    let ghost at = file@;
    let ghost all = met_views(met@);
    let mut visitor = TestVisitor { file, modules: Vec::new(), out: Vec::new() };
    let mut i: usize = 0;
    proof {
        assert(all.take(0) =~= Seq::<MetView>::empty());
        assert(visitor.so_far().modules =~= Seq::<(Seq<char>, bool)>::empty());
        assert(visitor.so_far().found =~= Seq::<Goal>::empty());
    }
    while i < met.len()
        invariant
            i <= met@.len(),
            all == met_views(met@),
            visitor.file@ == at,
            visitor.so_far() == walked(at, all.take(i as int)),
        decreases met.len() - i,
    {
        proof {
            assert(all.take(i + 1).drop_last() =~= all.take(i as int));
            assert(all.take(i + 1).last() == met@[i as int]@);
        }
        visitor.meet(&met[i]);
        i = i + 1;
    }
    assert(all.take(i as int) =~= all);
    visitor.out
}

// ---------------------------------------------------------------------------------------
// Source texts
// ---------------------------------------------------------------------------------------
/// `syn::ItemMod`.
#[verifier::external_type_specification]
#[verifier::external_body]
pub struct ExItemMod(syn::ItemMod);

/// `syn::ItemFn`.
#[verifier::external_type_specification]
#[verifier::external_body]
pub struct ExItemFn(syn::ItemFn);

/// Writes down what `syn` meets in a source file.
struct Walk {
    met: Vec<Met>,
}

impl<'ast> syn::visit::Visit<'ast> for Walk {
    /// Writes down a module, and what is in it.
    #[verifier::external_body]
    fn visit_item_mod(&mut self, node: &'ast syn::ItemMod) {
        self.met.push(Met::Module(node.ident.to_string(), node.content.is_some()));
        syn::visit::visit_item_mod(self, node);
        self.met.push(Met::ModuleEnd);
    }

    /// Writes down a function, and what is in it.
    #[verifier::external_body]
    fn visit_item_fn(&mut self, node: &'ast syn::ItemFn) {
        let segments = |a: &syn::Attribute| {
            a.path().segments.iter().map(|s| s.ident.to_string()).collect()
        };
        let attr = node.attrs.first().map(|a| syn::spanned::Spanned::span(a).start().line as u32);
        let body = syn::spanned::Spanned::span(&node.block);
        self.met.push(Met::Function(MetFn {
            name: node.sig.ident.to_string(),
            attrs: node.attrs.iter().map(segments).collect(),
            attr_line: attr,
            fn_line: node.sig.fn_token.span.start().line as u32,
            brace_line: body.start().line as u32,
            end_line: body.end().line as u32,
        }));
        syn::visit::visit_item_fn(self, node);
    }
}

/// What a walk of a source text meets, as [`walk_source`] gives it.
pub uninterp spec fn source_walk(source: Seq<char>) -> Option<Seq<MetView>>;

/// `syn::parse_file` and `syn::visit::Visit::visit_file`: the modules and the functions of a
/// source text, where it can be parsed, in the order in which the visitor meets them.
#[verifier::external_body]
fn walk_source(source: &str) -> (r: Option<Vec<Met>>)
    ensures
        match r {
            Some(met) => source_walk(source@) == Some(met_views(met@)),
            None => source_walk(source@) is None,
        },
{
    let file = syn::parse_file(source).ok()?;
    let mut walk = Walk { met: Vec::new() };
    syn::visit::Visit::visit_file(&mut walk, &file);
    Some(walk.met)
}

/// The test functions of a source text, where it can be parsed.
pub fn tests_in_source(file: PathBuf, source: &str) -> (r: Option<Vec<TestFn>>)
    ensures
        match source_walk(source@) {
            Some(met) => r matches Some(v) && goals_view(v@) == goals_met(file@, met),
            None => r is None,
        },
{
    match walk_source(source) {
        Some(met) => Some(tests_met(file, &met)),
        None => None,
    }
}

/// Whether a walk leaves out a directory entry.
pub fn is_excluded_dir(is_dir: bool, name: &str) -> (r: bool)
    ensures
        r == (is_dir && (name@ == "target"@ || name@ == ".git"@)),
{
    is_dir && (same_text(name, "target") || same_text(name, ".git"))
}

/// Whether a walk looks into a directory entry for tests.
pub fn is_source_file(is_file: bool, path: &PathBuf) -> (r: bool)
    ensures
        r == (is_file && path_has_extension(path@, "rs"@)),
{
    is_file && path.has_extension("rs")
}

/// A function is a test exactly where one of its attributes is a test attribute.
pub proof fn some_test_attribute_suffices(attrs: Seq<Seq<Seq<char>>>)
    ensures
        first_attr(attrs) is Some <==> exists|i: int|
            0 <= i < attrs.len() && attr_of(#[trigger] attrs[i]) is Some,
    decreases attrs.len(),
{
    if attrs.len() > 0 {
        let rest = attrs.drop_first();
        some_test_attribute_suffices(rest);
        if first_attr(rest) is Some {
            let i = choose|i: int| 0 <= i < rest.len() && attr_of(#[trigger] rest[i]) is Some;
            assert(attrs[i + 1] == rest[i]);
        } else {
            assert forall|i: int| 0 < i < attrs.len() implies attr_of(#[trigger] attrs[i]) is None by {
                assert(rest[i - 1] == attrs[i]);
            }
        }
    }
}

/// Which attributes mark a test: `test` alone, a path of `tokio` or `async_std` that ends in
/// `test`, and any path that ends in `rstest` or `test_case`. No other path does.
pub proof fn which_attributes_mark_tests(path: Seq<Seq<char>>, last: Seq<char>)
    ensures
        attr_of(seq!["test"@]) == Some(TestAttr::Test),
        attr_of(path.push("rstest"@)) == Some(TestAttr::Rstest),
        attr_of(path.push("test_case"@)) == Some(TestAttr::TestCase),
        path.contains("tokio"@) ==> attr_of(path.push("test"@)) == Some(TestAttr::TokioTest),
        path.contains("async_std"@) && !path.contains("tokio"@) ==> attr_of(path.push("test"@))
            == Some(TestAttr::AsyncStdTest),
        path.len() > 0 && !path.contains("tokio"@) && !path.contains("async_std"@) ==> attr_of(
            path.push("test"@),
        ) is None,
        last != "test"@ && last != "rstest"@ && last != "test_case"@ ==> attr_of(path.push(last))
            is None,
        attr_of(Seq::empty()) is None,
{
    reveal_strlit("test");
    reveal_strlit("rstest");
    reveal_strlit("test_case");
    reveal_strlit("tokio");
    reveal_strlit("async_std");
    assert("test"@.len() == 4 && "rstest"@.len() == 6 && "test_case"@.len() == 9);
    assert("tokio"@.len() == 5 && "async_std"@.len() == 9);
    let all = path.push("test"@);
    assert(all.last() == "test"@);
    assert(path.push("rstest"@).last() == "rstest"@);
    assert(path.push("test_case"@).last() == "test_case"@);
    assert(path.push(last).last() == last);
    assert(seq!["test"@].last() == "test"@);
    if path.contains("tokio"@) {
        let i = choose|i: int| 0 <= i < path.len() && path[i] == "tokio"@;
        assert(all[i] == "tokio"@);
    }
    if path.contains("async_std"@) {
        let i = choose|i: int| 0 <= i < path.len() && path[i] == "async_std"@;
        assert(all[i] == "async_std"@);
    }
    if all.contains("tokio"@) {
        let i = choose|i: int| 0 <= i < all.len() && all[i] == "tokio"@;
        assert(path[i] == "tokio"@);
    }
    if all.contains("async_std"@) {
        let i = choose|i: int| 0 <= i < all.len() && all[i] == "async_std"@;
        assert(path[i] == "async_std"@);
    }
}

/// Of several attributes that mark a test, the first says how.
pub proof fn the_first_test_attribute_says_how(attrs: Seq<Seq<Seq<char>>>, i: int)
    requires
        0 <= i < attrs.len(),
        attr_of(attrs[i]) is Some,
        forall|j: int| 0 <= j < i ==> attr_of(#[trigger] attrs[j]) is None,
    ensures
        first_attr(attrs) == attr_of(attrs[i]),
    decreases attrs.len(),
{
    if i > 0 {
        let rest = attrs.drop_first();
        assert(attr_of(attrs[0]) is None);
        assert forall|j: int| 0 <= j < i - 1 implies attr_of(#[trigger] rest[j]) is None by {
            assert(rest[j] == attrs[j + 1]);
        }
        the_first_test_attribute_says_how(rest, i - 1);
    }
}

/// Entering a module puts it innermost, leaving it takes it away again, and neither changes what
/// was found.
pub proof fn modules_are_entered_and_left(
    file: Seq<Part>,
    met: Seq<MetView>,
    name: Seq<char>,
    inline: bool,
)
    ensures
        walked(file, met.push(MetView::Module(name, inline))).modules == walked(
            file,
            met,
        ).modules.push((name, inline)),
        walked(file, met.push(MetView::Module(name, inline))).found == walked(file, met).found,
        walked(file, met.push(MetView::ModuleEnd)).found == walked(file, met).found,
        walked(file, met.push(MetView::Module(name, inline)).push(MetView::ModuleEnd)) == walked(
            file,
            met,
        ),
{
    let inside = met.push(MetView::Module(name, inline));
    assert(inside.drop_last() =~= met);
    assert(inside.push(MetView::ModuleEnd).drop_last() =~= inside);
    assert(met.push(MetView::ModuleEnd).drop_last() =~= met);
    assert(walked(file, inside).modules.drop_last() =~= walked(file, met).modules);
}

/// A function counts as a test exactly where one of its attributes marks it and all modules
/// around it stand in the same file. It is found behind all that were found before, with the
/// names of those modules, and its lines begin at its first attribute, if that has a line.
pub proof fn marked_functions_are_found(
    file: Seq<Part>,
    met: Seq<MetView>,
    name: Seq<char>,
    attrs: Seq<Seq<Seq<char>>>,
    attr_line: Option<u32>,
    fn_line: u32,
    brace_line: u32,
    end_line: u32,
)
    ensures
        ({
            let f = MetView::Function { name, attrs, attr_line, fn_line, brace_line, end_line };
            let before = walked(file, met);
            let after = walked(file, met.push(f));
            let marked = (exists|i: int|
                0 <= i < attrs.len() && attr_of(#[trigger] attrs[i]) is Some) && forall|i: int|
                0 <= i < before.modules.len() ==> (#[trigger] before.modules[i]).1;
            &&& after.modules == before.modules
            &&& !marked ==> after.found == before.found
            &&& marked ==> after.found.len() == before.found.len() + 1 && before.found.is_prefix_of(
                after.found,
            ) && {
                let t = after.found.last();
                &&& t.file == file
                &&& t.name == name
                &&& t.body_range.0 == match attr_line {
                    Some(line) => line,
                    None => fn_line,
                }
                &&& t.body_range.1 == end_line
                &&& t.brace_line == brace_line
                &&& t.mod_path.len() == before.modules.len()
                &&& forall|i: int|
                    0 <= i < before.modules.len() ==> #[trigger] t.mod_path[i]
                        == before.modules[i].0
            }
        }),
{
    let f = MetView::Function { name, attrs, attr_line, fn_line, brace_line, end_line };
    assert(met.push(f).drop_last() =~= met);
    assert(met.push(f).last() == f);
    some_test_attribute_suffices(attrs);
    let before = walked(file, met);
    let after = walked(file, met.push(f));
    if first_attr(attrs) is Some && all_inline(before.modules) {
        assert(before.found =~= after.found.subrange(0, before.found.len() as int));
    }
}

/// A file in which nothing was met yet has no module open and no test.
pub proof fn a_walk_begins_empty(file: Seq<Part>)
    ensures
        walked(file, Seq::empty()).modules.len() == 0,
        walked(file, Seq::empty()).found.len() == 0,
        goals_met(file, Seq::empty()).len() == 0,
{
}

/// The tests that a walk has met are those that it has found.
pub proof fn what_was_found_is_met(file: Seq<Part>, met: Seq<MetView>)
    ensures
        goals_met(file, met) == walked(file, met).found,
{
}

/// Tests are seen whole, one for one and in order, with all that is known of each.
pub proof fn tests_are_seen_whole(v: Seq<TestFn>)
    ensures
        goals_view(v).len() == v.len(),
        forall|i: int|
            #![trigger goals_view(v)[i]]
            0 <= i < v.len() ==> goals_view(v)[i].file == v[i].file@ && goals_view(v)[i].name
                == v[i].name@ && goals_view(v)[i].body_range == v[i].body_range && goals_view(
                v,
            )[i].brace_line == v[i].brace_line && goals_view(v)[i].attr == v[i].attr && goals_view(
                v,
            )[i].mod_path.len() == v[i].mod_path@.len() && forall|k: int|
                0 <= k < v[i].mod_path@.len() ==> #[trigger] goals_view(v)[i].mod_path[k]
                    == v[i].mod_path@[k]@,
{
}

/// What a walk meets is seen whole, one for one and in order.
pub proof fn what_is_met_is_seen_whole(met: Seq<Met>)
    ensures
        met_views(met).len() == met.len(),
        forall|i: int|
            #![trigger met_views(met)[i]]
            0 <= i < met.len() ==> match met[i] {
                Met::Module(name, inline) => met_views(met)[i] == MetView::Module(name@, inline),
                Met::ModuleEnd => met_views(met)[i] == MetView::ModuleEnd,
                Met::Function(f) => met_views(met)[i] == (MetView::Function {
                    name: f.name@,
                    attrs: f.attrs@.map_values(
                        |a: Vec<String>| a@.map_values(|s: String| s@),
                    ),
                    attr_line: f.attr_line,
                    fn_line: f.fn_line,
                    brace_line: f.brace_line,
                    end_line: f.end_line,
                }),
            },
{
    assert forall|i: int| #![trigger met_views(met)[i]] 0 <= i < met.len() implies match met[i] {
        Met::Module(name, inline) => met_views(met)[i] == MetView::Module(name@, inline),
        Met::ModuleEnd => met_views(met)[i] == MetView::ModuleEnd,
        Met::Function(f) => met_views(met)[i] == (MetView::Function {
            name: f.name@,
            attrs: f.attrs@.map_values(|a: Vec<String>| a@.map_values(|s: String| s@)),
            attr_line: f.attr_line,
            fn_line: f.fn_line,
            brace_line: f.brace_line,
            end_line: f.end_line,
        }),
    } by {
        if let Met::Function(f) = met[i] {
            let rows = f.attrs@.map_values(|a: Vec<String>| a@.map_values(|s: String| s@));
            assert forall|k: int| 0 <= k < f.attrs@.len() implies #[trigger] attr_paths(
                f.attrs@,
            )[k] == rows[k] by {
                assert(texts(f.attrs@[k]@) =~= f.attrs@[k]@.map_values(|s: String| s@));
            }
            assert(attr_paths(f.attrs@) =~= rows);
        }
    }
}

} // verus!
