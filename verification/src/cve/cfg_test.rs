//! Whether a place in a source file lies in code that is compiled for tests only.
//!
//! An item of any kind counts where it bears `#[cfg(test)]` or `#[cfg(any(test, ..))]`. Inline
//! modules are searched; modules that stand in other files are not followed.

use crate::path::{Part, PathBuf};
use crate::order::views;
use crate::text::same_text;
use crate::types::{Location, Position, Site};
use vstd::prelude::*;

verus! {

// ---------------------------------------------------------------------------------------
// Attributes
// ---------------------------------------------------------------------------------------
/// A text that may be missing, as contracts see it.
pub open spec fn text_view(t: Option<String>) -> Option<Seq<char>> {
    match t {
        Some(s) => Some(s@),
        None => None,
    }
}

/// Whether a name that may be missing is the given one.
fn name_is(name: &Option<String>, lit: &str) -> (r: bool)
    ensures
        r == (text_view(*name) == Some(lit@)),
{
    match name {
        Some(n) => same_text(n.as_str(), lit),
        None => false,
    }
}

/// Whether the arguments of a condition are looked into, given its name.
pub fn looks_into(name: &Option<String>) -> (r: bool)
    ensures
        r == (text_view(*name) == Some("any"@)),
{
    name_is(name, "any")
}

/// Names that may be missing, as contracts see them.
pub open spec fn name_views(v: Seq<Option<String>>) -> Seq<Option<Seq<char>>> {
    v.map_values(|t: Option<String>| text_view(t))
}

/// An attribute: its path, where that is a single name, and for a `cfg` the names of the
/// conditions in it, with those in the conditions that are looked into. A condition whose path
/// is not a single name has none.
#[derive(Debug)]
pub struct Attr {
    pub name: Option<String>,
    pub conditions: Vec<Option<String>>,
}

/// Whether an attribute says that an item is compiled for tests.
pub open spec fn gates(attr: Attr) -> bool {
    text_view(attr.name) == Some("cfg"@) && name_views(attr.conditions@).contains(Some("test"@))
}

/// Whether an attribute says that an item is compiled for tests.
pub fn attr_matches_cfg_test(attr: &Attr) -> (r: bool)
    ensures
        r == gates(*attr),
        r <==> attr.name is Some && attr.name->0@ == "cfg"@ && exists|i: int|
            0 <= i < attr.conditions@.len() && (#[trigger] attr.conditions@[i]) is Some
                && attr.conditions@[i]->0@ == "test"@,
{
    if !name_is(&attr.name, "cfg") {
        return false;
    }
    let ghost names = name_views(attr.conditions@);
    let mut i: usize = 0;
    while i < attr.conditions.len()
        invariant
            i <= attr.conditions@.len(),
            names == name_views(attr.conditions@),
            text_view(attr.name) == Some("cfg"@),
            forall|k: int| 0 <= k < i ==> #[trigger] names[k] != Some("test"@),
        decreases attr.conditions.len() - i,
    {
        assert(names[i as int] == text_view(attr.conditions@[i as int]));
        if name_is(&attr.conditions[i], "test") {
            assert(names.contains(Some("test"@)));
            return true;
        }
        i = i + 1;
    }
    assert forall|k: int| 0 <= k < attr.conditions@.len() implies !((
    #[trigger] attr.conditions@[k]) is Some && attr.conditions@[k]->0@ == "test"@) by {
        assert(names[k] == text_view(attr.conditions@[k]));
    }
    false
}

/// Whether one of the attributes says that an item is compiled for tests.
pub fn has_cfg_test(attrs: &Vec<Attr>) -> (r: bool)
    ensures
        r == exists|i: int| 0 <= i < attrs@.len() && gates(#[trigger] attrs@[i]),
{
    let mut i: usize = 0;
    while i < attrs.len()
        invariant
            i <= attrs@.len(),
            forall|k: int| 0 <= k < i ==> !gates(#[trigger] attrs@[k]),
        decreases attrs.len() - i,
    {
        if attr_matches_cfg_test(&attrs[i]) {
            return true;
        }
        i = i + 1;
    }
    false
}

// ---------------------------------------------------------------------------------------
// Items
// ---------------------------------------------------------------------------------------
/// An item of a source file: its attributes, its first and its last line, counted from one, and
/// for an inline module the items in it.
#[derive(Debug)]
pub struct SourceItem {
    pub attrs: Vec<Attr>,
    pub first_line: usize,
    pub last_line: usize,
    pub inner: Option<Vec<SourceItem>>,
}

/// Lines of a source file, counted from zero, both included.
#[derive(Debug, Clone, Copy, PartialEq, Eq, Structural)]
pub struct LineRange {
    pub start: u32,
    pub end: u32,
}

/// A line counted from zero, given the line counted from one.
pub open spec fn line_index(line: usize) -> u32 {
    (if line == 0 {
        0
    } else {
        line - 1
    }) as u32
}

/// The lines of an item.
pub open spec fn range_of(item: SourceItem) -> LineRange {
    LineRange { start: line_index(item.first_line), end: line_index(item.last_line) }
}

/// Whether an item is compiled for tests only, going by its attributes.
pub open spec fn is_gated(item: SourceItem) -> bool {
    exists|i: int| 0 <= i < item.attrs@.len() && gates(#[trigger] item.attrs@[i])
}

/// The lines of the outermost items compiled for tests only, among an item and those in it.
pub open spec fn item_ranges(item: SourceItem) -> Seq<LineRange>
    decreases item,
{
    if is_gated(item) {
        seq![range_of(item)]
    } else {
        match item.inner {
            Some(v) => ranges_of(v@),
            None => Seq::empty(),
        }
    }
}

/// The lines of the outermost items compiled for tests only, in order.
pub open spec fn ranges_of(items: Seq<SourceItem>) -> Seq<LineRange>
    decreases items,
{
    if items.len() == 0 {
        Seq::empty()
    } else {
        ranges_of(items.drop_last()) + item_ranges(items.last())
    }
}

/// A line counted from zero, given the line counted from one.
fn to_line_index(line: usize) -> (r: u32)
    ensures
        r == line_index(line),
{
    let before: usize = if line == 0 {
        0
    } else {
        line - 1
    };
    before as u32
}

/// Adds the lines of the outermost items compiled for tests only.
pub fn collect(items: &Vec<SourceItem>, out: &mut Vec<LineRange>)
    ensures
        final(out)@ == old(out)@ + ranges_of(items@),
    decreases items,
{
    let ghost start = out@;
    let mut i: usize = 0;
    assert(start + ranges_of(items@.take(0)) =~= start);
    while i < items.len()
        invariant
            i <= items@.len(),
            out@ == start + ranges_of(items@.take(i as int)),
        decreases items.len() - i,
    {
        let item = &items[i];
        let ghost had = out@;
        proof {
            assert(items@.take(i + 1).drop_last() =~= items@.take(i as int));
            assert(items@.take(i + 1).last() == *item);
        }
        if has_cfg_test(&item.attrs) {
            out.push(
                LineRange {
                    start: to_line_index(item.first_line),
                    end: to_line_index(item.last_line),
                },
            );
            assert(out@ =~= had + item_ranges(*item));
        } else {
            match &item.inner {
                Some(inner) => {
                    assert(decreases_to!(items => items@));
                    assert(decreases_to!(items@ => items@[i as int]));
                    assert(decreases_to!(items@[i as int] => items@[i as int].inner));
                    collect(inner, out);
                    assert(item_ranges(*item) == ranges_of(inner@));
                },
                None => {
                    assert(out@ =~= had + item_ranges(*item));
                },
            }
        }
        proof {
            assert(out@ == had + item_ranges(*item));
            assert(ranges_of(items@.take(i + 1)) == ranges_of(items@.take(i as int)) + item_ranges(
                *item,
            ));
            assert(out@ =~= start + ranges_of(items@.take(i + 1)));
        }
        i = i + 1;
    }
    assert(items@.take(i as int) =~= items@);
}

// ---------------------------------------------------------------------------------------
// Source files
// ---------------------------------------------------------------------------------------
/// `syn::Item`.
#[verifier::external_type_specification]
#[verifier::external_body]
pub struct ExItem(syn::Item);

/// `syn::Attribute`.
#[verifier::external_type_specification]
#[verifier::external_body]
pub struct ExAttribute(syn::Attribute);

/// The items of a source text, as [`parse_items`] gives them.
pub uninterp spec fn source_items(source: Seq<char>) -> Option<Seq<syn::Item>>;

/// The first and the last line of an item, as [`item_lines`] gives them.
pub uninterp spec fn lines_of_item(item: syn::Item) -> (usize, usize);

/// The attributes of an item, as [`item_attrs`] gives them.
pub uninterp spec fn attrs_of_item(item: syn::Item) -> Option<Seq<syn::Attribute>>;

/// The attributes of an item, as [`other_item_attrs`] gives them.
pub uninterp spec fn attrs_of_other_item(item: syn::Item) -> Option<Seq<syn::Attribute>>;

/// The items in an inline module, as [`module_items`] gives them.
pub uninterp spec fn items_in_module(item: syn::Item) -> Option<Seq<syn::Item>>;

/// The path of an attribute, as [`attr_name`] gives it.
pub uninterp spec fn name_of_attr(attr: syn::Attribute) -> Option<Seq<char>>;

/// The names of the conditions in an attribute, as [`attr_conditions`] gives them.
pub uninterp spec fn conditions_of_attr(attr: syn::Attribute) -> Seq<Option<Seq<char>>>;

/// `syn::parse_file`: the items of a source text, where it can be parsed.
#[verifier::external_body]
fn parse_items(source: &str) -> (r: Option<Vec<syn::Item>>)
    ensures
        match r {
            Some(v) => source_items(source@) == Some(v@),
            None => source_items(source@) is None,
        },
{
    syn::parse_file(source).ok().map(|file| file.items)
}

/// `Spanned::span` of a `syn::Item`: the lines of its start and its end. They are looked up
/// in what the thread that parsed the item has kept.
#[verifier::external_body]
fn item_lines(item: &syn::Item) -> (r: (usize, usize))
    ensures
        r == lines_of_item(*item),
{
    let span = syn::spanned::Spanned::span(item);
    (span.start().line, span.end().line)
}

/// The field `attrs` of the more common variants of `syn::Item`; [`other_item_attrs`] knows the
/// others.
#[verifier::external_body]
fn item_attrs(item: &syn::Item) -> (r: Option<&Vec<syn::Attribute>>)
    ensures
        match r {
            Some(v) => attrs_of_item(*item) == Some(v@),
            None => attrs_of_item(*item) is None,
        },
{
    Some(match item {
        syn::Item::Fn(x) => &x.attrs,
        syn::Item::Mod(x) => &x.attrs,
        syn::Item::Impl(x) => &x.attrs,
        syn::Item::Struct(x) => &x.attrs,
        syn::Item::Enum(x) => &x.attrs,
        syn::Item::Trait(x) => &x.attrs,
        syn::Item::Const(x) => &x.attrs,
        syn::Item::Static(x) => &x.attrs,
        syn::Item::Use(x) => &x.attrs,
        _ => return None,
    })
}

/// The field `attrs` of the variants of `syn::Item` that have one and are not among those of
/// [`item_attrs`].
#[verifier::external_body]
fn other_item_attrs(item: &syn::Item) -> (r: Option<&Vec<syn::Attribute>>)
    ensures
        match r {
            Some(v) => attrs_of_other_item(*item) == Some(v@),
            None => attrs_of_other_item(*item) is None,
        },
{
    Some(match item {
        syn::Item::ExternCrate(x) => &x.attrs,
        syn::Item::ForeignMod(x) => &x.attrs,
        syn::Item::Macro(x) => &x.attrs,
        syn::Item::TraitAlias(x) => &x.attrs,
        syn::Item::Type(x) => &x.attrs,
        syn::Item::Union(x) => &x.attrs,
        _ => return None,
    })
}

/// The field `content` of a `syn::Item` that is a module: the items in it, each of which is a
/// part of it.
#[verifier::external_body]
fn module_items(item: &syn::Item) -> (r: Option<&Vec<syn::Item>>)
    ensures
        match r {
            Some(v) => items_in_module(*item) == Some(v@) && forall|i: int|
                0 <= i < v@.len() ==> (#[trigger] decreases_to!(*item => v@[i])),
            None => items_in_module(*item) is None,
        },
{
    match item {
        syn::Item::Mod(m) => m.content.as_ref().map(|content| &content.1),
        _ => None,
    }
}

/// `syn::Attribute::path` and `get_ident`: the path of an attribute, where it is one name.
#[verifier::external_body]
fn attr_name(attr: &syn::Attribute) -> (r: Option<String>)
    ensures
        text_view(r) == name_of_attr(*attr),
{
    attr.path().get_ident().map(|ident| ident.to_string())
}

/// `syn::Attribute::parse_nested_meta`: the names of the conditions in an attribute, up to the
/// first place that it refuses. In a condition that [`looks_into`] picks, its own
/// `parse_nested_meta` gives the name of the first one, and the rest is skipped.
#[verifier::external_body]
fn attr_conditions(attr: &syn::Attribute) -> (r: Vec<Option<String>>)
    ensures
        name_views(r@) == conditions_of_attr(*attr),
{
    let mut met = Vec::new();
    let _ = attr.parse_nested_meta(|meta| {
        let name = meta.path.get_ident().map(|i| i.to_string());
        let inside = looks_into(&name);
        met.push(name);
        if !inside {
            return Ok(());
        }
        meta.parse_nested_meta(|inner| {
            met.push(inner.path.get_ident().map(|i| i.to_string()));
            let _ = inner.input.parse::<proc_macro2::TokenStream>();
            Ok(())
        })
    });
    met
}

/// Whether an attribute of a source file is what is written.
pub open spec fn attr_mirrors(attr: syn::Attribute, a: Attr) -> bool {
    &&& text_view(a.name) == name_of_attr(attr)
    &&& name_views(a.conditions@) == if name_of_attr(attr) == Some("cfg"@) {
        conditions_of_attr(attr)
    } else {
        Seq::empty()
    }
}

/// Whether attributes of a source file are what is written.
pub open spec fn attrs_mirror(attrs: Seq<syn::Attribute>, v: Seq<Attr>) -> bool {
    attrs.len() == v.len() && forall|i: int|
        0 <= i < v.len() ==> attr_mirrors(attrs[i], #[trigger] v[i])
}

/// The attributes of an item, whatever item it is.
pub open spec fn all_attrs(item: syn::Item) -> Option<Seq<syn::Attribute>> {
    match attrs_of_item(item) {
        Some(attrs) => Some(attrs),
        None => attrs_of_other_item(item),
    }
}

/// Whether an item of a source file is what is written.
pub open spec fn mirrors(item: syn::Item, t: SourceItem) -> bool
    decreases t,
{
    &&& lines_of_item(item) == (t.first_line, t.last_line)
    &&& match all_attrs(item) {
        Some(attrs) => attrs_mirror(attrs, t.attrs@),
        None => t.attrs@.len() == 0,
    }
    &&& match items_in_module(item) {
        Some(items) => t.inner is Some && items.len() == t.inner->0@.len() && forall|i: int|
            0 <= i < t.inner->0@.len() ==> mirrors(items[i], #[trigger] t.inner->0@[i]),
        None => t.inner is None,
    }
}

/// The attributes of an item.
fn read_attrs(attrs: &Vec<syn::Attribute>) -> (r: Vec<Attr>)
    ensures
        attrs_mirror(attrs@, r@),
{
    let mut out: Vec<Attr> = Vec::new();
    let mut i: usize = 0;
    while i < attrs.len()
        invariant
            i <= attrs@.len(),
            out@.len() == i,
            forall|k: int| 0 <= k < i ==> attr_mirrors(attrs@[k], #[trigger] out@[k]),
        decreases attrs.len() - i,
    {
        let name = attr_name(&attrs[i]);
        let conditions = if name_is(&name, "cfg") {
            attr_conditions(&attrs[i])
        } else {
            let none: Vec<Option<String>> = Vec::new();
            assert(name_views(none@) =~= Seq::<Option<Seq<char>>>::empty());
            none
        };
        out.push(Attr { name, conditions });
        i = i + 1;
    }
    out
}

/// What an item of a source file is.
fn read_item(item: &syn::Item) -> (r: SourceItem)
    ensures
        mirrors(*item, r),
    decreases *item,
{
    let (first_line, last_line) = item_lines(item);
    let attrs = match item_attrs(item) {
        Some(attrs) => read_attrs(attrs),
        None => match other_item_attrs(item) {
            Some(attrs) => read_attrs(attrs),
            None => Vec::new(),
        },
    };
    let inner = match module_items(item) {
        None => None,
        Some(items) => {
            let mut out: Vec<SourceItem> = Vec::new();
            let mut i: usize = 0;
            while i < items.len()
                invariant
                    i <= items@.len(),
                    out@.len() == i,
                    forall|k: int| 0 <= k < i ==> mirrors(items@[k], #[trigger] out@[k]),
                    forall|k: int|
                        0 <= k < items@.len() ==> (#[trigger] decreases_to!(*item => items@[k])),
                decreases items.len() - i,
            {
                assert(decreases_to!(*item => items@[i as int]));
                out.push(read_item(&items[i]));
                i = i + 1;
            }
            Some(out)
        },
    };
    SourceItem { attrs, first_line, last_line, inner }
}

/// Whether items of a source file are what is written.
pub open spec fn all_mirror(items: Seq<syn::Item>, trees: Seq<SourceItem>) -> bool {
    items.len() == trees.len() && forall|i: int|
        0 <= i < trees.len() ==> mirrors(items[i], #[trigger] trees[i])
}

/// Whether these are the lines of the outermost items of a source text that are compiled for
/// tests only.
pub open spec fn gated_lines(source: Seq<char>, ranges: Seq<LineRange>) -> bool {
    source_items(source) matches Some(items) && exists|trees: Seq<SourceItem>|
        #[trigger] all_mirror(items, trees) && ranges == ranges_of(trees)
}

/// The lines of the outermost items of a source text that are compiled for tests only, where
/// the text can be parsed.
pub fn parse_source_ranges(source: &str) -> (r: Option<Vec<LineRange>>)
    ensures
        match r {
            Some(ranges) => gated_lines(source@, ranges@),
            None => source_items(source@) is None,
        },
{
    let items = match parse_items(source) {
        Some(items) => items,
        None => {
            return None;
        },
    };
    let mut trees: Vec<SourceItem> = Vec::new();
    let mut i: usize = 0;
    while i < items.len()
        invariant
            i <= items@.len(),
            trees@.len() == i,
            forall|k: int| 0 <= k < i ==> mirrors(items@[k], #[trigger] trees@[k]),
        decreases items.len() - i,
    {
        trees.push(read_item(&items[i]));
        i = i + 1;
    }
    let mut out: Vec<LineRange> = Vec::new();
    collect(&trees, &mut out);
    proof {
        assert(out@ =~= ranges_of(trees@));
        assert(source_items(source@) == Some(items@));
        assert(source_items(source@)->0 == items@);
        assert(all_mirror(source_items(source@)->0, trees@));
    }
    Some(out)
}

/// Whether a line lies in one of the ranges.
pub open spec fn in_ranges(ranges: Seq<LineRange>, line: u32) -> bool {
    exists|i: int|
        0 <= i < ranges.len() && (#[trigger] ranges[i]).start <= line && line <= ranges[i].end
}

/// Whether a line lies in one of the ranges.
pub fn line_in_ranges(ranges: &Vec<LineRange>, line: u32) -> (r: bool)
    ensures
        r == in_ranges(ranges@, line),
        r <==> exists|i: int|
            0 <= i < ranges@.len() && (#[trigger] ranges@[i]).start <= line && line
                <= ranges@[i].end,
{
    let mut i: usize = 0;
    while i < ranges.len()
        invariant
            i <= ranges@.len(),
            forall|k: int|
                0 <= k < i ==> !((#[trigger] ranges@[k]).start <= line && line <= ranges@[k].end),
        decreases ranges.len() - i,
    {
        if ranges[i].start <= line && line <= ranges[i].end {
            return true;
        }
        i = i + 1;
    }
    false
}

// ---------------------------------------------------------------------------------------
// Files
// ---------------------------------------------------------------------------------------
/// Tells whether places lie in code that is compiled for tests only. It remembers the files
/// that it was shown.
pub struct CfgClassifier {
    files: Vec<(PathBuf, Vec<LineRange>)>,
}

/// The ranges that stand first for a file.
pub open spec fn ranges_in(v: Seq<(PathBuf, Vec<LineRange>)>, file: Seq<Part>) -> Option<
    Seq<LineRange>,
>
    decreases v.len(),
{
    if v.len() == 0 {
        None
    } else if v[0].0@ == file {
        Some(v[0].1@)
    } else {
        ranges_in(v.drop_first(), file)
    }
}

proof fn ranges_in_push(
    v: Seq<(PathBuf, Vec<LineRange>)>,
    entry: (PathBuf, Vec<LineRange>),
    file: Seq<Part>,
)
    ensures
        ranges_in(v.push(entry), file) == match ranges_in(v, file) {
            Some(x) => Some(x),
            None => if file == entry.0@ {
                Some(entry.1@)
            } else {
                None
            },
        },
    decreases v.len(),
{
    let w = v.push(entry);
    if v.len() > 0 {
        assert(w.drop_first() =~= v.drop_first().push(entry));
        ranges_in_push(v.drop_first(), entry, file);
    } else {
        assert(w.drop_first() =~= v);
    }
}

/// Files that were shown: each with its text, if it could be read.
pub type Shown = Seq<(Seq<Part>, Option<Seq<char>>)>;

/// What was first shown of a file, if anything was.
pub open spec fn first_shown(shown: Shown, file: Seq<Part>) -> Option<Option<Seq<char>>>
    decreases shown.len(),
{
    if shown.len() == 0 {
        None
    } else {
        match first_shown(shown.drop_last(), file) {
            Some(text) => Some(text),
            None => if shown.last().0 == file {
                Some(shown.last().1)
            } else {
                None
            },
        }
    }
}

/// Whether these are the lines of a shown file that are compiled for tests only. There are none
/// in a file that could not be read or cannot be parsed.
pub open spec fn lines_fit(text: Option<Seq<char>>, ranges: Seq<LineRange>) -> bool {
    match text {
        Some(text) => match source_items(text) {
            Some(_) => gated_lines(text, ranges),
            None => ranges.len() == 0,
        },
        None => ranges.len() == 0,
    }
}

/// Whether a classifier knows what it was shown, and nothing else. What was shown first of a
/// file counts.
pub open spec fn knows_what_was_shown(c: CfgClassifier, shown: Shown) -> bool {
    forall|file: Seq<Part>|
        match first_shown(shown, file) {
            Some(text) => (#[trigger] c.known(file)) is Some && lines_fit(text, c.known(file)->0),
            None => c.known(file) is None,
        }
}

/// Whether a classifier knows what another one knows.
pub open spec fn knows_more(c: CfgClassifier, d: CfgClassifier) -> bool {
    forall|file: Seq<Part>| c.known(file) is Some ==> #[trigger] d.known(file) == c.known(file)
}

/// Whether a classifier was shown the files of all locations.
pub open spec fn knows_all(c: CfgClassifier, locs: Seq<Site>) -> bool {
    forall|i: int| 0 <= i < locs.len() ==> c.known((#[trigger] locs[i]).path) is Some
}

/// A classifier that knows all files decides on locations as one does that knows more.
pub proof fn more_knowledge_changes_nothing(c: CfgClassifier, d: CfgClassifier, locs: Seq<Site>)
    requires
        knows_more(c, d),
        knows_all(c, locs),
    ensures
        d.kept(locs) == c.kept(locs),
        knows_all(d, locs),
    decreases locs.len(),
{
    assert forall|i: int| 0 <= i < locs.len() implies d.known((#[trigger] locs[i]).path) is Some by {
        assert(c.known(locs[i].path) is Some);
    }
    if locs.len() > 0 {
        let front = locs.drop_last();
        assert forall|i: int| 0 <= i < front.len() implies c.known((#[trigger] front[i]).path)
            is Some by {
            assert(front[i] == locs[i]);
        }
        more_knowledge_changes_nothing(c, d, front);
        assert(c.known(locs[locs.len() - 1].path) is Some);
        assert(d.known(locs.last().path) == c.known(locs.last().path));
    }
}

impl CfgClassifier {
    /// The lines known of a file, if it was shown.
    pub closed spec fn known(&self, file: Seq<Part>) -> Option<Seq<LineRange>> {
        ranges_in(self.files@, file)
    }

    /// A classifier that was shown no file.
    pub fn new() -> (r: CfgClassifier)
        ensures
            forall|file: Seq<Part>| (#[trigger] r.known(file)) is None,
    {
        CfgClassifier { files: Vec::new() }
    }

    /// The index of the first entry for a file, or the number of entries.
    fn find(&self, file: &PathBuf) -> (r: usize)
        ensures
            r <= self.files@.len(),
            self.known(file@) == if r < self.files@.len() {
                Some(self.files@[r as int].1@)
            } else {
                None
            },
    {
        let mut i: usize = 0;
        assert(self.files@.skip(0) =~= self.files@);
        while i < self.files.len()
            invariant
                i <= self.files@.len(),
                ranges_in(self.files@, file@) == ranges_in(self.files@.skip(i as int), file@),
            decreases self.files.len() - i,
        {
            proof {
                assert(self.files@.skip(i as int)[0] == self.files@[i as int]);
                assert(self.files@.skip(i as int).drop_first() =~= self.files@.skip(i + 1));
            }
            if self.files[i].0.same(file) {
                return i;
            }
            i = i + 1;
        }
        i
    }

    /// Whether a file was shown.
    pub fn knows(&self, file: &PathBuf) -> (r: bool)
        ensures
            r == (self.known(file@) is Some),
    {
        self.find(file) < self.files.len()
    }

    /// Shows a file: its text, if it could be read. Of a file that could not be read, and of one
    /// that cannot be parsed, no line counts as compiled for tests only. A file that was shown
    /// before is left as it was.
    pub fn show(&mut self, file: &PathBuf, source: Option<&str>)
        ensures
            forall|other: Seq<Part>|
                other != file@ || old(self).known(other) is Some ==> #[trigger] final(self).known(
                    other,
                ) == old(self).known(other),
            old(self).known(file@) is None ==> final(self).known(file@) is Some && lines_fit(
                match source {
                    Some(text) => Some(text@),
                    None => None,
                },
                final(self).known(file@)->0,
            ),
    {
        if self.knows(file) {
            return;
        }
        let ranges: Vec<LineRange> = match source {
            Some(text) => match parse_source_ranges(text) {
                Some(ranges) => ranges,
                None => Vec::new(),
            },
            None => Vec::new(),
        };
        let entry = (file.clone(), ranges);
        let ghost had = self.files@;
        let ghost e = entry;
        self.files.push(entry);
        proof {
            assert forall|other: Seq<Part>|
                other != file@ || old(self).known(other) is Some implies #[trigger] self.known(
                other,
            ) == old(self).known(other) by {
                ranges_in_push(had, e, other);
            }
            ranges_in_push(had, e, file@);
        }
    }

    /// Whether a place lies in code that is compiled for tests only. Nothing is said of a file
    /// that was not shown.
    pub fn is_test_gated(&self, file: &PathBuf, pos: Position) -> (r: Option<bool>)
        ensures
            r == match self.known(file@) {
                Some(ranges) => Some(in_ranges(ranges, pos.line)),
                None => None,
            },
    {
        let at = self.find(file);
        if at < self.files.len() {
            Some(line_in_ranges(&self.files[at].1, pos.line))
        } else {
            None
        }
    }

    /// Whether a location is not known to lie in code that is compiled for tests only.
    pub open spec fn keeps(&self, loc: Site) -> bool {
        match self.known(loc.path) {
            Some(ranges) => !in_ranges(ranges, loc.range.start.line),
            None => true,
        }
    }

    /// The locations that do not lie in code that is compiled for tests only, in order.
    pub open spec fn kept(&self, locs: Seq<Site>) -> Seq<Site>
        decreases locs.len(),
    {
        if locs.len() == 0 {
            Seq::empty()
        } else if self.keeps(locs.last()) {
            self.kept(locs.drop_last()).push(locs.last())
        } else {
            self.kept(locs.drop_last())
        }
    }

    /// Leaves out the locations that lie in code that is compiled for tests only.
    pub fn drop_test_gated(&self, locs: &Vec<Location>) -> (r: Vec<Location>)
        ensures
            views(r@) == self.kept(views(locs@)),
    {
        let ghost all = views(locs@);
        let mut out: Vec<Location> = Vec::new();
        let mut i: usize = 0;
        proof {
            assert(all.take(0) =~= Seq::<Site>::empty());
            assert(views(out@) =~= Seq::<Site>::empty());
        }
        while i < locs.len()
            invariant
                i <= locs@.len(),
                all == views(locs@),
                views(out@) == self.kept(all.take(i as int)),
            decreases locs.len() - i,
        {
            let loc = &locs[i];
            let ghost had = out@;
            proof {
                assert(all.take(i + 1).drop_last() =~= all.take(i as int));
                assert(all.take(i + 1).last() == loc@);
            }
            let gated = match self.is_test_gated(&loc.path, loc.range.start) {
                Some(g) => g,
                None => false,
            };
            if !gated {
                out.push(loc.clone());
                assert(views(out@) =~= views(had).push(loc@));
            }
            i = i + 1;
        }
        assert(all.take(i as int) =~= all);
        out
    }
}

/// The locations that are kept are among those given, and none of them is known to lie in code
/// that is compiled for tests only; every other location is left out for that reason.
pub proof fn kept_locations_are_the_others(c: CfgClassifier, locs: Seq<Site>, loc: Site)
    ensures
        c.kept(locs).contains(loc) <==> locs.contains(loc) && c.keeps(loc),
    decreases locs.len(),
{
    if locs.len() > 0 {
        let front = locs.drop_last();
        kept_locations_are_the_others(c, front, loc);
        let row = c.kept(locs);
        if locs.contains(loc) {
            let k = choose|k: int| 0 <= k < locs.len() && locs[k] == loc;
            if k < front.len() {
                assert(front[k] == loc);
            }
        }
        if front.contains(loc) {
            let k = choose|k: int| 0 <= k < front.len() && front[k] == loc;
            assert(locs[k] == loc);
        }
        if c.kept(front).contains(loc) {
            let k = choose|k: int| 0 <= k < c.kept(front).len() && c.kept(front)[k] == loc;
            assert(row[k] == loc);
        }
        if c.keeps(locs.last()) {
            assert(row.last() == locs.last());
            assert(locs[locs.len() - 1] == locs.last());
            if row.contains(loc) {
                let k = choose|k: int| 0 <= k < row.len() && row[k] == loc;
                if k < c.kept(front).len() {
                    assert(c.kept(front)[k] == loc);
                }
            }
        }
    }
}

/// The locations that are kept are the given ones without those that are known to lie in code
/// that is compiled for tests only, all others and in the same order.
pub proof fn kept_locations_are_filtered(c: CfgClassifier, locs: Seq<Site>)
    ensures
        c.kept(locs) == locs.filter(
            |l: Site|
                !(c.known(l.path) is Some && exists|i: int|
                    0 <= i < c.known(l.path)->0.len() && (#[trigger] c.known(l.path)->0[i]).start
                        <= l.range.start.line && l.range.start.line <= c.known(l.path)->0[i].end),
        ),
    decreases locs.len(),
{
    reveal(Seq::filter);
    let others = |l: Site|
        !(c.known(l.path) is Some && exists|i: int|
            0 <= i < c.known(l.path)->0.len() && (#[trigger] c.known(l.path)->0[i]).start
                <= l.range.start.line && l.range.start.line <= c.known(l.path)->0[i].end);
    if locs.len() > 0 {
        kept_locations_are_filtered(c, locs.drop_last());
        assert(others(locs.last()) <==> c.keeps(locs.last()));
    } else {
        assert(c.kept(locs) =~= locs.filter(others));
    }
}

/// The lines of two rows of items put together are those of the one, and then those of the
/// other.
pub proof fn ranges_of_joined(a: Seq<SourceItem>, b: Seq<SourceItem>)
    ensures
        ranges_of(a + b) == ranges_of(a) + ranges_of(b),
    decreases b.len(),
{
    if b.len() == 0 {
        assert(a + b =~= a);
        assert(ranges_of(a) + ranges_of(b) =~= ranges_of(a));
    } else {
        assert((a + b).drop_last() =~= a + b.drop_last());
        ranges_of_joined(a, b.drop_last());
        assert(ranges_of(a + b) =~= ranges_of(a) + ranges_of(b));
    }
}

/// One item that bears `#[cfg(test)]` has all of its lines, one that does not has those of the
/// items in it.
pub proof fn ranges_of_one_item(item: SourceItem)
    ensures
        (exists|i: int, k: int|
            0 <= i < item.attrs@.len() && item.attrs@[i].name is Some && item.attrs@[i].name->0@
                == "cfg"@ && 0 <= k < item.attrs@[i].conditions@.len() && (
            #[trigger] item.attrs@[i].conditions@[k]) is Some && item.attrs@[i].conditions@[k]->0@
                == "test"@) ==> ranges_of(seq![item]).len() == 1 && (1 <= item.first_line
            <= u32::MAX ==> ranges_of(seq![item])[0].start + 1 == item.first_line) && (1
            <= item.last_line <= u32::MAX ==> ranges_of(seq![item])[0].end + 1 == item.last_line),
        (forall|i: int, k: int|
            0 <= i < item.attrs@.len() && item.attrs@[i].name is Some && item.attrs@[i].name->0@
                == "cfg"@ && 0 <= k < item.attrs@[i].conditions@.len() && (
            #[trigger] item.attrs@[i].conditions@[k]) is Some
                ==> item.attrs@[i].conditions@[k]->0@ != "test"@) ==> ranges_of(seq![item])
            == match item.inner {
            Some(v) => ranges_of(v@),
            None => Seq::empty(),
        },
{
    let row = seq![item];
    assert(row.drop_last() =~= Seq::<SourceItem>::empty());
    assert(ranges_of(row.drop_last()) =~= Seq::<LineRange>::empty());
    assert(ranges_of(row) =~= item_ranges(item));
    if exists|i: int, k: int|
        0 <= i < item.attrs@.len() && item.attrs@[i].name is Some && item.attrs@[i].name->0@
            == "cfg"@ && 0 <= k < item.attrs@[i].conditions@.len() && (
        #[trigger] item.attrs@[i].conditions@[k]) is Some && item.attrs@[i].conditions@[k]->0@
            == "test"@ {
        let (i, k) = choose|i: int, k: int|
            0 <= i < item.attrs@.len() && item.attrs@[i].name is Some && item.attrs@[i].name->0@
                == "cfg"@ && 0 <= k < item.attrs@[i].conditions@.len() && (
            #[trigger] item.attrs@[i].conditions@[k]) is Some && item.attrs@[i].conditions@[k]->0@
                == "test"@;
        let names = name_views(item.attrs@[i].conditions@);
        assert(names[k] == Some("test"@));
        assert(names.contains(Some("test"@)));
        assert(gates(item.attrs@[i]));
    } else {
        if is_gated(item) {
            let i = choose|i: int| 0 <= i < item.attrs@.len() && gates(#[trigger] item.attrs@[i]);
            let names = name_views(item.attrs@[i].conditions@);
            let k = choose|k: int| 0 <= k < names.len() && names[k] == Some("test"@);
            assert(item.attrs@[i].conditions@[k] is Some);
        }
    }
}

/// The attributes that are written on an item of a source file.
pub open spec fn written_attrs(item: syn::Item) -> Seq<syn::Attribute> {
    match attrs_of_item(item) {
        Some(attrs) => attrs,
        None => match attrs_of_other_item(item) {
            Some(attrs) => attrs,
            None => Seq::empty(),
        },
    }
}

/// Whether an item of a source file bears `#[cfg(test)]`, or another `cfg` with that condition.
pub open spec fn bears_cfg_test(item: syn::Item) -> bool {
    let attrs = written_attrs(item);
    exists|i: int|
        0 <= i < attrs.len() && name_of_attr(#[trigger] attrs[i]) == Some("cfg"@)
            && conditions_of_attr(attrs[i]).contains(Some("test"@))
}

/// Whether a row of items leads from one of the given items inward, each in the module that the
/// one before is, and none but the last compiled for tests only.
pub open spec fn leads_to_gated(items: Seq<syn::Item>, way: Seq<syn::Item>) -> bool {
    &&& way.len() > 0
    &&& items.contains(way[0])
    &&& forall|k: int|
        0 <= k < way.len() - 1 ==> !bears_cfg_test(#[trigger] way[k]) && items_in_module(way[k])
            is Some && items_in_module(way[k])->0.contains(way[k + 1])
    &&& bears_cfg_test(way.last())
}

/// The lines of an item as a range counted from zero.
pub open spec fn zero_based(lines: (usize, usize)) -> LineRange {
    LineRange {
        start: (if lines.0 == 0 {
            0
        } else {
            lines.0 - 1
        }) as u32,
        end: (if lines.1 == 0 {
            0
        } else {
            lines.1 - 1
        }) as u32,
    }
}

proof fn gated_as_written(item: syn::Item, t: SourceItem)
    requires
        mirrors(item, t),
    ensures
        is_gated(t) <==> bears_cfg_test(item),
{
    let attrs = written_attrs(item);
    if is_gated(t) {
        let i = choose|i: int| 0 <= i < t.attrs@.len() && gates(#[trigger] t.attrs@[i]);
        assert(attr_mirrors(attrs[i], t.attrs@[i]));
        assert(name_of_attr(attrs[i]) == Some("cfg"@));
        assert(conditions_of_attr(attrs[i]).contains(Some("test"@)));
        assert(0 <= i < attrs.len());
        assert(bears_cfg_test(item));
    }
    if bears_cfg_test(item) {
        let i = choose|i: int|
            0 <= i < attrs.len() && name_of_attr(#[trigger] attrs[i]) == Some("cfg"@)
                && conditions_of_attr(attrs[i]).contains(Some("test"@));
        assert(attr_mirrors(attrs[i], t.attrs@[i]));
        assert(gates(t.attrs@[i]));
    }
}

/// A range is collected exactly where a way inward through modules that are not compiled for
/// tests only leads to an item with these lines that is.
proof fn collected_where_a_way_leads(
    items: Seq<syn::Item>,
    trees: Seq<SourceItem>,
    r: LineRange,
)
    requires
        all_mirror(items, trees),
    ensures
        ranges_of(trees).contains(r) <==> exists|way: Seq<syn::Item>| #[trigger]
            leads_to_gated(items, way) && zero_based(lines_of_item(way.last())) == r,
    decreases trees,
{
    let row = ranges_of(trees);
    if trees.len() == 0 {
        assert forall|way: Seq<syn::Item>| !(#[trigger] leads_to_gated(items, way)) by {}
    } else {
        let front = trees.drop_last();
        let firsts = items.drop_last();
        let t = trees.last();
        let item = items.last();
        assert(trees[trees.len() - 1] == t);
        assert forall|i: int| 0 <= i < front.len() implies mirrors(firsts[i], #[trigger] front[i]) by {
            assert(front[i] == trees[i]);
        }
        assert(mirrors(items[trees.len() - 1], trees[trees.len() - 1]));
        collected_where_a_way_leads(firsts, front, r);
        gated_as_written(item, t);
        let before = ranges_of(front);
        let more = item_ranges(t);
        assert(row == before + more);
        assert(decreases_to!(trees => trees[trees.len() - 1]));
        if t.inner is Some {
            assert(decreases_to!(t => t.inner));
            assert(all_mirror(items_in_module(item)->0, t.inner->0@));
            collected_where_a_way_leads(items_in_module(item)->0, t.inner->0@, r);
        }
        if row.contains(r) {
            let k = choose|k: int| 0 <= k < row.len() && row[k] == r;
            if k < before.len() {
                assert(before[k] == r);
                let way = choose|way: Seq<syn::Item>| #[trigger]
                    leads_to_gated(firsts, way) && zero_based(lines_of_item(way.last())) == r;
                let m = choose|m: int| 0 <= m < firsts.len() && firsts[m] == way[0];
                assert(items[m] == way[0]);
                assert(leads_to_gated(items, way));
            } else {
                assert(more[k - before.len()] == r);
                if is_gated(t) {
                    let way = seq![item];
                    assert(items[items.len() - 1] == item);
                    assert(leads_to_gated(items, way));
                    assert(way.last() == item);
                } else {
                    let inside = items_in_module(item)->0;
                    assert(ranges_of(t.inner->0@).contains(r));
                    let inner = choose|way: Seq<syn::Item>| #[trigger]
                        leads_to_gated(inside, way) && zero_based(lines_of_item(way.last())) == r;
                    let way = seq![item] + inner;
                    assert(items[items.len() - 1] == item);
                    assert forall|j: int| 0 <= j < way.len() - 1 implies !bears_cfg_test(
                        #[trigger] way[j],
                    ) && items_in_module(way[j]) is Some && items_in_module(way[j])->0.contains(
                        way[j + 1],
                    ) by {
                        if j > 0 {
                            assert(way[j] == inner[j - 1]);
                            assert(way[j + 1] == inner[j]);
                        } else {
                            assert(way[1] == inner[0]);
                        }
                    }
                    assert(way.last() == inner.last());
                    assert(leads_to_gated(items, way));
                }
            }
        }
        if exists|way: Seq<syn::Item>| #[trigger]
            leads_to_gated(items, way) && zero_based(lines_of_item(way.last())) == r {
            let way = choose|way: Seq<syn::Item>| #[trigger]
                leads_to_gated(items, way) && zero_based(lines_of_item(way.last())) == r;
            let m = choose|m: int| 0 <= m < items.len() && items[m] == way[0];
            if m < firsts.len() {
                assert(firsts[m] == way[0]);
                assert(leads_to_gated(firsts, way));
                let k = choose|k: int| 0 <= k < before.len() && before[k] == r;
                assert(row[k] == r);
            } else if way.len() == 1 {
                assert(way.last() == item);
                assert(more[0] == r);
                assert(row[before.len() as int] == r);
            } else {
                let inside = items_in_module(item)->0;
                let inner = way.drop_first();
                assert(!bears_cfg_test(way[0]));
                assert(inside.contains(way[1]));
                assert forall|j: int| 0 <= j < inner.len() - 1 implies !bears_cfg_test(
                    #[trigger] inner[j],
                ) && items_in_module(inner[j]) is Some && items_in_module(inner[j])->0.contains(
                    inner[j + 1],
                ) by {
                    assert(inner[j] == way[j + 1]);
                    assert(inner[j + 1] == way[j + 2]);
                }
                assert(inner.last() == way.last());
                assert(leads_to_gated(inside, inner));
                let k = choose|k: int| 0 <= k < more.len() && more[k] == r;
                assert(row[before.len() + k] == r);
            }
        }
    }
}

/// A line of a source text counts as compiled for tests only exactly where it lies between the
/// first and the last line of an item that bears `#[cfg(test)]`: one of the file, or one in
/// inline modules that do not bear it, to any depth.
pub proof fn gated_lines_are_those_of_gated_items(
    source: Seq<char>,
    ranges: Seq<LineRange>,
    line: u32,
)
    requires
        gated_lines(source, ranges),
    ensures
        (exists|i: int|
            0 <= i < ranges.len() && (#[trigger] ranges[i]).start <= line && line <= ranges[i].end)
            <==> exists|way: Seq<syn::Item>| #[trigger]
            leads_to_gated(source_items(source)->0, way) && zero_based(
                lines_of_item(way.last()),
            ).start <= line && line <= zero_based(lines_of_item(way.last())).end,
{
    let items = source_items(source)->0;
    let trees = choose|trees: Seq<SourceItem>| #[trigger]
        all_mirror(items, trees) && ranges == ranges_of(trees);
    if exists|i: int|
        0 <= i < ranges.len() && (#[trigger] ranges[i]).start <= line && line <= ranges[i].end {
        let i = choose|i: int|
            0 <= i < ranges.len() && (#[trigger] ranges[i]).start <= line && line <= ranges[i].end;
        collected_where_a_way_leads(items, trees, ranges[i]);
        assert(ranges.contains(ranges[i]));
        let way = choose|way: Seq<syn::Item>| #[trigger]
            leads_to_gated(items, way) && zero_based(lines_of_item(way.last())) == ranges[i];
        assert(leads_to_gated(items, way));
    }
    if exists|way: Seq<syn::Item>| #[trigger]
        leads_to_gated(items, way) && zero_based(lines_of_item(way.last())).start <= line && line
            <= zero_based(lines_of_item(way.last())).end {
        let way = choose|way: Seq<syn::Item>| #[trigger]
            leads_to_gated(items, way) && zero_based(lines_of_item(way.last())).start <= line
                && line <= zero_based(lines_of_item(way.last())).end;
        let r = zero_based(lines_of_item(way.last()));
        collected_where_a_way_leads(items, trees, r);
        let i = choose|i: int| 0 <= i < ranges.len() && ranges[i] == r;
        assert(ranges[i].start <= line);
    }
}

/// What is shown first of a file counts, and a file that was not shown is not known.
pub proof fn the_first_showing_of_a_file_counts(shown: Shown, file: Seq<Part>, i: int)
    ensures
        first_shown(shown, file) is None <==> forall|k: int|
            0 <= k < shown.len() ==> (#[trigger] shown[k]).0 != file,
        0 <= i < shown.len() && shown[i].0 == file && (forall|k: int|
            0 <= k < i ==> (#[trigger] shown[k]).0 != file) ==> first_shown(shown, file) == Some(
            shown[i].1,
        ),
    decreases shown.len(),
{
    if shown.len() > 0 {
        let rest = shown.drop_last();
        the_first_showing_of_a_file_counts(rest, file, i);
        assert forall|k: int| 0 <= k < rest.len() implies #[trigger] rest[k] == shown[k] by {}
        if first_shown(rest, file) is None {
            assert forall|k: int| 0 <= k < rest.len() implies (#[trigger] shown[k]).0 != file by {
                assert(rest[k].0 != file);
            }
        } else {
            let k = choose|k: int| 0 <= k < rest.len() && (#[trigger] rest[k]).0 == file;
            assert(shown[k].0 == file);
        }
        assert(shown.last() == shown[shown.len() - 1]);
    }
}

/// Nothing is left out of a file that could not be read or cannot be parsed.
pub proof fn unreadable_files_leave_nothing_out(text: Seq<char>, ranges: Seq<LineRange>)
    ensures
        lines_fit(None, ranges) ==> ranges.len() == 0,
        source_items(text) is None && lines_fit(Some(text), ranges) ==> ranges.len() == 0,
        source_items(text) is Some && lines_fit(Some(text), ranges) ==> gated_lines(text, ranges),
{
}

} // verus!
