//! Slash-separated file paths as rows of components.
//!
//! A path is what is left of its text once repeated separators and `.` segments are
//! dropped, so two spellings of one path are equal, and paths are ordered component by
//! component. A path is shown as it was spelled.

use crate::order::Ranked;
use crate::text::{
    chars_of, find_char, first_index_props, first_occurrence, first_occurrence_is,
    first_occurrence_props, join, joined, occurs_at, pieces, pieces_hold_no_separator,
    pieces_join_back, same_chars, same_text, slice_to_vec, split_text, string_of, texts,
};
use vstd::prelude::*;

verus! {

/// One component of a path, as contracts see it.
pub enum Part {
    /// The root, `/`.
    Root,
    /// A leading `.`.
    Cur,
    /// A `..`.
    Up,
    /// A name.
    Name(Seq<char>),
}

/// One component of a path.
#[derive(Debug, PartialEq, Eq, Hash)]
pub enum Component {
    /// The root, `/`.
    RootDir,
    /// A leading `.`.
    CurDir,
    /// A `..`.
    ParentDir,
    /// A name.
    Normal(String),
}

impl View for Component {
    type V = Part;

    open spec fn view(&self) -> Part {
        match self {
            Component::RootDir => Part::Root,
            Component::CurDir => Part::Cur,
            Component::ParentDir => Part::Up,
            Component::Normal(name) => Part::Name(name@),
        }
    }
}

/// The text that a path was read from. Two spellings of one path are to hash alike, so it
/// adds nothing to a hash.
#[derive(Debug)]
struct Spelling {
    text: String,
}

impl std::hash::Hash for Spelling {
    fn hash<H: std::hash::Hasher>(&self, _state: &mut H) {
    }
}

/// A path: its components in order, and the text that it was read from.
#[derive(Debug, Hash)]
pub struct PathBuf {
    components: Vec<Component>,
    spelled: Spelling,
}

/// What holds of the components of every path: the root and a `.` stand in front only,
/// and a name is neither empty nor a `.` or `..`, and holds no separator.
pub open spec fn well_formed(p: Seq<Part>) -> bool {
    forall|i: int|
        0 <= i < p.len() ==> match #[trigger] p[i] {
            Part::Root => i == 0,
            Part::Cur => i == 0,
            Part::Up => true,
            Part::Name(n) => n.len() > 0 && !n.contains('/') && n != seq!['.'] && n != seq![
                '.',
                '.',
            ],
        }
}

/// The components of a row, as contracts see them.
pub open spec fn parts(v: Seq<Component>) -> Seq<Part> {
    v.map_values(|c: Component| c@)
}

proof fn parts_push(v: Seq<Component>, c: Component)
    ensures
        parts(v.push(c)) == parts(v).push(c@),
{
    assert(parts(v.push(c)) =~= parts(v).push(c@));
}

impl View for PathBuf {
    type V = Seq<Part>;

    closed spec fn view(&self) -> Seq<Part> {
        parts(self.components@)
    }
}

/// What a segment between separators stands for. A `.` counts at the very front of a
/// relative path only.
pub open spec fn segment_part(seg: Seq<char>, lead: bool) -> Option<Part> {
    if seg.len() == 0 {
        None
    } else if seg == seq!['.'] {
        if lead {
            Some(Part::Cur)
        } else {
            None
        }
    } else if seg == seq!['.', '.'] {
        Some(Part::Up)
    } else {
        Some(Part::Name(seg))
    }
}

/// The components that a row of segments stands for.
pub open spec fn segment_parts(segs: Seq<Seq<char>>, lead: bool) -> Seq<Part>
    decreases segs.len(),
{
    if segs.len() == 0 {
        Seq::empty()
    } else {
        let rest = segment_parts(segs.drop_first(), false);
        match segment_part(segs[0], lead) {
            Some(p) => seq![p] + rest,
            None => rest,
        }
    }
}

/// The components of the path that a text spells.
pub open spec fn path_of(text: Seq<char>) -> Seq<Part> {
    let rest = segment_parts(pieces(text, seq!['/']), true);
    if text.len() > 0 && text[0] == '/' {
        seq![Part::Root] + rest
    } else {
        rest
    }
}

/// The text of one component.
pub open spec fn part_text(p: Part) -> Seq<char> {
    match p {
        Part::Root => seq!['/'],
        Part::Cur => seq!['.'],
        Part::Up => seq!['.', '.'],
        Part::Name(n) => n,
    }
}

/// The texts of a row of components.
pub open spec fn part_texts(p: Seq<Part>) -> Seq<Seq<char>> {
    p.map_values(|x: Part| part_text(x))
}

/// The text of a path.
pub open spec fn path_text(p: Seq<Part>) -> Seq<char> {
    if p.len() > 0 && p[0] is Root {
        seq!['/'] + joined(part_texts(p.drop_first()), seq!['/'])
    } else {
        joined(part_texts(p), seq!['/'])
    }
}

/// The extension of a file name: what stands behind its last dot, unless that dot is in
/// front.
pub open spec fn name_has_extension(name: Seq<char>, ext: Seq<char>) -> bool {
    exists|i: int|
        0 < i < name.len() && name[i] == '.' && #[trigger] name.skip(i + 1) == ext
            && !ext.contains('.')
}

/// Whether a path ends in a file name with the given extension.
pub open spec fn path_has_extension(p: Seq<Part>, ext: Seq<char>) -> bool {
    p.len() > 0 && match p.last() {
        Part::Name(n) => name_has_extension(n, ext),
        _ => false,
    }
}

// ---------------------------------------------------------------------------------------
// Order
// ---------------------------------------------------------------------------------------
/// Alphabetical order of texts by code point, which is the order of their UTF-8 bytes.
pub open spec fn text_before(a: Seq<char>, b: Seq<char>) -> bool
    decreases a.len(),
{
    if b.len() == 0 {
        false
    } else if a.len() == 0 {
        true
    } else if a[0] != b[0] {
        a[0] < b[0]
    } else {
        text_before(a.drop_first(), b.drop_first())
    }
}

/// The place of a kind of component in the order.
pub open spec fn part_rank(p: Part) -> int {
    match p {
        Part::Root => 0,
        Part::Cur => 1,
        Part::Up => 2,
        Part::Name(_) => 3,
    }
}

/// Order of components: by kind, names alphabetically.
pub open spec fn part_before(a: Part, b: Part) -> bool {
    match (a, b) {
        (Part::Name(x), Part::Name(y)) => text_before(x, y),
        _ => part_rank(a) < part_rank(b),
    }
}

/// Order of paths: component by component, a prefix first.
pub open spec fn path_before(a: Seq<Part>, b: Seq<Part>) -> bool
    decreases a.len(),
{
    if b.len() == 0 {
        false
    } else if a.len() == 0 {
        true
    } else if a[0] != b[0] {
        part_before(a[0], b[0])
    } else {
        path_before(a.drop_first(), b.drop_first())
    }
}

/// Text order is a strict total order.
pub proof fn text_order_laws(a: Seq<char>, b: Seq<char>, c: Seq<char>)
    ensures
        !text_before(a, a),
        text_before(a, b) ==> !text_before(b, a),
        text_before(a, b) || text_before(b, a) || a == b,
        text_before(a, b) && text_before(b, c) ==> text_before(a, c),
    decreases a.len() + b.len() + c.len(),
{
    if a.len() > 0 && b.len() > 0 && c.len() > 0 {
        text_order_laws(a.drop_first(), b.drop_first(), c.drop_first());
    } else if a.len() > 0 && b.len() > 0 {
        text_order_laws(a.drop_first(), b.drop_first(), c);
    } else if a.len() > 0 {
        text_order_laws(a.drop_first(), b, c);
    }
    if a.len() == 0 && b.len() == 0 {
        assert(a =~= b);
    }
    if a.len() > 0 && b.len() > 0 && a[0] == b[0] && a.drop_first() == b.drop_first() {
        assert(a =~= seq![a[0]] + a.drop_first());
        assert(b =~= seq![b[0]] + b.drop_first());
    }
}

/// Component order is a strict total order.
pub proof fn part_order_laws(a: Part, b: Part, c: Part)
    ensures
        !part_before(a, a),
        part_before(a, b) ==> !part_before(b, a),
        part_before(a, b) || part_before(b, a) || a == b,
        part_before(a, b) && part_before(b, c) ==> part_before(a, c),
{
    let x = match a {
        Part::Name(n) => n,
        _ => Seq::empty(),
    };
    let y = match b {
        Part::Name(n) => n,
        _ => Seq::empty(),
    };
    let z = match c {
        Part::Name(n) => n,
        _ => Seq::empty(),
    };
    text_order_laws(x, y, z);
}

/// Path order is a strict total order.
pub proof fn path_order_laws(a: Seq<Part>, b: Seq<Part>, c: Seq<Part>)
    ensures
        !path_before(a, a),
        path_before(a, b) ==> !path_before(b, a),
        path_before(a, b) || path_before(b, a) || a == b,
        path_before(a, b) && path_before(b, c) ==> path_before(a, c),
    decreases a.len() + b.len() + c.len(),
{
    if a.len() > 0 && b.len() > 0 && c.len() > 0 {
        path_order_laws(a.drop_first(), b.drop_first(), c.drop_first());
        part_order_laws(a[0], b[0], c[0]);
    } else if a.len() > 0 && b.len() > 0 {
        path_order_laws(a.drop_first(), b.drop_first(), c);
        part_order_laws(a[0], b[0], b[0]);
    } else if a.len() > 0 {
        path_order_laws(a.drop_first(), b, c);
        part_order_laws(a[0], a[0], a[0]);
    }
    if a.len() == 0 && b.len() == 0 {
        assert(a =~= b);
    }
    if a.len() > 0 && b.len() > 0 && a[0] == b[0] && a.drop_first() == b.drop_first() {
        assert(a =~= seq![a[0]] + a.drop_first());
        assert(b =~= seq![b[0]] + b.drop_first());
    }
}

/// Alphabetical comparison of two texts.
pub fn text_is_before(a: &str, b: &str) -> (r: bool)
    ensures
        r == text_before(a@, b@),
{
    let x = chars_of(a);
    let y = chars_of(b);
    let mut i: usize = 0;
    assert(x@.skip(0) =~= x@);
    assert(y@.skip(0) =~= y@);
    while i < x.len() && i < y.len()
        invariant
            i <= x@.len(),
            i <= y@.len(),
            x@ == a@,
            y@ == b@,
            text_before(x@, y@) == text_before(x@.skip(i as int), y@.skip(i as int)),
        decreases x@.len() - i,
    {
        proof {
            assert(x@.skip(i as int)[0] == x@[i as int]);
            assert(y@.skip(i as int)[0] == y@[i as int]);
            assert(x@.skip(i as int).drop_first() =~= x@.skip(i + 1));
            assert(y@.skip(i as int).drop_first() =~= y@.skip(i + 1));
        }
        if x[i] != y[i] {
            return x[i] < y[i];
        }
        i = i + 1;
    }
    i < y.len()
}

impl Component {
    /// A copy of the component.
    pub fn copy(&self) -> (r: Component)
        ensures
            r@ == self@,
    {
        match self {
            Component::RootDir => Component::RootDir,
            Component::CurDir => Component::CurDir,
            Component::ParentDir => Component::ParentDir,
            Component::Normal(name) => Component::Normal(name.clone()),
        }
    }

    /// Whether two components are the same.
    pub fn same(&self, other: &Component) -> (r: bool)
        ensures
            r == (self@ == other@),
    {
        match (self, other) {
            (Component::RootDir, Component::RootDir) => true,
            (Component::CurDir, Component::CurDir) => true,
            (Component::ParentDir, Component::ParentDir) => true,
            (Component::Normal(a), Component::Normal(b)) => same_text(a.as_str(), b.as_str()),
            _ => false,
        }
    }

    fn rank(&self) -> (r: u8)
        ensures
            r == part_rank(self@),
    {
        match self {
            Component::RootDir => 0,
            Component::CurDir => 1,
            Component::ParentDir => 2,
            Component::Normal(_) => 3,
        }
    }

    /// Whether this component is ordered before another.
    pub fn is_before(&self, other: &Component) -> (r: bool)
        ensures
            r == part_before(self@, other@),
    {
        match (self, other) {
            (Component::Normal(a), Component::Normal(b)) => text_is_before(a.as_str(), b.as_str()),
            _ => self.rank() < other.rank(),
        }
    }

    /// The text of the component.
    pub fn text(&self) -> (r: String)
        ensures
            r@ == part_text(self@),
    {
        proof {
            reveal_strlit("/");
            reveal_strlit(".");
            reveal_strlit("..");
        }
        match self {
            Component::RootDir => {
                assert("/"@ =~= seq!['/']);
                "/".to_owned()
            },
            Component::CurDir => {
                assert("."@ =~= seq!['.']);
                ".".to_owned()
            },
            Component::ParentDir => {
                assert(".."@ =~= seq!['.', '.']);
                "..".to_owned()
            },
            Component::Normal(name) => name.clone(),
        }
    }
}

/// The text of a component row has no separator in it, and is not empty.
proof fn part_text_plain(p: Part)
    requires
        !(p is Root),
        p matches Part::Name(n) ==> n.len() > 0 && !n.contains('/'),
    ensures
        part_text(p).len() > 0,
        !part_text(p).contains('/'),
{
}

/// Taking a text apart at the separators that joined it gives the joined texts.
pub proof fn pieces_of_joined(parts: Seq<Seq<char>>, sep: char)
    requires
        parts.len() > 0,
        forall|i: int| 0 <= i < parts.len() ==> !(#[trigger] parts[i]).contains(sep),
    ensures
        pieces(joined(parts, seq![sep]), seq![sep]) == parts,
    decreases parts.len(),
{
    let s = joined(parts, seq![sep]);
    let pat = seq![sep];
    first_occurrence_props(s, pat);
    if parts.len() == 1 {
        assert(s == parts[0]);
        if let Some(k) = first_occurrence(s, pat) {
            assert(s.subrange(k, k + 1)[0] == sep);
            assert(s[k] == sep);
            assert(s.contains(sep));
        }
        assert(pieces(s, pat) =~= parts);
    } else {
        joined_front(parts, seq![sep]);
        let head = parts[0];
        let rest = joined(parts.drop_first(), seq![sep]);
        assert(s =~= head + pat + rest);
        let k = head.len() as int;
        assert(s.subrange(k, k + 1) =~= pat);
        assert(occurs_at(s, pat, k));
        assert forall|i: int| 0 <= i < k implies !occurs_at(s, pat, i) by {
            if occurs_at(s, pat, i) {
                assert(s.subrange(i, i + 1)[0] == sep);
                assert(s[i] == head[i]);
                assert(head.contains(sep));
            }
        }
        first_occurrence_is(s, pat, k);
        assert(s.take(k) =~= head);
        assert(s.skip(k + 1) =~= rest);
        let tail = parts.drop_first();
        assert forall|i: int| 0 <= i < tail.len() implies !(#[trigger] tail[i]).contains(sep) by {
            assert(tail[i] == parts[i + 1]);
        }
        pieces_of_joined(tail, sep);
        assert(pieces(s, pat) =~= parts);
    }
}

/// Joining from the front.
pub proof fn joined_front(parts: Seq<Seq<char>>, sep: Seq<char>)
    requires
        parts.len() > 1,
    ensures
        joined(parts, sep) == parts[0] + sep + joined(parts.drop_first(), sep),
    decreases parts.len(),
{
    if parts.len() == 2 {
        assert(joined(parts.drop_last(), sep) == parts[0]);
        assert(joined(parts.drop_first(), sep) == parts[1]);
    } else {
        joined_front(parts.drop_last(), sep);
        assert(parts.drop_last().drop_first() =~= parts.drop_first().drop_last());
        assert(joined(parts, sep) =~= parts[0] + sep + (joined(
            parts.drop_first().drop_last(),
            sep,
        ) + sep + parts.last()));
    }
}

/// Segments that spell components spell them back.
proof fn segment_parts_of_texts(p: Seq<Part>, lead: bool)
    requires
        well_formed(p),
        p.len() > 0 ==> !(p[0] is Root),
        p.len() > 0 && !lead ==> !(p[0] is Cur),
    ensures
        segment_parts(part_texts(p), lead) == p,
    decreases p.len(),
{
    if p.len() > 0 {
        let rest = p.drop_first();
        assert forall|i: int| 0 <= i < rest.len() implies #[trigger] rest[i] == p[i + 1] by {}
        assert(well_formed(rest));
        if rest.len() > 0 {
            assert(rest[0] == p[1]);
        }
        segment_parts_of_texts(rest, false);
        assert(part_texts(p).drop_first() =~= part_texts(rest));
        let seg = part_text(p[0]);
        assert(part_texts(p)[0] == seg);
        assert(seq!['.', '.'].len() == 2);
        assert(seq!['.'].len() == 1);
        assert(segment_part(seg, lead) == Some(p[0]));
        assert(seq![p[0]] + rest =~= p);
    } else {
        assert(part_texts(p) =~= Seq::<Seq<char>>::empty());
        assert(segment_parts(part_texts(p), lead) =~= p);
    }
}

/// The text of a path spells that path.
pub proof fn path_text_reads_back(p: Seq<Part>)
    requires
        well_formed(p),
    ensures
        path_of(path_text(p)) == p,
{
    let sep = seq!['/'];
    let body = if p.len() > 0 && p[0] is Root {
        p.drop_first()
    } else {
        p
    };
    assert forall|i: int| 0 <= i < body.len() implies match #[trigger] body[i] {
        Part::Root => false,
        Part::Cur => i == 0 && body == p,
        Part::Up => true,
        Part::Name(n) => n.len() > 0 && !n.contains('/') && n != seq!['.'] && n != seq!['.', '.'],
    } by {
        if p.len() > 0 && p[0] is Root {
            assert(body[i] == p[i + 1]);
        } else {
            assert(body[i] == p[i]);
        }
    }
    assert(well_formed(body));
    let names = part_texts(body);
    let text = joined(names, sep);
    assert forall|i: int| 0 <= i < names.len() implies !(#[trigger] names[i]).contains('/')
        && names[i].len() > 0 by {
        part_text_plain(body[i]);
    }
    if body.len() == 0 {
        assert(text =~= Seq::<char>::empty());
        first_occurrence_props(text, sep);
        assert(pieces(text, sep) =~= seq![text]);
        assert(segment_parts(seq![text], true) =~= Seq::<Part>::empty()) by {
            assert(segment_parts(seq![text].drop_first(), false) =~= Seq::<Part>::empty());
        }
        if p.len() > 0 {
            let t = sep + text;
            assert(t =~= sep);
            assert(t.subrange(0, 1) =~= sep);
            assert(occurs_at(t, sep, 0));
            first_occurrence_is(t, sep, 0);
            assert(t.take(0) =~= text);
            assert(t.skip(1) =~= text);
            assert(pieces(t, sep) =~= seq![text, text]);
            let two = seq![text, text];
            assert(two.drop_first() =~= seq![text]);
            assert(segment_parts(seq![text], false) =~= Seq::<Part>::empty()) by {
                assert(segment_parts(seq![text].drop_first(), false) =~= Seq::<Part>::empty());
            }
            assert(segment_parts(two, true) =~= Seq::<Part>::empty());
            assert(path_of(t) =~= p);
        } else {
            assert(path_of(text) =~= p);
        }
    } else {
        pieces_of_joined(names, '/');
        joined_starts(names, sep);
        assert(text[0] == names[0][0]);
        assert(names[0].contains(names[0][0]));
        if p.len() > 0 && p[0] is Root {
            let t = sep + text;
            assert(t.subrange(0, 1) =~= sep);
            assert(occurs_at(t, sep, 0));
            first_occurrence_is(t, sep, 0);
            let e = Seq::<char>::empty();
            assert(t.take(0) =~= e);
            assert(t.skip(1) =~= text);
            assert(pieces(t, sep) =~= seq![e] + names);
            assert((seq![e] + names).drop_first() =~= names);
            segment_parts_of_texts(body, false);
            assert(segment_parts(seq![e] + names, true) == body);
            assert(path_of(t) =~= p);
        } else {
            segment_parts_of_texts(body, true);
            assert(path_of(text) =~= p);
        }
    }
}

/// A joined text begins with the first text.
proof fn joined_starts(parts: Seq<Seq<char>>, sep: Seq<char>)
    requires
        parts.len() > 0,
        parts[0].len() > 0,
    ensures
        joined(parts, sep).len() > 0,
        joined(parts, sep)[0] == parts[0][0],
{
    if parts.len() > 1 {
        joined_front(parts, sep);
    }
}

proof fn segments_well_formed(segs: Seq<Seq<char>>, lead: bool)
    requires
        forall|i: int| 0 <= i < segs.len() ==> !(#[trigger] segs[i]).contains('/'),
    ensures
        well_formed(segment_parts(segs, lead)),
        !lead ==> forall|i: int|
            0 <= i < segment_parts(segs, lead).len() ==> !(#[trigger] segment_parts(
                segs,
                lead,
            )[i] is Cur),
        forall|i: int|
            0 <= i < segment_parts(segs, lead).len() ==> !(#[trigger] segment_parts(
                segs,
                lead,
            )[i] is Root),
    decreases segs.len(),
{
    if segs.len() > 0 {
        let tail = segs.drop_first();
        assert forall|i: int| 0 <= i < tail.len() implies !(#[trigger] tail[i]).contains('/') by {
            assert(tail[i] == segs[i + 1]);
        }
        segments_well_formed(tail, false);
        let rest = segment_parts(tail, false);
        if let Some(p) = segment_part(segs[0], lead) {
            let all = seq![p] + rest;
            assert(segment_parts(segs, lead) == all);
            assert forall|i: int| 0 < i < all.len() implies #[trigger] all[i] == rest[i - 1] by {}
            assert(all[0] == p);
        }
    }
}

proof fn pieces_plain(s: Seq<char>, sep: char)
    ensures
        forall|i: int|
            0 <= i < pieces(s, seq![sep]).len() ==> !(#[trigger] pieces(s, seq![sep])[i]).contains(
                sep,
            ),
    decreases s.len(),
{
    let pat = seq![sep];
    first_occurrence_props(s, pat);
    match first_occurrence(s, pat) {
        None => {
            if s.contains(sep) {
                let i = choose|i: int| 0 <= i < s.len() && s[i] == sep;
                assert(s.subrange(i, i + 1) =~= pat);
                assert(occurs_at(s, pat, i));
            }
        },
        Some(k) => {
            pieces_plain(s.skip(k + 1), sep);
            let head = s.take(k);
            if head.contains(sep) {
                let i = choose|i: int| 0 <= i < head.len() && head[i] == sep;
                assert(s.subrange(i, i + 1) =~= pat);
                assert(occurs_at(s, pat, i));
            }
            let rest = pieces(s.skip(k + 1), pat);
            assert(pieces(s, pat) == seq![head] + rest);
            assert forall|i: int| 0 <= i < pieces(s, pat).len() implies !(#[trigger] pieces(
                s,
                pat,
            )[i]).contains(sep) by {
                if i > 0 {
                    assert(pieces(s, pat)[i] == rest[i - 1]);
                }
            }
        },
    }
}

/// Every text spells a well-formed path.
pub proof fn path_of_is_well_formed(text: Seq<char>)
    ensures
        well_formed(path_of(text)),
{
    pieces_plain(text, '/');
    let segs = pieces(text, seq!['/']);
    segments_well_formed(segs, true);
    if text.len() > 0 && text[0] == '/' {
        first_occurrence_props(text, seq!['/']);
        assert(text.subrange(0, 1) =~= seq!['/']);
        assert(occurs_at(text, seq!['/'], 0));
        first_occurrence_is(text, seq!['/'], 0);
        assert(segs[0] =~= Seq::<char>::empty());
        let tail = segs.drop_first();
        assert forall|i: int| 0 <= i < tail.len() implies !(#[trigger] tail[i]).contains('/') by {
            assert(tail[i] == segs[i + 1]);
        }
        segments_well_formed(tail, false);
        let rest = segment_parts(segs, true);
        assert(rest == segment_parts(tail, false));
        let all = seq![Part::Root] + rest;
        assert(path_of(text) == all);
        assert forall|i: int| 0 < i < all.len() implies #[trigger] all[i] == rest[i - 1] by {}
    }
}

/// The texts of the last components of a row.
fn texts_from(components: &Vec<Component>, from: usize) -> (r: Vec<String>)
    requires
        from <= components@.len(),
    ensures
        texts(r@) == part_texts(parts(components@).skip(from as int)),
{
    let ghost all = parts(components@);
    let mut out: Vec<String> = Vec::new();
    let mut i: usize = from;
    while i < components.len()
        invariant
            from <= i <= components@.len(),
            all == parts(components@),
            texts(out@) == part_texts(all.subrange(from as int, i as int)),
        decreases components.len() - i,
    {
        let ghost before = out@;
        let ghost done = all.subrange(from as int, i as int);
        out.push(components[i].text());
        proof {
            assert(all.subrange(from as int, i + 1) =~= done.push(all[i as int]));
            assert(part_texts(done.push(all[i as int])) =~= part_texts(done).push(
                part_text(all[i as int]),
            ));
            assert(texts(out@) =~= texts(before).push(part_text(all[i as int])));
        }
        i = i + 1;
    }
    assert(all.subrange(from as int, i as int) =~= all.skip(from as int));
    out
}

/// The text of a row of components.
fn text_of(components: &Vec<Component>) -> (r: String)
    ensures
        r@ == path_text(parts(components@)),
{
    let ghost all = parts(components@);
    proof {
        reveal_strlit("/");
        assert("/"@ =~= seq!['/']);
    }
    let rooted = components.len() > 0 && matches!(components[0], Component::RootDir);
    if rooted {
        let mut out = "/".to_owned();
        let rest = join(&texts_from(components, 1), "/");
        assert(all.skip(1) =~= all.drop_first());
        out.append(rest.as_str());
        out
    } else {
        assert(all.skip(0) =~= all);
        join(&texts_from(components, 0), "/")
    }
}

impl Clone for PathBuf {
    fn clone(&self) -> (r: Self)
        ensures
            r@ == self@,
            r.spelling() == self.spelling(),
    {
        proof {
            use_type_invariant(self);
        }
        let components = self.components_from(0);
        assert(self@.skip(0) =~= self@);
        PathBuf { components, spelled: Spelling { text: self.spelled.text.clone() } }
    }
}

impl PartialEq for PathBuf {
    fn eq(&self, other: &Self) -> (r: bool) {
        self.same(other)
    }
}

impl vstd::std_specs::cmp::PartialEqSpecImpl for PathBuf {
    open spec fn obeys_eq_spec() -> bool {
        true
    }

    open spec fn eq_spec(&self, other: &Self) -> bool {
        self@ == other@
    }
}

impl Eq for PathBuf {

}

/// The texts that paths were read from.
pub open spec fn spellings(v: Seq<PathBuf>) -> Seq<Seq<char>> {
    v.map_values(|p: PathBuf| p.spelling())
}

impl PathBuf {
    #[verifier::type_invariant]
    spec fn inv(self) -> bool {
        well_formed(self@) && path_of(self.spelled.text@) == self@
    }

    /// The text that the path was read from.
    pub closed spec fn spelling(&self) -> Seq<char> {
        self.spelled.text@
    }

    /// The path that a text spells.
    pub fn parse(text: &str) -> (r: PathBuf)
        ensures
            r@ == path_of(text@),
            r.spelling() == text@,
    {
        proof {
            reveal_strlit("/");
            assert("/"@ =~= seq!['/']);
        }
        let chars = chars_of(text);
        let segs = split_text(&chars, "/");
        let ghost rows = pieces(text@, seq!['/']);
        let mut components: Vec<Component> = Vec::new();
        if chars.len() > 0 && chars[0] == '/' {
            components.push(Component::RootDir);
        }
        let ghost start = parts(components@);
        let mut i: usize = 0;
        assert(rows.skip(0) =~= rows);
        assert(start + segment_parts(rows, true) =~= path_of(text@));
        while i < segs.len()
            invariant
                i <= segs.len(),
                segs@.len() == rows.len(),
                forall|k: int| 0 <= k < rows.len() ==> (#[trigger] segs@[k])@ == rows[k],
                parts(components@) + segment_parts(
                    rows.skip(i as int),
                    i == 0,
                ) == path_of(text@),
            decreases segs.len() - i,
        {
            let seg = &segs[i];
            let ghost before = parts(components@);
            let ghost rest = rows.skip(i as int);
            assert(rest[0] == seg@);
            assert(rest.drop_first() =~= rows.skip(i + 1));
            assert(seq!['.', '.'].len() == 2);
            let dot = seg.len() == 1 && seg[0] == '.';
            let dots = seg.len() == 2 && seg[0] == '.' && seg[1] == '.';
            proof {
                if dot {
                    assert(seg@ =~= seq!['.']);
                }
                if dots {
                    assert(seg@ =~= seq!['.', '.']);
                }
            }
            if seg.len() == 0 {
            } else if dot {
                if i == 0 {
                    components.push(Component::CurDir);
                    assert(parts(components@) =~= before + seq![Part::Cur]);
                }
            } else if dots {
                components.push(Component::ParentDir);
                assert(parts(components@) =~= before + seq![Part::Up]);
            } else {
                components.push(Component::Normal(string_of(seg)));
                assert(parts(components@) =~= before + seq![
                    Part::Name(seg@),
                ]);
            }
            proof {
                let now = parts(components@);
                assert(now + segment_parts(rows.skip(i + 1), false) =~= before + segment_parts(
                    rest,
                    i == 0,
                ));
            }
            i = i + 1;
        }
        proof {
            path_of_is_well_formed(text@);
            assert(segment_parts(rows.skip(rows.len() as int), i == 0) =~= Seq::<Part>::empty());
            assert(parts(components@) =~= path_of(text@));
        }
        PathBuf { components, spelled: Spelling { text: text.to_owned() } }
    }

    /// The path as it was spelled.
    pub fn display(&self) -> (r: String)
        ensures
            r@ == self.spelling(),
            path_of(r@) == self@,
    {
        proof {
            use_type_invariant(self);
        }
        self.spelled.text.clone()
    }

    /// The text of the components of the path.
    pub fn text(&self) -> (r: String)
        ensures
            r@ == path_text(self@),
    {
        text_of(&self.components)
    }

    /// Number of components.
    pub fn len(&self) -> (r: usize)
        ensures
            r == self@.len(),
    {
        self.components.len()
    }

    /// The component at a place.
    pub fn component(&self, i: usize) -> (r: &Component)
        requires
            i < self@.len(),
        ensures
            r@ == self@[i as int],
    {
        &self.components[i]
    }

    /// The last components of the path.
    fn components_from(&self, n: usize) -> (r: Vec<Component>)
        requires
            n <= self@.len(),
        ensures
            parts(r@) == self@.skip(n as int),
    {
        let mut components: Vec<Component> = Vec::new();
        let mut i: usize = n;
        while i < self.components.len()
            invariant
                n <= i <= self.components@.len(),
                parts(components@) == self@.subrange(n as int, i as int),
            decreases self.components.len() - i,
        {
            let c = self.components[i].copy();
            proof {
                parts_push(components@, c);
                assert(self@.subrange(n as int, i + 1) =~= self@.subrange(
                    n as int,
                    i as int,
                ).push(self@[i as int]));
            }
            components.push(c);
            i = i + 1;
        }
        assert(self@.subrange(n as int, i as int) =~= self@.skip(n as int));
        components
    }

    /// Whether two paths are the same.
    pub fn same(&self, other: &PathBuf) -> (r: bool)
        ensures
            r == (self@ == other@),
    {
        if self.components.len() != other.components.len() {
            return false;
        }
        let r = self.starts_with(other);
        assert(self@.take(other@.len() as int) =~= self@);
        r
    }

    /// Whether the components of `base` are the first of this path.
    pub fn starts_with(&self, base: &PathBuf) -> (r: bool)
        ensures
            r == base@.is_prefix_of(self@),
    {
        if base.components.len() > self.components.len() {
            return false;
        }
        let mut i: usize = 0;
        while i < base.components.len()
            invariant
                i <= base.components@.len() <= self.components@.len(),
                forall|k: int| 0 <= k < i ==> self@[k] == #[trigger] base@[k],
            decreases base.components.len() - i,
        {
            if !self.components[i].same(&base.components[i]) {
                assert(self@[i as int] != base@[i as int]);
                return false;
            }
            i = i + 1;
        }
        assert(base@ =~= self@.subrange(0, base@.len() as int));
        true
    }

    /// What is left of this path behind `base`, if it begins with it.
    pub fn strip_prefix(&self, base: &PathBuf) -> (r: Option<PathBuf>)
        ensures
            r is Some <==> base@.is_prefix_of(self@),
            r matches Some(p) ==> p@ == self@.skip(base@.len() as int) && p.spelling() == path_text(
                p@,
            ),
    {
        if !self.starts_with(base) {
            return None;
        }
        proof {
            use_type_invariant(self);
        }
        let n = base.components.len();
        let components = self.components_from(n);
        let spelled = text_of(&components);
        proof {
            let rest = self@.skip(n as int);
            assert forall|k: int| 0 <= k < rest.len() implies #[trigger] rest[k] == self@[k + n] by {}
            assert(well_formed(rest));
            path_text_reads_back(rest);
        }
        Some(PathBuf { components, spelled: Spelling { text: spelled } })
    }

    /// Whether this path is ordered before another.
    pub fn comes_before(&self, other: &PathBuf) -> (r: bool)
        ensures
            r == path_before(self@, other@),
    {
        let x = &self.components;
        let y = &other.components;
        let mut i: usize = 0;
        assert(self@.skip(0) =~= self@);
        assert(other@.skip(0) =~= other@);
        while i < x.len() && i < y.len()
            invariant
                i <= x@.len() == self@.len(),
                i <= y@.len() == other@.len(),
                x == self.components,
                y == other.components,
                path_before(self@, other@) == path_before(
                    self@.skip(i as int),
                    other@.skip(i as int),
                ),
            decreases x@.len() - i,
        {
            proof {
                assert(self@.skip(i as int)[0] == x@[i as int]@);
                assert(other@.skip(i as int)[0] == y@[i as int]@);
                assert(self@.skip(i as int).drop_first() =~= self@.skip(i + 1));
                assert(other@.skip(i as int).drop_first() =~= other@.skip(i + 1));
            }
            if !x[i].same(&y[i]) {
                return x[i].is_before(&y[i]);
            }
            i = i + 1;
        }
        i < y.len()
    }

    /// Whether the path ends in a file name with the given extension.
    pub fn has_extension(&self, ext: &str) -> (r: bool)
        ensures
            r == path_has_extension(self@, ext@),
    {
        let n = self.components.len();
        if n == 0 {
            return false;
        }
        assert(self@.last() == self.components@[n - 1]@);
        match &self.components[n - 1] {
            Component::Normal(name) => has_extension_text(name.as_str(), ext),
            _ => false,
        }
    }
}

impl Ranked for PathBuf {
    open spec fn precedes(a: Seq<Part>, b: Seq<Part>) -> bool {
        path_before(a, b)
    }

    proof fn precedes_laws(a: Seq<Part>, b: Seq<Part>, c: Seq<Part>) {
        path_order_laws(a, b, c);
    }

    fn is_before(&self, other: &Self) -> (r: bool) {
        self.comes_before(other)
    }
}

/// Whether a file name has the given extension.
fn has_extension_text(name: &str, ext: &str) -> (r: bool)
    ensures
        r == name_has_extension(name@, ext@),
{
    let s = chars_of(name);
    let e = chars_of(ext);
    let at = find_char(&e, 0, '.');
    proof {
        assert(e@.skip(0) =~= e@);
        first_index_props(e@, '.');
    }
    if at < e.len() {
        proof {
            assert(e@[at as int] == '.');
            assert(e@.contains('.'));
        }
        return false;
    }
    assert(!e@.contains('.'));
    if s.len() <= e.len() || s.len() - e.len() < 2 {
        proof {
            assert forall|i: int| 0 < i < s@.len() && s@[i] == '.' implies #[trigger] s@.skip(i + 1)
                != e@ by {
                assert(s@.skip(i + 1).len() == s@.len() - i - 1);
            }
        }
        return false;
    }
    let dot = s.len() - e.len() - 1;
    let tail = slice_to_vec(&s[dot + 1..s.len()]);
    assert(tail@ =~= s@.skip(dot + 1));
    let r = s[dot] == '.' && same_chars(&tail, &e);
    proof {
        assert forall|i: int| 0 < i < s@.len() && #[trigger] s@.skip(i + 1) == e@ implies i
            == dot by {
            assert(s@.skip(i + 1).len() == s@.len() - i - 1);
        }
    }
    r
}

/// Texts are ordered by the first character in which they differ, and a text comes before
/// those that it begins.
pub proof fn texts_are_ordered_by_their_first_difference(
    p: Seq<char>,
    x: char,
    y: char,
    a: Seq<char>,
    b: Seq<char>,
)
    ensures
        x != y ==> (text_before(p + seq![x] + a, p + seq![y] + b) <==> x < y),
        text_before(p, p + b) <==> b.len() > 0,
        !text_before(p + b, p),
    decreases p.len(),
{
    let s = p + seq![x] + a;
    let t = p + seq![y] + b;
    if p.len() > 0 {
        let rest = p.drop_first();
        texts_are_ordered_by_their_first_difference(rest, x, y, a, b);
        assert(s.drop_first() =~= rest + seq![x] + a);
        assert(t.drop_first() =~= rest + seq![y] + b);
        assert((p + b).drop_first() =~= rest + b);
        assert(s[0] == p[0] && t[0] == p[0] && (p + b)[0] == p[0]);
    } else {
        assert(s[0] == x && t[0] == y);
        assert(p + b =~= b);
    }
}

/// Paths are ordered by the first component in which they differ: the root, then a `.`, then a
/// `..`, then names in the order of texts. A path comes before those that it begins.
pub proof fn paths_are_ordered_by_their_first_difference(
    p: Seq<Part>,
    x: Part,
    y: Part,
    a: Seq<Part>,
    b: Seq<Part>,
)
    ensures
        x != y ==> (path_before(p + seq![x] + a, p + seq![y] + b) <==> match (x, y) {
            (Part::Name(m), Part::Name(n)) => text_before(m, n),
            (Part::Root, _) => true,
            (Part::Cur, Part::Up) => true,
            (Part::Cur, Part::Name(_)) => true,
            (Part::Up, Part::Name(_)) => true,
            _ => false,
        }),
        path_before(p, p + b) <==> b.len() > 0,
        !path_before(p + b, p),
    decreases p.len(),
{
    let s = p + seq![x] + a;
    let t = p + seq![y] + b;
    if p.len() > 0 {
        let rest = p.drop_first();
        paths_are_ordered_by_their_first_difference(rest, x, y, a, b);
        assert(s.drop_first() =~= rest + seq![x] + a);
        assert(t.drop_first() =~= rest + seq![y] + b);
        assert((p + b).drop_first() =~= rest + b);
        assert(s[0] == p[0] && t[0] == p[0] && (p + b)[0] == p[0]);
    } else {
        assert(s[0] == x && t[0] == y);
        assert(p + b =~= b);
    }
}

/// A name has an extension exactly where it is a stem that is not empty, a dot and the
/// extension, which holds no dot.
pub proof fn an_extension_stands_behind_the_last_dot(name: Seq<char>, ext: Seq<char>)
    ensures
        name_has_extension(name, ext) <==> !ext.contains('.') && exists|stem: Seq<char>|
            stem.len() > 0 && name == #[trigger] (stem + seq!['.']) + ext,
{
    if name_has_extension(name, ext) {
        let i = choose|i: int|
            0 < i < name.len() && name[i] == '.' && #[trigger] name.skip(i + 1) == ext
                && !ext.contains('.');
        let stem = name.take(i);
        assert(name =~= (stem + seq!['.']) + ext);
    }
    if !ext.contains('.') && exists|stem: Seq<char>|
        stem.len() > 0 && name == #[trigger] (stem + seq!['.']) + ext {
        let stem = choose|stem: Seq<char>|
            stem.len() > 0 && name == #[trigger] (stem + seq!['.']) + ext;
        let i = stem.len() as int;
        assert(name[i] == '.');
        assert(name.skip(i + 1) =~= ext);
    }
}

/// The extension of a path is that of its last component, which has to be a name.
pub proof fn the_last_component_has_the_extension(p: Seq<Part>, x: Part, ext: Seq<char>)
    ensures
        path_has_extension(p.push(x), ext) <==> x is Name && name_has_extension(x->Name_0, ext),
        !path_has_extension(Seq::empty(), ext),
{
    assert(p.push(x).last() == x);
}

/// The text of a path is that of what stands before its last component, a separator, and the
/// text of that component.
pub proof fn components_are_separated_by_slashes(p: Seq<Part>, x: Part)
    requires
        !(x is Root),
    ensures
        p.len() > 0 && !(p.len() == 1 && p[0] is Root) ==> path_text(p.push(x)) == path_text(p)
            + seq!['/'] + path_text(seq![x]),
        path_text(seq![Part::Root, x]) == seq!['/'] + path_text(seq![x]),
        path_text(seq![Part::Root]) == seq!['/'],
        path_text(Seq::empty()) == Seq::<char>::empty(),
        path_text(seq![x]) == match x {
            Part::Root => seq!['/'],
            Part::Cur => seq!['.'],
            Part::Up => seq!['.', '.'],
            Part::Name(n) => n,
        },
{
    let sep = seq!['/'];
    assert(part_texts(seq![x]) =~= seq![part_text(x)]);
    assert(seq![Part::Root, x].drop_first() =~= seq![x]);
    assert(seq![Part::Root].drop_first() =~= Seq::<Part>::empty());
    assert(part_texts(Seq::<Part>::empty()) =~= Seq::<Seq<char>>::empty());
    assert(path_text(seq![Part::Root]) =~= seq!['/']);
    if p.len() > 0 && !(p.len() == 1 && p[0] is Root) {
        let body = if p[0] is Root {
            p.drop_first()
        } else {
            p
        };
        let more = if p[0] is Root {
            p.push(x).drop_first()
        } else {
            p.push(x)
        };
        assert(p.push(x)[0] == p[0]);
        assert(more =~= body.push(x));
        assert(part_texts(more) =~= part_texts(body).push(part_text(x)));
        assert(part_texts(more).drop_last() =~= part_texts(body));
        assert(path_text(p.push(x)) =~= path_text(p) + sep + path_text(seq![x]));
    }
}

/// Segments read one after the other give their components one after the other.
proof fn segments_read_in_order(segs: Seq<Seq<char>>, seg: Seq<char>, lead: bool)
    requires
        segs.len() > 0,
    ensures
        segment_parts(segs.push(seg), lead) == segment_parts(segs, lead) + match segment_part(
            seg,
            false,
        ) {
            Some(p) => seq![p],
            None => Seq::empty(),
        },
    decreases segs.len(),
{
    let more = segs.push(seg);
    assert(more.drop_first() =~= segs.drop_first().push(seg));
    let rest = segs.drop_first();
    let tail = match segment_part(seg, false) {
        Some(p) => seq![p],
        None => Seq::empty(),
    };
    if segs.len() == 1 {
        assert(rest =~= Seq::<Seq<char>>::empty());
        let one = rest.push(seg);
        assert(one.drop_first() =~= Seq::<Seq<char>>::empty());
        assert(segment_parts(one.drop_first(), false) == Seq::<Part>::empty());
        assert(segment_parts(one, false) =~= tail);
        assert(segment_parts(rest, false) == Seq::<Part>::empty());
    } else {
        segments_read_in_order(rest, seg, false);
    }
    assert(segment_parts(more, lead) =~= segment_parts(segs, lead) + tail);
}

/// How texts are read as paths. What stands behind the last separator is one component more:
/// none where it is empty or a `.`, the way up where it is a `..`, and else a name. A separator
/// at the very front is the root, and a `.` counts where it stands at the very front.
pub proof fn paths_are_read_segment_by_segment(front: Seq<char>, seg: Seq<char>)
    requires
        !seg.contains('/'),
    ensures
        path_of(front + seq!['/'] + seg) == (if front.len() == 0 {
            seq![Part::Root]
        } else {
            path_of(front)
        }) + (if seg.len() == 0 || seg == seq!['.'] {
            Seq::<Part>::empty()
        } else if seg == seq!['.', '.'] {
            seq![Part::Up]
        } else {
            seq![Part::Name(seg)]
        }),
        path_of(seg) == (if seg.len() == 0 {
            Seq::<Part>::empty()
        } else if seg == seq!['.'] {
            seq![Part::Cur]
        } else if seg == seq!['.', '.'] {
            seq![Part::Up]
        } else {
            seq![Part::Name(seg)]
        }),
{
    let sep = seq!['/'];
    let one = seq![seg];
    pieces_of_joined(one, '/');
    assert(one.drop_first() =~= Seq::<Seq<char>>::empty());
    assert(segment_parts(one.drop_first(), false) == Seq::<Part>::empty());
    assert(pieces(seg, sep) == one);
    if seg.len() > 0 && seg[0] == '/' {
        assert(seg.contains('/'));
    }
    let segs = pieces(front, sep);
    pieces_join_back(front, sep);
    let more = segs.push(seg);
    assert forall|i: int| 0 <= i < more.len() implies !(#[trigger] more[i]).contains('/') by {
        if i < segs.len() {
            pieces_hold_no_separator(front, '/', i);
            assert(more[i] == segs[i]);
        }
    }
    assert(more.drop_last() =~= segs);
    assert(joined(more, sep) =~= front + sep + seg);
    pieces_of_joined(more, '/');
    segments_read_in_order(segs, seg, true);
    let text = front + sep + seg;
    if front.len() == 0 {
        let none = seq![Seq::<char>::empty()];
        pieces_of_joined(none, '/');
        assert(front =~= none[0]);
        assert(segs == none);
        assert(none.drop_first() =~= Seq::<Seq<char>>::empty());
        assert(segment_parts(none.drop_first(), false) == Seq::<Part>::empty());
        assert(segment_parts(segs, true) =~= Seq::<Part>::empty());
        assert(text[0] == '/');
    } else {
        assert(text[0] == front[0]);
    }
    let tail = match segment_part(seg, false) {
        Some(p) => seq![p],
        None => Seq::empty(),
    };
    assert(path_of(text) =~= (if front.len() == 0 {
        seq![Part::Root]
    } else {
        path_of(front)
    }) + tail);
}

} // verus!
