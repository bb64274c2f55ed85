//! Map changed line numbers to the **innermost** enclosing [`DocumentSymbol`].
//!
//! When a parent symbol and one of its children both contain the line the child is
//! preferred, so that a traversal starts from the function body that was edited rather
//! than from the surrounding `impl` block.

use crate::types::{DocumentSymbol, Position, Range};
use vstd::prelude::*;

verus! {

/// A symbol that a line belongs to: its name and where the name stands.
#[derive(Debug, Clone, PartialEq, Eq)]
pub struct SymbolHit {
    pub name: String,
    pub position: Position,
}

/// A hit, as contracts see it.
pub struct Hit {
    pub name: Seq<char>,
    pub position: Position,
}

impl View for SymbolHit {
    type V = Hit;

    open spec fn view(&self) -> Hit {
        Hit { name: self.name@, position: self.position }
    }
}

/// The hits of a row, as contracts see them.
pub open spec fn hits_view(v: Seq<SymbolHit>) -> Seq<Hit> {
    v.map_values(|h: SymbolHit| h@)
}

/// Whether a range touches a 0-based line.
pub open spec fn covers_line(range: Range, line0: u32) -> bool {
    range.start.line <= line0 && line0 <= range.end.line
}

/// The innermost symbols around a line, in order.
pub open spec fn innermost(symbols: Seq<DocumentSymbol>, line0: u32) -> Seq<DocumentSymbol>
    decreases symbols,
{
    if symbols.len() == 0 {
        Seq::empty()
    } else {
        innermost_of(symbols[0], line0) + innermost(symbols.drop_first(), line0)
    }
}

/// The innermost symbols around a line at or below one symbol.
pub open spec fn innermost_of(sym: DocumentSymbol, line0: u32) -> Seq<DocumentSymbol>
    decreases sym,
{
    if !covers_line(sym.range, line0) {
        Seq::empty()
    } else {
        let nested = innermost(sym.children@, line0);
        if nested.len() == 0 {
            seq![sym]
        } else {
            nested
        }
    }
}

/// The hit that a symbol stands for.
pub open spec fn hit_of(sym: DocumentSymbol) -> Hit {
    Hit { name: sym.name@, position: sym.selection_range.start }
}

/// Whether a row of hits has one at the given position.
pub open spec fn has_position(hits: Seq<Hit>, position: Position) -> bool {
    exists|i: int| 0 <= i < hits.len() && (#[trigger] hits[i]).position == position
}

/// The hits of a row of symbols, each position once, in order of first appearance.
pub open spec fn distinct_hits(syms: Seq<DocumentSymbol>) -> Seq<Hit>
    decreases syms.len(),
{
    if syms.len() == 0 {
        Seq::empty()
    } else {
        let before = distinct_hits(syms.drop_last());
        let hit = hit_of(syms.last());
        if has_position(before, hit.position) {
            before
        } else {
            before.push(hit)
        }
    }
}

/// The 0-based number of a 1-based line.
pub open spec fn line_before(line1: u32) -> u32 {
    if line1 == 0 {
        0
    } else {
        (line1 - 1) as u32
    }
}

/// The innermost symbols around each of a row of 1-based lines.
pub open spec fn innermost_at_lines(symbols: Seq<DocumentSymbol>, lines: Seq<u32>) -> Seq<
    DocumentSymbol,
>
    decreases lines.len(),
{
    if lines.len() == 0 {
        Seq::empty()
    } else {
        innermost_at_lines(symbols, lines.drop_last()) + innermost(
            symbols,
            line_before(lines.last()),
        )
    }
}

fn range_contains_line(range: &Range, line0: u32) -> (r: bool)
    ensures
        r == covers_line(*range, line0),
{
    range.start.line <= line0 && line0 <= range.end.line
}

/// A row of references, as contracts see it.
pub open spec fn referents(v: Seq<&DocumentSymbol>) -> Seq<DocumentSymbol> {
    v.map_values(|s: &DocumentSymbol| *s)
}

fn innermost_at<'a>(symbols: &'a [DocumentSymbol], line0: u32) -> (out: Vec<&'a DocumentSymbol>)
    ensures
        referents(out@) == innermost(symbols@, line0),
    decreases symbols@,
{
    let mut result: Vec<&'a DocumentSymbol> = Vec::new();
    let mut i: usize = 0;
    assert(symbols@.skip(0) =~= symbols@);
    assert(referents(result@) =~= Seq::<DocumentSymbol>::empty());
    while i < symbols.len()
        invariant
            i <= symbols@.len(),
            referents(result@) + innermost(symbols@.skip(i as int), line0) == innermost(
                symbols@,
                line0,
            ),
        decreases symbols.len() - i,
    {
        let sym = &symbols[i];
        let ghost rest = symbols@.skip(i as int);
        let ghost before = referents(result@);
        proof {
            assert(rest[0] == *sym);
            assert(rest.drop_first() =~= symbols@.skip(i + 1));
            assert(decreases_to!(symbols@ => symbols@[i as int]));
        }
        if range_contains_line(&sym.range, line0) {
            let mut nested = innermost_at(sym.children.as_slice(), line0);
            if nested.len() == 0 {
                result.push(sym);
                assert(referents(result@) =~= before.push(*sym));
            } else {
                let ghost more = nested@;
                let ghost had = result@;
                result.append(&mut nested);
                assert(referents(had + more) =~= referents(had) + referents(more));
            }
        }
        proof {
            assert(referents(result@) =~= before + innermost_of(*sym, line0));
            assert((before + innermost_of(*sym, line0)) + innermost(rest.drop_first(), line0)
                =~= before + innermost(rest, line0));
        }
        i = i + 1;
    }
    assert(innermost(symbols@.skip(i as int), line0) =~= Seq::<DocumentSymbol>::empty());
    assert(referents(result@) =~= innermost(symbols@, line0));
    result
}

/// Adds the hits of a row of symbols that stand at new positions.
fn add_hits(hits: &mut Vec<SymbolHit>, syms: &Vec<&DocumentSymbol>, Ghost(seen): Ghost<
    Seq<DocumentSymbol>,
>)
    requires
        hits_view(old(hits)@) == distinct_hits(seen),
    ensures
        hits_view(final(hits)@) == distinct_hits(seen + referents(syms@)),
{
    let mut i: usize = 0;
    assert(seen + referents(syms@).take(0) =~= seen);
    while i < syms.len()
        invariant
            i <= syms@.len(),
            hits_view(hits@) == distinct_hits(seen + referents(syms@).take(i as int)),
        decreases syms.len() - i,
    {
        let sym = syms[i];
        let position = sym.selection_range.start;
        let ghost before = hits_view(hits@);
        let mut known = false;
        let mut j: usize = 0;
        while j < hits.len()
            invariant
                j <= hits@.len(),
                before == hits_view(hits@),
                known == exists|k: int|
                    0 <= k < j && (#[trigger] before[k]).position == position,
            decreases hits.len() - j,
        {
            assert(before[j as int] == hits@[j as int]@);
            if hits[j].position == position {
                known = true;
            }
            j = j + 1;
        }
        assert(known == has_position(before, position));
        proof {
            let all = seen + referents(syms@).take(i + 1);
            assert(all.drop_last() =~= seen + referents(syms@).take(i as int));
            assert(all.last() == *sym);
        }
        if !known {
            let hit = SymbolHit { name: sym.name.clone(), position };
            let ghost had = hits@;
            hits.push(hit);
            assert(hits_view(hits@) =~= before.push(hit_of(*sym)));
        }
        i = i + 1;
    }
    assert(referents(syms@).take(i as int) =~= referents(syms@));
}

/// The hits of one 0-based line.
pub fn pick_at(symbols: &[DocumentSymbol], line0: u32) -> (out: Vec<SymbolHit>)
    ensures
        hits_view(out@) == distinct_hits(innermost(symbols@, line0)),
{
    let mut hits: Vec<SymbolHit> = Vec::new();
    let syms = innermost_at(symbols, line0);
    assert(hits_view(hits@) =~= distinct_hits(Seq::empty()));
    add_hits(&mut hits, &syms, Ghost(Seq::empty()));
    assert(Seq::<DocumentSymbol>::empty() + referents(syms@) =~= referents(syms@));
    hits
}

/// The innermost symbols around the given 1-based lines. Hits at the same
/// `selection_range.start` are deduplicated.
pub fn pick_at_lines(symbols: &[DocumentSymbol], git_lines_1based: &[u32]) -> (out: Vec<
    SymbolHit,
>)
    ensures
        hits_view(out@) == distinct_hits(innermost_at_lines(symbols@, git_lines_1based@)),
{
    let mut hits: Vec<SymbolHit> = Vec::new();
    let mut i: usize = 0;
    let lines = git_lines_1based;
    assert(lines@.take(0) =~= Seq::<u32>::empty());
    assert(hits_view(hits@) =~= distinct_hits(innermost_at_lines(symbols@, lines@.take(0))));
    while i < lines.len()
        invariant
            i <= lines@.len(),
            hits_view(hits@) == distinct_hits(
                innermost_at_lines(symbols@, lines@.take(i as int)),
            ),
        decreases lines.len() - i,
    {
        let line0 = lines[i].saturating_sub(1);
        let syms = innermost_at(symbols, line0);
        let ghost seen = innermost_at_lines(symbols@, lines@.take(i as int));
        add_hits(&mut hits, &syms, Ghost(seen));
        proof {
            assert(lines@.take(i + 1).drop_last() =~= lines@.take(i as int));
            assert(lines@.take(i + 1).last() == lines@[i as int]);
            assert(line0 == line_before(lines@[i as int]));
        }
        i = i + 1;
    }
    assert(lines@.take(i as int) =~= lines@);
    hits
}

/// An innermost symbol covers the line, and none of its children does.
pub proof fn innermost_covers(symbols: Seq<DocumentSymbol>, line0: u32)
    ensures
        forall|i: int|
            0 <= i < innermost(symbols, line0).len() ==> {
                let s = #[trigger] innermost(symbols, line0)[i];
                covers_line(s.range, line0) && forall|k: int|
                    0 <= k < s.children@.len() ==> !covers_line(
                        (#[trigger] s.children@[k]).range,
                        line0,
                    )
            },
    decreases symbols,
{
    if symbols.len() > 0 {
        let sym = symbols[0];
        let here = innermost_of(sym, line0);
        let rest = innermost(symbols.drop_first(), line0);
        innermost_covers(symbols.drop_first(), line0);
        assert(decreases_to!(symbols => symbols[0]));
        innermost_covers(sym.children@, line0);
        innermost_finds(sym.children@, line0);
        assert forall|i: int| 0 <= i < innermost(symbols, line0).len() implies {
            let s = #[trigger] innermost(symbols, line0)[i];
            covers_line(s.range, line0) && forall|k: int|
                0 <= k < s.children@.len() ==> !covers_line(
                    (#[trigger] s.children@[k]).range,
                    line0,
                )
        } by {
            if i >= here.len() {
                assert(innermost(symbols, line0)[i] == rest[i - here.len()]);
            } else {
                assert(innermost(symbols, line0)[i] == here[i]);
            }
        }
    }
}

/// A line has an innermost symbol exactly where some outermost symbol covers it.
pub proof fn innermost_finds(symbols: Seq<DocumentSymbol>, line0: u32)
    ensures
        innermost(symbols, line0).len() > 0 <==> exists|i: int|
            0 <= i < symbols.len() && covers_line((#[trigger] symbols[i]).range, line0),
    decreases symbols.len(),
{
    if symbols.len() > 0 {
        let rest = symbols.drop_first();
        innermost_finds(rest, line0);
        assert(innermost(symbols, line0) == innermost_of(symbols[0], line0) + innermost(
            rest,
            line0,
        ));
        assert(innermost_of(symbols[0], line0).len() > 0 <==> covers_line(
            symbols[0].range,
            line0,
        ));
        if covers_line(symbols[0].range, line0) {
            assert(innermost_of(symbols[0], line0).len() > 0);
        } else if innermost(symbols, line0).len() > 0 {
            let i = choose|i: int|
                0 <= i < rest.len() && covers_line((#[trigger] rest[i]).range, line0);
            assert(symbols[i + 1] == rest[i]);
        } else {
            assert forall|i: int| 0 <= i < symbols.len() implies !covers_line(
                (#[trigger] symbols[i]).range,
                line0,
            ) by {
                if i > 0 {
                    assert(symbols[i] == rest[i - 1]);
                }
            }
        }
    }
}

/// No position is hit twice.
pub proof fn hits_are_distinct(syms: Seq<DocumentSymbol>)
    ensures
        forall|i: int, j: int|
            0 <= i < j < distinct_hits(syms).len() ==> (#[trigger] distinct_hits(syms)[i]).position
                != (#[trigger] distinct_hits(syms)[j]).position,
    decreases syms.len(),
{
    if syms.len() > 0 {
        hits_are_distinct(syms.drop_last());
        let before = distinct_hits(syms.drop_last());
        let all = distinct_hits(syms);
        assert forall|i: int, j: int| 0 <= i < j < all.len() implies (#[trigger] all[i]).position
            != (#[trigger] all[j]).position by {
            assert(before[i] == all[i]);
            if j < before.len() {
                assert(before[j] == all[j]);
            }
        }
    }
}

/// Every symbol's position is hit, and every hit is that of a symbol.
pub proof fn hits_are_complete(syms: Seq<DocumentSymbol>)
    ensures
        forall|i: int|
            0 <= i < syms.len() ==> has_position(
                distinct_hits(syms),
                (#[trigger] syms[i]).selection_range.start,
            ),
        forall|j: int|
            0 <= j < distinct_hits(syms).len() ==> exists|i: int|
                0 <= i < syms.len() && (#[trigger] distinct_hits(syms)[j]).name == (
                #[trigger] syms[i]).name@ && distinct_hits(syms)[j].position
                    == syms[i].selection_range.start,
    decreases syms.len(),
{
    if syms.len() > 0 {
        let front = syms.drop_last();
        hits_are_complete(front);
        let before = distinct_hits(front);
        let all = distinct_hits(syms);
        assert forall|i: int| 0 <= i < syms.len() implies has_position(
            all,
            (#[trigger] syms[i]).selection_range.start,
        ) by {
            if i < front.len() {
                assert(front[i] == syms[i]);
                let k = choose|k: int|
                    0 <= k < before.len() && (#[trigger] before[k]).position
                        == syms[i].selection_range.start;
                assert(all[k] == before[k]);
            } else if !has_position(before, syms.last().selection_range.start) {
                assert(all[before.len() as int] == hit_of(syms.last()));
            }
        }
        assert forall|j: int| 0 <= j < all.len() implies exists|i: int|
            0 <= i < syms.len() && (#[trigger] all[j]) == hit_of(#[trigger] syms[i]) by {
            if j < before.len() {
                let i = choose|i: int|
                    0 <= i < front.len() && before[j] == hit_of(#[trigger] front[i]);
                assert(syms[i] == front[i]);
                assert(all[j] == before[j]);
            } else {
                assert(all[j] == hit_of(syms[syms.len() - 1]));
            }
        }
    }
}

/// The innermost symbols around two rows of lines put together are those around the first,
/// and then those around the second.
proof fn innermost_at_joined(symbols: Seq<DocumentSymbol>, a: Seq<u32>, b: Seq<u32>)
    ensures
        innermost_at_lines(symbols, a + b) == innermost_at_lines(symbols, a) + innermost_at_lines(
            symbols,
            b,
        ),
    decreases b.len(),
{
    if b.len() == 0 {
        assert(a + b =~= a);
    } else {
        assert((a + b).drop_last() =~= a + b.drop_last());
        innermost_at_joined(symbols, a, b.drop_last());
    }
}

/// The hits of two rows of symbols put together are those of the first, and then those of the
/// second at other positions.
pub proof fn distinct_hits_joined(x: Seq<DocumentSymbol>, y: Seq<DocumentSymbol>)
    ensures
        distinct_hits(x + y) == distinct_hits(x) + distinct_hits(y).filter(
            |h: Hit| !has_position(distinct_hits(x), h.position),
        ),
    decreases y.len(),
{
    reveal(Seq::filter);
    let first = distinct_hits(x);
    let new = |h: Hit| !has_position(first, h.position);
    if y.len() == 0 {
        assert(x + y =~= x);
        assert(distinct_hits(y).filter(new) =~= Seq::<Hit>::empty());
    } else {
        let front = y.drop_last();
        let before = distinct_hits(front);
        let hit = hit_of(y.last());
        assert((x + y).drop_last() =~= x + front);
        distinct_hits_joined(x, front);
        let kept = before.filter(new);
        assert(has_position(first + kept, hit.position) <==> has_position(first, hit.position)
            || has_position(before, hit.position)) by {
            if has_position(first, hit.position) {
                let i = choose|i: int|
                    0 <= i < first.len() && (#[trigger] first[i]).position == hit.position;
                assert((first + kept)[i].position == hit.position);
            } else if has_position(before, hit.position) {
                let i = choose|i: int|
                    0 <= i < before.len() && (#[trigger] before[i]).position == hit.position;
                before.lemma_filter_contains(new, i);
                let j = choose|j: int| 0 <= j < kept.len() && kept[j] == before[i];
                assert((first + kept)[first.len() + j].position == hit.position);
            }
            if has_position(first + kept, hit.position) {
                let i = choose|i: int|
                    0 <= i < (first + kept).len() && (#[trigger] (first + kept)[i]).position
                        == hit.position;
                if i < first.len() {
                    assert(first[i].position == hit.position);
                } else {
                    let h = kept[i - first.len()];
                    before.lemma_filter_contains_rev(new, h);
                    let j = choose|j: int| 0 <= j < before.len() && before[j] == h;
                    assert(before[j].position == hit.position);
                }
            }
        }
        if !has_position(before, hit.position) {
            assert(before.push(hit).drop_last() =~= before);
            assert(distinct_hits(y).filter(new) =~= if new(hit) {
                kept.push(hit)
            } else {
                kept
            });
        }
        assert(distinct_hits(x + y) =~= first + distinct_hits(y).filter(new));
    }
}

/// Picking around two rows of lines put together gives the hits around the first, and then
/// those around the second at other positions.
pub proof fn hits_around_joined_lines(symbols: Seq<DocumentSymbol>, a: Seq<u32>, b: Seq<u32>)
    ensures
        ({
            let first = distinct_hits(innermost_at_lines(symbols, a));
            distinct_hits(innermost_at_lines(symbols, a + b)) == first + distinct_hits(
                innermost_at_lines(symbols, b),
            ).filter(|h: Hit| !has_position(first, h.position))
        }),
{
    innermost_at_joined(symbols, a, b);
    distinct_hits_joined(innermost_at_lines(symbols, a), innermost_at_lines(symbols, b));
}

/// Whether a row of symbols leads from one of the given symbols inward, each a child of the one
/// before and each around the given 0-based line.
pub open spec fn leads_inward(
    symbols: Seq<DocumentSymbol>,
    trail: Seq<DocumentSymbol>,
    line0: u32,
) -> bool {
    &&& trail.len() > 0
    &&& symbols.contains(trail[0])
    &&& forall|k: int|
        0 <= k < trail.len() ==> (#[trigger] trail[k]).range.start.line <= line0 && line0
            <= trail[k].range.end.line
    &&& forall|k: int|
        0 <= k < trail.len() - 1 ==> (#[trigger] trail[k]).children@.contains(trail[k + 1])
}

/// The innermost symbols around a line are exactly those that a way inward through symbols
/// around the line ends at, and that have no child around it.
pub proof fn innermost_are_where_ways_inward_end(
    symbols: Seq<DocumentSymbol>,
    line0: u32,
    s: DocumentSymbol,
)
    ensures
        innermost(symbols, line0).contains(s) <==> (exists|trail: Seq<DocumentSymbol>| #[trigger]
            leads_inward(symbols, trail, line0) && trail.last() == s) && forall|k: int|
            0 <= k < s.children@.len() ==> !((#[trigger] s.children@[k]).range.start.line <= line0
                && line0 <= s.children@[k].range.end.line),
    decreases symbols,
{
    let row = innermost(symbols, line0);
    if symbols.len() == 0 {
        assert forall|trail: Seq<DocumentSymbol>| !(#[trigger] leads_inward(symbols, trail, line0)) by {}
    } else {
        let sym = symbols[0];
        let rest = symbols.drop_first();
        let here = innermost_of(sym, line0);
        let there = innermost(rest, line0);
        assert(decreases_to!(symbols => symbols[0]));
        innermost_are_where_ways_inward_end(sym.children@, line0, s);
        innermost_are_where_ways_inward_end(rest, line0, s);
        innermost_finds(sym.children@, line0);
        innermost_covers(symbols, line0);
        assert(row == here + there);
        if row.contains(s) {
            let k = choose|k: int| 0 <= k < row.len() && row[k] == s;
            if k < here.len() {
                assert(here[k] == s);
                let nested = innermost(sym.children@, line0);
                if nested.len() == 0 {
                    let trail = seq![sym];
                    assert(symbols.contains(trail[0]));
                    assert(leads_inward(symbols, trail, line0));
                } else {
                    assert(nested.contains(s));
                    let inner = choose|trail: Seq<DocumentSymbol>| #[trigger]
                        leads_inward(sym.children@, trail, line0) && trail.last() == s;
                    let trail = seq![sym] + inner;
                    assert(symbols.contains(trail[0]));
                    assert forall|j: int| 0 <= j < trail.len() - 1 implies (
                    #[trigger] trail[j]).children@.contains(trail[j + 1]) by {
                        if j > 0 {
                            assert(trail[j] == inner[j - 1]);
                            assert(trail[j + 1] == inner[j]);
                        } else {
                            assert(trail[1] == inner[0]);
                        }
                    }
                    assert forall|j: int| 0 <= j < trail.len() implies (
                    #[trigger] trail[j]).range.start.line <= line0 && line0
                        <= trail[j].range.end.line by {
                        if j > 0 {
                            assert(trail[j] == inner[j - 1]);
                        }
                    }
                    assert(leads_inward(symbols, trail, line0));
                    assert(trail.last() == s);
                }
            } else {
                assert(there[k - here.len()] == s);
                assert(there.contains(s));
                let trail = choose|trail: Seq<DocumentSymbol>| #[trigger]
                    leads_inward(rest, trail, line0) && trail.last() == s;
                let m = choose|m: int| 0 <= m < rest.len() && rest[m] == trail[0];
                assert(symbols[m + 1] == trail[0]);
                assert(leads_inward(symbols, trail, line0));
            }
        }
        if (exists|trail: Seq<DocumentSymbol>| #[trigger]
            leads_inward(symbols, trail, line0) && trail.last() == s) && forall|k: int|
            0 <= k < s.children@.len() ==> !((#[trigger] s.children@[k]).range.start.line <= line0
                && line0 <= s.children@[k].range.end.line) {
            let trail = choose|trail: Seq<DocumentSymbol>| #[trigger]
                leads_inward(symbols, trail, line0) && trail.last() == s;
            let m = choose|m: int| 0 <= m < symbols.len() && symbols[m] == trail[0];
            if m > 0 {
                assert(rest[m - 1] == trail[0]);
                assert(leads_inward(rest, trail, line0));
                assert(there.contains(s));
                let k = choose|k: int| 0 <= k < there.len() && there[k] == s;
                assert(row[here.len() + k] == s);
            } else {
                assert(covers_line(sym.range, line0)) by {
                    assert(trail[0] == sym);
                }
                if trail.len() == 1 {
                    assert(s == sym);
                    assert(innermost(sym.children@, line0).len() == 0);
                    assert(row[0] == s);
                } else {
                    let inner = trail.drop_first();
                    assert(trail[0].children@.contains(trail[1]));
                    assert forall|j: int| 0 <= j < inner.len() implies (
                    #[trigger] inner[j]).range.start.line <= line0 && line0
                        <= inner[j].range.end.line by {
                        assert(inner[j] == trail[j + 1]);
                    }
                    assert forall|j: int| 0 <= j < inner.len() - 1 implies (
                    #[trigger] inner[j]).children@.contains(inner[j + 1]) by {
                        assert(inner[j] == trail[j + 1]);
                        assert(inner[j + 1] == trail[j + 2]);
                    }
                    assert(leads_inward(sym.children@, inner, line0));
                    assert(inner.last() == s);
                    let nested = innermost(sym.children@, line0);
                    assert(nested.contains(s));
                    let k = choose|k: int| 0 <= k < nested.len() && nested[k] == s;
                    assert(row[k] == s);
                }
            }
        }
    }
}

/// The innermost symbols of two rows of symbols put together are those of the one, and then
/// those of the other.
pub proof fn innermost_of_joined_symbols(
    a: Seq<DocumentSymbol>,
    b: Seq<DocumentSymbol>,
    line0: u32,
)
    ensures
        innermost(a + b, line0) == innermost(a, line0) + innermost(b, line0),
    decreases a.len(),
{
    if a.len() == 0 {
        assert(a + b =~= b);
        assert(innermost(a, line0) + innermost(b, line0) =~= innermost(b, line0));
    } else {
        assert((a + b).drop_first() =~= a.drop_first() + b);
        innermost_of_joined_symbols(a.drop_first(), b, line0);
        assert(innermost(a + b, line0) =~= innermost(a, line0) + innermost(b, line0));
    }
}

/// Around a line counted from one, the symbols are picked whose range, counted from one, holds
/// the line, and one is picked wherever an outermost symbol's range holds it. No child of a
/// symbol that is picked holds the line.
pub proof fn picked_around_a_line_counted_from_one(symbols: Seq<DocumentSymbol>, n: u32)
    requires
        n >= 1,
    ensures
        forall|i: int|
            0 <= i < innermost_at_lines(symbols, seq![n]).len() ==> {
                let s = #[trigger] innermost_at_lines(symbols, seq![n])[i];
                &&& s.range.start.line + 1 <= n <= s.range.end.line + 1
                &&& forall|k: int|
                    0 <= k < s.children@.len() ==> !((#[trigger] s.children@[k]).range.start.line
                        + 1 <= n <= s.children@[k].range.end.line + 1)
            },
        innermost_at_lines(symbols, seq![n]).len() > 0 <==> exists|i: int|
            0 <= i < symbols.len() && (#[trigger] symbols[i]).range.start.line + 1 <= n
                <= symbols[i].range.end.line + 1,
        innermost_at_lines(symbols, seq![n]) == innermost(symbols, (n - 1) as u32),
{
    let row = seq![n];
    assert(row.drop_last() =~= Seq::<u32>::empty());
    assert(innermost_at_lines(symbols, row.drop_last()) =~= Seq::<DocumentSymbol>::empty());
    assert(innermost_at_lines(symbols, row) =~= innermost(symbols, (n - 1) as u32));
    innermost_covers(symbols, (n - 1) as u32);
    innermost_finds(symbols, (n - 1) as u32);
}

/// Line zero, which no file has, stands for the first line.
pub proof fn line_zero_is_the_first_line(symbols: Seq<DocumentSymbol>)
    ensures
        innermost_at_lines(symbols, seq![0u32]) == innermost_at_lines(symbols, seq![1u32]),
{
    assert(seq![0u32].drop_last() =~= Seq::<u32>::empty());
    assert(seq![1u32].drop_last() =~= Seq::<u32>::empty());
}

/// A hit is picked around a row of lines counted from one exactly where one of the lines has an
/// innermost symbol whose name stands there.
pub proof fn picked_positions(symbols: Seq<DocumentSymbol>, lines: Seq<u32>, p: Position)
    requires
        forall|i: int| 0 <= i < lines.len() ==> #[trigger] lines[i] >= 1,
    ensures
        has_position(distinct_hits(innermost_at_lines(symbols, lines)), p) <==> exists|
            i: int,
            k: int,
        |
            0 <= i < lines.len() && 0 <= k < innermost(symbols, (lines[i] - 1) as u32).len() && (
            #[trigger] innermost(symbols, (lines[i] - 1) as u32)[k]).selection_range.start == p,
{
    let syms = innermost_at_lines(symbols, lines);
    let hits = distinct_hits(syms);
    hits_are_complete(syms);
    if has_position(hits, p) {
        let j = choose|j: int| 0 <= j < hits.len() && (#[trigger] hits[j]).position == p;
        let i = choose|i: int|
            0 <= i < syms.len() && hits[j].name == (#[trigger] syms[i]).name@ && hits[j].position
                == syms[i].selection_range.start;
        assert(syms.contains(syms[i]));
        innermost_at_some_line(symbols, lines, syms[i]);
        let m = choose|m: int|
            0 <= m < lines.len() && innermost(symbols, (#[trigger] lines[m] - 1) as u32).contains(
                syms[i],
            );
        let row = innermost(symbols, (lines[m] - 1) as u32);
        let k = choose|k: int| 0 <= k < row.len() && row[k] == syms[i];
        assert(row[k].selection_range.start == p);
    }
    if exists|i: int, k: int|
        0 <= i < lines.len() && 0 <= k < innermost(symbols, (lines[i] - 1) as u32).len() && (
        #[trigger] innermost(symbols, (lines[i] - 1) as u32)[k]).selection_range.start == p {
        let (i, k) = choose|i: int, k: int|
            0 <= i < lines.len() && 0 <= k < innermost(symbols, (lines[i] - 1) as u32).len() && (
            #[trigger] innermost(symbols, (lines[i] - 1) as u32)[k]).selection_range.start == p;
        let s = innermost(symbols, (lines[i] - 1) as u32)[k];
        assert(innermost(symbols, (lines[i] - 1) as u32).contains(s));
        innermost_at_some_line(symbols, lines, s);
        let m = choose|m: int| 0 <= m < syms.len() && syms[m] == s;
        assert(has_position(hits, syms[m].selection_range.start));
    }
}

proof fn innermost_at_some_line(
    symbols: Seq<DocumentSymbol>,
    lines: Seq<u32>,
    s: DocumentSymbol,
)
    requires
        forall|i: int| 0 <= i < lines.len() ==> #[trigger] lines[i] >= 1,
    ensures
        innermost_at_lines(symbols, lines).contains(s) <==> exists|i: int|
            0 <= i < lines.len() && innermost(symbols, (#[trigger] lines[i] - 1) as u32).contains(
                s,
            ),
    decreases lines.len(),
{
    let all = innermost_at_lines(symbols, lines);
    if lines.len() > 0 {
        let front = lines.drop_last();
        assert forall|i: int| 0 <= i < front.len() implies #[trigger] front[i] >= 1 by {
            assert(front[i] == lines[i]);
        }
        innermost_at_some_line(symbols, front, s);
        let before = innermost_at_lines(symbols, front);
        assert(lines[lines.len() - 1] == lines.last());
        let more = innermost(symbols, (lines.last() - 1) as u32);
        assert(all == before + more);
        if before.contains(s) {
            let k = choose|k: int| 0 <= k < before.len() && before[k] == s;
            assert(all[k] == s);
            let i = choose|i: int|
                0 <= i < front.len() && innermost(
                    symbols,
                    (#[trigger] front[i] - 1) as u32,
                ).contains(s);
            assert(lines[i] == front[i]);
        }
        if more.contains(s) {
            let k = choose|k: int| 0 <= k < more.len() && more[k] == s;
            assert(all[before.len() + k] == s);
        }
        if all.contains(s) {
            let k = choose|k: int| 0 <= k < all.len() && all[k] == s;
            if k < before.len() {
                assert(before[k] == s);
            } else {
                assert(more[k - before.len()] == s);
            }
        }
        if exists|i: int|
            0 <= i < lines.len() && innermost(symbols, (#[trigger] lines[i] - 1) as u32).contains(
                s,
            ) {
            let i = choose|i: int|
                0 <= i < lines.len() && innermost(
                    symbols,
                    (#[trigger] lines[i] - 1) as u32,
                ).contains(s);
            if i < front.len() {
                assert(front[i] == lines[i]);
            }
        }
    }
}

/// Hits are seen whole, one for one and in order: the name and the place of each.
pub proof fn hits_are_seen_whole(v: Seq<SymbolHit>)
    ensures
        hits_view(v).len() == v.len(),
        forall|i: int|
            0 <= i < v.len() ==> (#[trigger] hits_view(v)[i]).name == v[i].name@ && hits_view(
                v,
            )[i].position == v[i].position,
{
}

} // verus!
