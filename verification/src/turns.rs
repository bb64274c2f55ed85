//! In which order a search takes up places and notes references.
//!
//! Places wait in a queue: the starts first, then the symbols around each reference, in the
//! order in which the references are looked at. Each place is taken up when its first turn
//! comes, so places that are fewer references away come first.

use crate::bfs::{hits_at, Event, Spot};
use crate::origin::at_work;
use crate::path::{Part, PathBuf};
use crate::symbols::Hit;
use crate::trace::positions_in;
use crate::types::{DocumentSymbol, Position, Site};
use vstd::prelude::*;

verus! {

/// The places of the symbols around a line of a file.
pub open spec fn symbol_places(
    file: Seq<Part>,
    syms: Seq<DocumentSymbol>,
    line0: u32,
) -> Seq<Spot> {
    hits_at(syms, line0).map_values(|h: Hit| (file, h.position))
}

/// The places that come up in a search, in order: the starts, and then, with each outline, the
/// symbols around the reference that it was asked for.
pub open spec fn queued(t: Seq<Event>, starts: Seq<Spot>, goals: Set<Seq<Part>>) -> Seq<Spot>
    decreases t.len(),
{
    if t.len() == 0 {
        starts
    } else {
        let before = queued(t.drop_last(), starts, goals);
        match t.last() {
            Event::Symbols { file, answer: Ok(syms) } => match at_work(t.drop_last(), goals) {
                Some((d, found, i)) => if i < found.len() {
                    before + symbol_places(file, syms, found[i].range.start.line)
                } else {
                    before
                },
                None => before,
            },
            _ => before,
        }
    }
}

/// Whether the first turn of a place in a queue is `a`.
pub open spec fn has_turn(q: Seq<Spot>, n: Spot, a: int) -> bool {
    0 <= a < q.len() && q[a] == n && forall|c: int| 0 <= c < a ==> q[c] != n
}

/// Whether declarations were asked for in turn, all at places whose turn is before `head`.
pub open spec fn taken_in_turn(q: Seq<Spot>, t: Seq<Event>, head: int) -> bool {
    &&& forall|k: int|
        0 <= k < t.len() && (#[trigger] t[k]) is Declaration ==> exists|a: int|
            a < head && #[trigger] has_turn(q, t[k]->Declaration_at, a)
    &&& forall|i: int, j: int, a: int, b: int|
        #![trigger has_turn(q, t[i]->Declaration_at, a), has_turn(q, t[j]->Declaration_at, b)]
        0 <= i < j < t.len() && t[i] is Declaration && t[j] is Declaration && has_turn(
            q,
            t[i]->Declaration_at,
            a,
        ) && has_turn(q, t[j]->Declaration_at, b) ==> a < b
}

/// Whether a search asked for declarations breadth first: at the places that came up, in the
/// order in which they came up first.
pub open spec fn breadth_first(t: Seq<Event>, starts: Seq<Spot>, goals: Set<Seq<Part>>) -> bool {
    let q = queued(t, starts, goals);
    taken_in_turn(q, t, q.len() as int)
}

/// A place has one first turn.
proof fn one_turn(q: Seq<Spot>, n: Spot, a: int, b: int)
    requires
        has_turn(q, n, a),
        has_turn(q, n, b),
    ensures
        a == b,
{
    if a < b {
        assert(q[a] != n);
    } else if b < a {
        assert(q[b] != n);
    }
}

/// Places that come up later leave the turns of the earlier ones.
pub proof fn turns_stay(q: Seq<Spot>, more: Seq<Spot>, t: Seq<Event>, head: int)
    requires
        taken_in_turn(q, t, head),
        head <= q.len(),
    ensures
        taken_in_turn(q + more, t, head),
{
    let all = q + more;
    assert forall|n: Spot, a: int| #[trigger] has_turn(q, n, a) implies has_turn(all, n, a) by {
        assert(all[a] == q[a]);
        assert forall|c: int| 0 <= c < a implies all[c] != n by {
            assert(all[c] == q[c]);
        }
    }
    assert forall|k: int| 0 <= k < t.len() && (#[trigger] t[k]) is Declaration implies exists|
        a: int,
    | a < head && #[trigger] has_turn(all, t[k]->Declaration_at, a) by {
        let a = choose|a: int| a < head && #[trigger] has_turn(q, t[k]->Declaration_at, a);
        assert(has_turn(all, t[k]->Declaration_at, a));
    }
    assert forall|i: int, j: int, a: int, b: int|
        #![trigger has_turn(all, t[i]->Declaration_at, a), has_turn(all, t[j]->Declaration_at, b)]
        0 <= i < j < t.len() && t[i] is Declaration && t[j] is Declaration && has_turn(
            all,
            t[i]->Declaration_at,
            a,
        ) && has_turn(all, t[j]->Declaration_at, b) implies a < b by {
        let c = choose|c: int| c < head && #[trigger] has_turn(q, t[i]->Declaration_at, c);
        let d = choose|d: int| d < head && #[trigger] has_turn(q, t[j]->Declaration_at, d);
        assert(has_turn(all, t[i]->Declaration_at, c));
        assert(has_turn(all, t[j]->Declaration_at, d));
        one_turn(all, t[i]->Declaration_at, a, c);
        one_turn(all, t[j]->Declaration_at, b, d);
        assert(c < d);
    }
}

/// A request that asks for no declaration leaves the turns.
pub proof fn turns_pause(q: Seq<Spot>, t: Seq<Event>, e: Event, head: int, next: int)
    requires
        taken_in_turn(q, t, head),
        !(e is Declaration),
        head <= next,
    ensures
        taken_in_turn(q, t.push(e), next),
{
    let u = t.push(e);
    assert forall|k: int| 0 <= k < u.len() && (#[trigger] u[k]) is Declaration implies exists|
        a: int,
    | a < next && #[trigger] has_turn(q, u[k]->Declaration_at, a) by {
        assert(u[k] == t[k]);
        let a = choose|a: int| a < head && #[trigger] has_turn(q, t[k]->Declaration_at, a);
        assert(has_turn(q, u[k]->Declaration_at, a));
    }
    assert forall|i: int, j: int, a: int, b: int|
        #![trigger has_turn(q, u[i]->Declaration_at, a), has_turn(q, u[j]->Declaration_at, b)]
        0 <= i < j < u.len() && u[i] is Declaration && u[j] is Declaration && has_turn(
            q,
            u[i]->Declaration_at,
            a,
        ) && has_turn(q, u[j]->Declaration_at, b) implies a < b by {
        assert(u[i] == t[i] && u[j] == t[j]);
        assert(has_turn(q, t[i]->Declaration_at, a) && has_turn(q, t[j]->Declaration_at, b));
    }
}

/// The place whose turn it is may be taken up, or passed over.
pub proof fn turns_go_on(q: Seq<Spot>, t: Seq<Event>, e: Event, head: int)
    requires
        taken_in_turn(q, t, head),
        0 <= head < q.len(),
        e is Declaration,
        e->Declaration_at == q[head],
        forall|c: int| 0 <= c < head ==> #[trigger] q[c] != q[head],
    ensures
        taken_in_turn(q, t.push(e), head + 1),
{
    let u = t.push(e);
    let n = q[head];
    assert(has_turn(q, n, head));
    assert forall|k: int| 0 <= k < u.len() && (#[trigger] u[k]) is Declaration implies exists|
        a: int,
    | a < head + 1 && #[trigger] has_turn(q, u[k]->Declaration_at, a) by {
        if k < t.len() {
            assert(u[k] == t[k]);
            let a = choose|a: int| a < head && #[trigger] has_turn(q, t[k]->Declaration_at, a);
            assert(has_turn(q, u[k]->Declaration_at, a));
        } else {
            assert(has_turn(q, u[k]->Declaration_at, head));
        }
    }
    assert forall|i: int, j: int, a: int, b: int|
        #![trigger has_turn(q, u[i]->Declaration_at, a), has_turn(q, u[j]->Declaration_at, b)]
        0 <= i < j < u.len() && u[i] is Declaration && u[j] is Declaration && has_turn(
            q,
            u[i]->Declaration_at,
            a,
        ) && has_turn(q, u[j]->Declaration_at, b) implies a < b by {
        assert(u[i] == t[i]);
        assert(has_turn(q, t[i]->Declaration_at, a));
        if j < t.len() {
            assert(u[j] == t[j]);
            assert(has_turn(q, t[j]->Declaration_at, b));
        } else {
            one_turn(q, n, b, head);
            let c = choose|c: int| c < head && #[trigger] has_turn(q, t[i]->Declaration_at, c);
            one_turn(q, t[i]->Declaration_at, a, c);
        }
    }
}

/// What comes up with one more request.
pub proof fn queued_next(t: Seq<Event>, e: Event, starts: Seq<Spot>, goals: Set<Seq<Part>>)
    ensures
        !(e is Symbols) ==> queued(t.push(e), starts, goals) == queued(t, starts, goals),
        e matches Event::Symbols { file, answer: Ok(syms) } ==> match at_work(t, goals) {
            Some((d, found, i)) => i < found.len() ==> queued(t.push(e), starts, goals) == queued(
                t,
                starts,
                goals,
            ) + hits_at(syms, found[i].range.start.line).map_values(
                |h: Hit| (file, h.position),
            ),
            None => queued(t.push(e), starts, goals) == queued(t, starts, goals),
        },
        queued(Seq::empty(), starts, goals) == starts,
{
    assert(t.push(e).drop_last() =~= t);
}

/// In a search that goes breadth first, the starts are taken up before every other place.
pub proof fn starts_are_taken_first(
    t: Seq<Event>,
    starts: Seq<Spot>,
    goals: Set<Seq<Part>>,
    i: int,
    j: int,
)
    requires
        breadth_first(t, starts, goals),
        0 <= i < t.len(),
        0 <= j < t.len(),
        t[i] is Declaration,
        t[j] is Declaration,
        starts.contains(t[i]->Declaration_at),
        !starts.contains(t[j]->Declaration_at),
    ensures
        i < j,
{
    let q = queued(t, starts, goals);
    starts_stand_in_front(t, starts, goals);
    let n = t[i]->Declaration_at;
    let m = t[j]->Declaration_at;
    let a = choose|a: int| a < q.len() && #[trigger] has_turn(q, n, a);
    let b = choose|b: int| b < q.len() && #[trigger] has_turn(q, m, b);
    let s = choose|s: int| 0 <= s < starts.len() && starts[s] == n;
    assert(q[s] == n);
    if a > s {
        assert(q[s] != n);
    }
    if b < starts.len() {
        assert(q[b] == starts[b]);
        assert(starts.contains(m));
    }
    assert(a < b);
    if j < i {
        assert(b < a);
    }
}

proof fn starts_stand_in_front(t: Seq<Event>, starts: Seq<Spot>, goals: Set<Seq<Part>>)
    ensures
        queued(t, starts, goals).len() >= starts.len(),
        forall|i: int| 0 <= i < starts.len() ==> queued(t, starts, goals)[i] == starts[i],
    decreases t.len(),
{
    if t.len() > 0 {
        starts_stand_in_front(t.drop_last(), starts, goals);
    }
}

/// The places of references in a file, in order.
pub open spec fn landings(found: Seq<Site>, p: Seq<Part>) -> Seq<Position>
    decreases found.len(),
{
    if found.len() == 0 {
        Seq::empty()
    } else if found.last().path == p {
        landings(found.drop_last(), p).push(found.last().range.start)
    } else {
        landings(found.drop_last(), p)
    }
}

/// The places of all references in a file that a search was told of, in order.
pub open spec fn landed(t: Seq<Event>, p: Seq<Part>) -> Seq<Position>
    decreases t.len(),
{
    if t.len() == 0 {
        Seq::empty()
    } else {
        match t.last() {
            Event::References { at, answer: Ok(found) } => landed(t.drop_last(), p) + landings(
                found,
                p,
            ),
            _ => landed(t.drop_last(), p),
        }
    }
}

/// The places of references in a file are those of all of them that stand in it.
pub proof fn landings_are_filtered(found: Seq<Site>, p: Seq<Part>)
    ensures
        landings(found, p) == found.filter(|s: Site| s.path == p).map_values(
            |s: Site| s.range.start,
        ),
    decreases found.len(),
{
    reveal(Seq::filter);
    let here = |s: Site| s.path == p;
    let start = |s: Site| s.range.start;
    if found.len() == 0 {
        assert(found.filter(here).map_values(start) =~= Seq::<Position>::empty());
    } else {
        landings_are_filtered(found.drop_last(), p);
        if found.last().path == p {
            assert(found.filter(here).map_values(start) =~= found.drop_last().filter(
                here,
            ).map_values(start).push(found.last().range.start));
        }
    }
}

/// With one more request come the places of the references that it tells of, and no others.
pub proof fn landed_next(t: Seq<Event>, e: Event, p: Seq<Part>)
    ensures
        e matches Event::References { at, answer: Ok(found) } ==> landed(t.push(e), p) == landed(
            t,
            p,
        ) + landings(found, p),
        !(e is References) ==> landed(t.push(e), p) == landed(t, p),
        landed(Seq::empty(), p).len() == 0,
{
    assert(t.push(e).drop_last() =~= t);
}

/// Whether references in goals are noted up to those that are still to be looked at: of the
/// references that were told of last, the first `i` have been looked at.
pub open spec fn noted_so_far(
    v: Seq<(PathBuf, Vec<Position>)>,
    before: Seq<Event>,
    found: Seq<Site>,
    i: int,
    goals: Set<Seq<Part>>,
) -> bool {
    forall|p: Seq<Part>|
        goals.contains(p) ==> #[trigger] positions_in(v, p) == landed(before, p) + landings(
            found.take(i),
            p,
        )
}

/// Whether all references in goals are noted, in the order in which they were told of.
pub open spec fn noted_in_order(
    v: Seq<(PathBuf, Vec<Position>)>,
    t: Seq<Event>,
    goals: Set<Seq<Part>>,
) -> bool {
    forall|p: Seq<Part>| goals.contains(p) ==> #[trigger] positions_in(v, p) == landed(t, p)
}

/// One more reference has been looked at.
pub proof fn noted_next(
    had: Seq<(PathBuf, Vec<Position>)>,
    now: Seq<(PathBuf, Vec<Position>)>,
    before: Seq<Event>,
    found: Seq<Site>,
    i: int,
    goals: Set<Seq<Part>>,
)
    requires
        noted_so_far(had, before, found, i, goals),
        0 <= i < found.len(),
        goals.contains(found[i].path) ==> positions_in(now, found[i].path) == positions_in(
            had,
            found[i].path,
        ).push(found[i].range.start),
        forall|p: Seq<Part>|
            p != found[i].path || !goals.contains(p) ==> #[trigger] positions_in(now, p)
                == positions_in(had, p),
    ensures
        noted_so_far(now, before, found, i + 1, goals),
{
    let a = found.take(i);
    let b = found.take(i + 1);
    assert(b.drop_last() =~= a);
    assert(b.last() == found[i]);
    assert forall|p: Seq<Part>| goals.contains(p) implies #[trigger] positions_in(now, p) == landed(
        before,
        p,
    ) + landings(b, p) by {
        assert(positions_in(had, p) == landed(before, p) + landings(a, p));
        if p == found[i].path {
            assert(positions_in(now, p) =~= landed(before, p) + landings(a, p).push(
                found[i].range.start,
            ));
        }
    }
}

/// A request that tells of no references adds no places of references.
pub proof fn landed_pause(t: Seq<Event>, e: Event)
    requires
        !(e is References),
    ensures
        forall|p: Seq<Part>| #[trigger] landed(t.push(e), p) == landed(t, p),
{
    assert forall|p: Seq<Part>| #[trigger] landed(t.push(e), p) == landed(t, p) by {
        landed_next(t, e, p);
    }
}

/// Of references that were just told of, none has been looked at.
pub proof fn noted_at_first(
    v: Seq<(PathBuf, Vec<Position>)>,
    t: Seq<Event>,
    e: Event,
    goals: Set<Seq<Part>>,
)
    requires
        noted_in_order(v, t, goals),
        e is References,
        e->References_answer is Ok,
    ensures
        noted_so_far(v, t, e->References_answer->Ok_0, 0, goals),
        forall|p: Seq<Part>| #[trigger]
            landed(t.push(e), p) == landed(t, p) + landings(e->References_answer->Ok_0, p),
{
    let found = e->References_answer->Ok_0;
    assert forall|p: Seq<Part>| goals.contains(p) implies #[trigger] positions_in(v, p) == landed(
        t,
        p,
    ) + landings(found.take(0), p) by {
        assert(positions_in(v, p) =~= landed(t, p) + landings(found.take(0), p));
    }
    assert forall|p: Seq<Part>| #[trigger]
        landed(t.push(e), p) == landed(t, p) + landings(found, p) by {
        landed_next(t, e, p);
    }
}

} // verus!
