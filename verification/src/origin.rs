//! Which place led first to each place that a search comes to.
//!
//! Every request of a search that succeeds may lead from one place to others: from a symbol
//! to its declaration, to a reference in a goal, or to a symbol around a reference. A search
//! enters a place when it first comes to it, so the entry names the place that the earliest
//! of those requests led from.

use crate::bfs::{has_key, hits_at, with_link, Event, Link, Spot};
use crate::path::Part;
use crate::symbols::has_position;
use crate::types::Site;
use vstd::prelude::*;

verus! {

/// The first reference from `i` on that stands in no goal, or the number of references.
pub open spec fn next_site(found: Seq<Site>, goals: Set<Seq<Part>>, i: int) -> int
    decreases found.len() - i,
{
    if i < found.len() && goals.contains(found[i].path) {
        next_site(found, goals, i + 1)
    } else {
        i
    }
}

/// After the requests of `t`: the place whose references were asked for last, what was found,
/// and the reference whose file is the next to be outlined.
pub open spec fn at_work(t: Seq<Event>, goals: Set<Seq<Part>>) -> Option<(Spot, Seq<Site>, int)>
    decreases t.len(),
{
    if t.len() == 0 {
        None
    } else {
        match t.last() {
            Event::References { at, answer: Ok(found) } => Some(
                (at, found, next_site(found, goals, 0)),
            ),
            Event::Symbols { .. } => match at_work(t.drop_last(), goals) {
                Some(w) => Some((w.0, w.1, next_site(w.1, goals, w.2 + 1))),
                None => None,
            },
            _ => at_work(t.drop_last(), goals),
        }
    }
}

/// Whether one of the references from `i` on stands at a place.
pub open spec fn stands_at(found: Seq<Site>, i: int, n: Spot) -> bool {
    exists|s: int|
        i <= s < found.len() && (#[trigger] found[s]).path == n.0 && found[s].range.start == n.1
}

/// Whether a request after those of `t` leads from one place to another.
pub open spec fn led_by(
    t: Seq<Event>,
    e: Event,
    goals: Set<Seq<Part>>,
    m: Spot,
    n: Spot,
) -> bool {
    match e {
        Event::Declaration { at, answer: Ok(d) } => m == at && n == d,
        Event::References { at, answer: Ok(found) } => m == at && goals.contains(n.0) && stands_at(
            found,
            0,
            n,
        ),
        Event::Symbols { file, answer: Ok(syms) } => match at_work(t, goals) {
            Some((d, found, i)) => m == d && n.0 == file && i < found.len() && has_position(
                hits_at(syms, found[i].range.start.line),
                n.1,
            ),
            None => false,
        },
        _ => false,
    }
}

/// Whether the request at `k` leads from one place to another.
pub open spec fn leads(t: Seq<Event>, goals: Set<Seq<Part>>, k: int, m: Spot, n: Spot) -> bool {
    0 <= k < t.len() && led_by(t.take(k), t[k], goals, m, n)
}

/// Whether `m` is the place from which a request first led to `n`.
pub open spec fn first_led(t: Seq<Event>, goals: Set<Seq<Part>>, m: Spot, n: Spot) -> bool {
    exists|k: int| #[trigger]
        leads(t, goals, k, m, n) && forall|j: int, p: Spot|
            j < k ==> !(#[trigger] leads(t, goals, j, p, n))
}

/// Whether an entry names what led first to its place: nothing, for a start.
pub open spec fn names_origin(
    l: Link,
    t: Seq<Event>,
    starts: Seq<Spot>,
    goals: Set<Seq<Part>>,
) -> bool {
    match l.1 {
        None => starts.contains(l.0),
        Some(p) => !starts.contains(l.0) && first_led(t, goals, p, l.0),
    }
}

/// Whether parent pointers are those of the requests of `t`: the starts and all places that a
/// request led to have an entry, and each entry names what led there first.
pub open spec fn origins(
    ls: Seq<Link>,
    t: Seq<Event>,
    starts: Seq<Spot>,
    goals: Set<Seq<Part>>,
) -> bool {
    &&& forall|i: int| 0 <= i < ls.len() ==> names_origin(#[trigger] ls[i], t, starts, goals)
    &&& forall|n: Spot| #[trigger]
        has_key(ls, n) <==> (starts.contains(n) || exists|k: int, m: Spot| leads(t, goals, k, m, n))
}

/// The references to the place being worked on that are still to be looked at: all of them,
/// how many have been looked at, and the request that found them.
pub type Rest = Option<(Seq<Site>, int, int)>;

/// Whether the request at `k` led to a place in a goal that is still to be looked at.
pub open spec fn in_rest(rest: Rest, goals: Set<Seq<Part>>, k: int, n: Spot) -> bool {
    match rest {
        Some((found, i, r)) => k == r && goals.contains(n.0) && stands_at(found, i, n),
        None => false,
    }
}

/// What holds of parent pointers while references are being worked on.
pub open spec fn origins_but(
    ls: Seq<Link>,
    t: Seq<Event>,
    starts: Seq<Spot>,
    goals: Set<Seq<Part>>,
    rest: Rest,
) -> bool {
    &&& forall|i: int| 0 <= i < ls.len() ==> names_origin(#[trigger] ls[i], t, starts, goals)
    &&& forall|n: Spot| #[trigger] starts.contains(n) ==> has_key(ls, n)
    &&& forall|k: int, m: Spot, n: Spot| #[trigger]
        leads(t, goals, k, m, n) ==> has_key(ls, n) || in_rest(rest, goals, k, n)
}

/// Once all references have been worked on, nothing is left out.
pub proof fn origins_in_the_end(
    ls: Seq<Link>,
    t: Seq<Event>,
    starts: Seq<Spot>,
    goals: Set<Seq<Part>>,
)
    requires
        origins_but(ls, t, starts, goals, None),
    ensures
        origins(ls, t, starts, goals),
{
    assert forall|n: Spot| #[trigger] has_key(ls, n) <==> (starts.contains(n) || exists|
        k: int,
        m: Spot,
    | leads(t, goals, k, m, n)) by {
        if has_key(ls, n) {
            let i = choose|i: int| 0 <= i < ls.len() && (#[trigger] ls[i]).0 == n;
            assert(names_origin(ls[i], t, starts, goals));
        }
    }
}

/// A request more leaves what the earlier ones led to.
proof fn leads_stay(t: Seq<Event>, e: Event, goals: Set<Seq<Part>>)
    ensures
        forall|k: int, m: Spot, n: Spot| #[trigger]
            leads(t.push(e), goals, k, m, n) <==> if k == t.len() {
                led_by(t, e, goals, m, n)
            } else {
                leads(t, goals, k, m, n)
            },
{
    let u = t.push(e);
    assert forall|k: int, m: Spot, n: Spot| #[trigger]
        leads(u, goals, k, m, n) <==> if k == t.len() {
            led_by(t, e, goals, m, n)
        } else {
            leads(t, goals, k, m, n)
        } by {
        if k == t.len() {
            assert(u.take(k) =~= t);
        } else if 0 <= k < t.len() {
            assert(u.take(k) =~= t.take(k));
        }
    }
}

/// An entry that names what led first to its place goes on doing so.
proof fn origin_stays(
    l: Link,
    t: Seq<Event>,
    e: Event,
    starts: Seq<Spot>,
    goals: Set<Seq<Part>>,
)
    requires
        names_origin(l, t, starts, goals),
    ensures
        names_origin(l, t.push(e), starts, goals),
{
    leads_stay(t, e, goals);
    if let Some(p) = l.1 {
        let k = choose|k: int| #[trigger]
            leads(t, goals, k, p, l.0) && forall|j: int, q: Spot|
                j < k ==> !(#[trigger] leads(t, goals, j, q, l.0));
        assert(leads(t.push(e), goals, k, p, l.0));
    }
}

/// One more request: `more` are the entries after it, and `left` what is then still to be
/// looked at.
pub proof fn origins_step(
    ls: Seq<Link>,
    t: Seq<Event>,
    e: Event,
    starts: Seq<Spot>,
    goals: Set<Seq<Part>>,
    rest: Rest,
    more: Seq<Link>,
    left: Rest,
)
    requires
        origins_but(ls, t, starts, goals, rest),
        ls.is_prefix_of(more),
        forall|i: int|
            ls.len() <= i < more.len() ==> match (#[trigger] more[i]).1 {
                Some(p) => led_by(t, e, goals, p, more[i].0) && !has_key(ls, more[i].0),
                None => false,
            },
        rest is Some ==> forall|i: int|
            ls.len() <= i < more.len() ==> !goals.contains((#[trigger] more[i]).0.0),
        forall|m: Spot, n: Spot| #[trigger]
            led_by(t, e, goals, m, n) ==> has_key(more, n) || in_rest(
                left,
                goals,
                t.len() as int,
                n,
            ),
        forall|k: int, n: Spot|
            k < t.len() && #[trigger] in_rest(rest, goals, k, n) ==> in_rest(left, goals, k, n),
    ensures
        origins_but(more, t.push(e), starts, goals, left),
{
    let u = t.push(e);
    leads_stay(t, e, goals);
    assert forall|n: Spot| #[trigger] has_key(ls, n) implies has_key(more, n) by {
        let i = choose|i: int| 0 <= i < ls.len() && (#[trigger] ls[i]).0 == n;
        assert(more[i].0 == n);
    }
    assert forall|i: int| 0 <= i < more.len() implies names_origin(
        #[trigger] more[i],
        u,
        starts,
        goals,
    ) by {
        if i < ls.len() {
            assert(more[i] == ls[i]);
            origin_stays(ls[i], t, e, starts, goals);
        } else {
            let p = more[i].1.unwrap();
            let n = more[i].0;
            assert(leads(u, goals, t.len() as int, p, n));
            assert forall|j: int, q: Spot| j < t.len() implies !(#[trigger] leads(
                u,
                goals,
                j,
                q,
                n,
            )) by {
                if leads(u, goals, j, q, n) {
                    assert(leads(t, goals, j, q, n));
                }
            }
        }
    }
    assert forall|k: int, m: Spot, n: Spot| #[trigger] leads(u, goals, k, m, n) implies has_key(
        more,
        n,
    ) || in_rest(left, goals, k, n) by {
        if k == t.len() {
            assert(led_by(t, e, goals, m, n));
        } else {
            assert(leads(t, goals, k, m, n));
        }
    }
}

/// A request that leads nowhere changes nothing.
pub proof fn origins_pause(
    ls: Seq<Link>,
    t: Seq<Event>,
    e: Event,
    starts: Seq<Spot>,
    goals: Set<Seq<Part>>,
    rest: Rest,
)
    requires
        origins_but(ls, t, starts, goals, rest),
        e is Open,
    ensures
        origins_but(ls, t.push(e), starts, goals, rest),
        at_work(t.push(e), goals) == at_work(t, goals),
{
    origins_step(ls, t, e, starts, goals, rest, ls, rest);
    assert(t.push(e).drop_last() =~= t);
}

/// A declaration leads from a place to it.
pub proof fn origins_declared(
    ls: Seq<Link>,
    t: Seq<Event>,
    starts: Seq<Spot>,
    goals: Set<Seq<Part>>,
    n: Spot,
    d: Spot,
)
    requires
        origins_but(ls, t, starts, goals, None),
    ensures
        origins_but(
            with_link(ls, d, Some(n)),
            t.push(Event::Declaration { at: n, answer: Ok(d) }),
            starts,
            goals,
            None,
        ),
{
    let more = with_link(ls, d, Some(n));
    assert(has_key(more, d)) by {
        if !has_key(ls, d) {
            assert(more[ls.len() as int].0 == d);
        }
    }
    origins_step(
        ls,
        t,
        Event::Declaration { at: n, answer: Ok(d) },
        starts,
        goals,
        None,
        more,
        None,
    );
}

/// References lead to goals, which are still to be looked at.
pub proof fn origins_referred(
    ls: Seq<Link>,
    t: Seq<Event>,
    starts: Seq<Spot>,
    goals: Set<Seq<Part>>,
    d: Spot,
    found: Seq<Site>,
)
    requires
        origins_but(ls, t, starts, goals, None),
    ensures
        ({
            let u = t.push(Event::References { at: d, answer: Ok(found) });
            &&& origins_but(ls, u, starts, goals, Some((found, 0, t.len() as int)))
            &&& at_work(u, goals) == Some((d, found, next_site(found, goals, 0)))
        }),
{
    let e = Event::References { at: d, answer: Ok(found) };
    origins_step(ls, t, e, starts, goals, None, ls, Some((found, 0, t.len() as int)));
}

/// A goal is looked at.
pub proof fn origins_at_goal(
    ls: Seq<Link>,
    t: Seq<Event>,
    starts: Seq<Spot>,
    goals: Set<Seq<Part>>,
    d: Spot,
    found: Seq<Site>,
    i: int,
    r: int,
)
    requires
        origins_but(ls, t, starts, goals, Some((found, i, r))),
        0 <= i < found.len(),
        goals.contains(found[i].path),
        0 <= r < t.len(),
        t[r] == (Event::References { at: d, answer: Ok(found) }),
    ensures
        origins_but(
            with_link(ls, (found[i].path, found[i].range.start), Some(d)),
            t,
            starts,
            goals,
            Some((found, i + 1, r)),
        ),
        next_site(found, goals, i) == next_site(found, goals, i + 1),
{
    let n = (found[i].path, found[i].range.start);
    let more = with_link(ls, n, Some(d));
    assert forall|x: Spot| has_key(ls, x) || x == n implies #[trigger] has_key(more, x) by {
        if has_key(ls, x) {
            let j = choose|j: int| 0 <= j < ls.len() && (#[trigger] ls[j]).0 == x;
            assert(more[j].0 == x);
        } else {
            assert(more[ls.len() as int].0 == x);
        }
    }
    assert forall|j: int| 0 <= j < more.len() implies names_origin(
        #[trigger] more[j],
        t,
        starts,
        goals,
    ) by {
        if j < ls.len() {
            assert(more[j] == ls[j]);
        } else {
            assert(stands_at(found, 0, n));
            assert(leads(t, goals, r, d, n));
            assert forall|b: int, q: Spot| b < r implies !(#[trigger] leads(t, goals, b, q, n)) by {
            }
        }
    }
    assert forall|k: int, m: Spot, x: Spot| #[trigger] leads(t, goals, k, m, x) implies has_key(
        more,
        x,
    ) || in_rest(Some((found, i + 1, r)), goals, k, x) by {
        if !has_key(ls, x) && x != n {
            let s = choose|s: int|
                i <= s < found.len() && (#[trigger] found[s]).path == x.0 && found[s].range.start
                    == x.1;
            assert(s != i);
            assert(stands_at(found, i + 1, x));
        }
    }
}

/// Whether `more` are entries with some of the places of `row` added, all from one place.
pub open spec fn extended(ls: Seq<Link>, more: Seq<Link>, row: Seq<Spot>, from: Spot) -> bool {
    &&& ls.is_prefix_of(more)
    &&& forall|i: int|
        ls.len() <= i < more.len() ==> (#[trigger] more[i]).1 == Some(from) && row.contains(
            more[i].0,
        ) && !has_key(ls, more[i].0)
    &&& forall|n: Spot| #[trigger] row.contains(n) ==> has_key(more, n)
}

/// A reference that stands in no goal is looked at.
pub proof fn origins_outlined(
    ls: Seq<Link>,
    t: Seq<Event>,
    e: Event,
    starts: Seq<Spot>,
    goals: Set<Seq<Part>>,
    d: Spot,
    found: Seq<Site>,
    i: int,
    r: int,
    row: Seq<Spot>,
    more: Seq<Link>,
)
    requires
        origins_but(ls, t, starts, goals, Some((found, i, r))),
        0 <= i < found.len(),
        !goals.contains(found[i].path),
        at_work(t, goals) == Some((d, found, next_site(found, goals, i))),
        extended(ls, more, row, d),
        e matches Event::Symbols { file, answer: Ok(syms) } && file == found[i].path && forall|
            n: Spot,
        | #[trigger]
            row.contains(n) <==> n.0 == file && has_position(
                hits_at(syms, found[i].range.start.line),
                n.1,
            ),
    ensures
        origins_but(more, t.push(e), starts, goals, Some((found, i + 1, r))),
        at_work(t.push(e), goals) == Some((d, found, next_site(found, goals, i + 1))),
{
    assert(next_site(found, goals, i) == i);
    assert(t.push(e).drop_last() =~= t);
    assert forall|i2: int| ls.len() <= i2 < more.len() implies !goals.contains(
        (#[trigger] more[i2]).0.0,
    ) by {
        assert(row.contains(more[i2].0));
    }
    assert forall|k: int, n: Spot|
        k < t.len() && #[trigger] in_rest(Some((found, i, r)), goals, k, n) implies in_rest(
        Some((found, i + 1, r)),
        goals,
        k,
        n,
    ) by {
        let s = choose|s: int|
            i <= s < found.len() && (#[trigger] found[s]).path == n.0 && found[s].range.start
                == n.1;
        assert(s != i);
    }
    assert forall|m: Spot, n: Spot| #[trigger] led_by(t, e, goals, m, n) implies has_key(
        more,
        n,
    ) by {
        assert(row.contains(n));
    }
    origins_step(
        ls,
        t,
        e,
        starts,
        goals,
        Some((found, i, r)),
        more,
        Some((found, i + 1, r)),
    );
}

/// Once the last reference has been looked at, nothing is left.
pub proof fn origins_done(
    ls: Seq<Link>,
    t: Seq<Event>,
    starts: Seq<Spot>,
    goals: Set<Seq<Part>>,
    found: Seq<Site>,
    r: int,
)
    requires
        origins_but(ls, t, starts, goals, Some((found, found.len() as int, r))),
    ensures
        origins_but(ls, t, starts, goals, None),
{
}

/// A place that is no start, and that a declaration led to before any other request did, names
/// the place that was asked about.
pub proof fn declarations_lead_to_entries(
    ls: Seq<Link>,
    t: Seq<Event>,
    starts: Seq<Spot>,
    goals: Set<Seq<Part>>,
    k: int,
    m: Spot,
    n: Spot,
)
    requires
        origins(ls, t, starts, goals),
        0 <= k < t.len(),
        t[k] == (Event::Declaration { at: m, answer: Ok(n) }),
        !starts.contains(n),
        forall|j: int, p: Spot| j < k ==> !(#[trigger] leads(t, goals, j, p, n)),
    ensures
        exists|i: int| 0 <= i < ls.len() && #[trigger] ls[i] == (n, Some(m)),
{
    assert(leads(t, goals, k, m, n));
    entry_names_the_first(ls, t, starts, goals, k, m, n);
}

/// A place in a goal that is no start, and that a reference to `m` led to before any other
/// request did, names `m`.
pub proof fn references_lead_to_entries(
    ls: Seq<Link>,
    t: Seq<Event>,
    starts: Seq<Spot>,
    goals: Set<Seq<Part>>,
    k: int,
    m: Spot,
    found: Seq<Site>,
    s: int,
)
    requires
        origins(ls, t, starts, goals),
        0 <= k < t.len(),
        t[k] == (Event::References { at: m, answer: Ok(found) }),
        0 <= s < found.len(),
        goals.contains(found[s].path),
        !starts.contains((found[s].path, found[s].range.start)),
        forall|j: int, p: Spot|
            j < k ==> !(#[trigger] leads(
                t,
                goals,
                j,
                p,
                (found[s].path, found[s].range.start),
            )),
    ensures
        exists|i: int|
            0 <= i < ls.len() && #[trigger] ls[i] == (
                (found[s].path, found[s].range.start),
                Some(m),
            ),
{
    let n = (found[s].path, found[s].range.start);
    assert(stands_at(found, 0, n));
    assert(leads(t, goals, k, m, n));
    entry_names_the_first(ls, t, starts, goals, k, m, n);
}

proof fn entry_names_the_first(
    ls: Seq<Link>,
    t: Seq<Event>,
    starts: Seq<Spot>,
    goals: Set<Seq<Part>>,
    k: int,
    m: Spot,
    n: Spot,
)
    requires
        origins(ls, t, starts, goals),
        leads(t, goals, k, m, n),
        !starts.contains(n),
        forall|j: int, p: Spot| j < k ==> !(#[trigger] leads(t, goals, j, p, n)),
    ensures
        exists|i: int| 0 <= i < ls.len() && #[trigger] ls[i] == (n, Some(m)),
{
    assert(has_key(ls, n));
    let i = choose|i: int| 0 <= i < ls.len() && (#[trigger] ls[i]).0 == n;
    assert(names_origin(ls[i], t, starts, goals));
    let p = ls[i].1->0;
    let j = choose|j: int| #[trigger]
        leads(t, goals, j, p, n) && forall|b: int, q: Spot|
            b < j ==> !(#[trigger] leads(t, goals, b, q, n));
    assert(!(j < k));
    assert(!(k < j));
    assert(ls[i] == (n, Some(m)));
}

/// Nothing led to a start: its entry names no origin, and every entry without one is a start.
pub proof fn starts_have_no_origin(
    ls: Seq<Link>,
    t: Seq<Event>,
    starts: Seq<Spot>,
    goals: Set<Seq<Part>>,
    i: int,
)
    requires
        origins(ls, t, starts, goals),
        0 <= i < ls.len(),
    ensures
        ls[i].1 is None <==> starts.contains(ls[i].0),
{
    assert(names_origin(ls[i], t, starts, goals));
}

} // verus!
