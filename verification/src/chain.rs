//! The chain of places that led to a place.

use crate::bfs::{has_key, led, linked, links, spot, spots, Event, Link, ParentMap, Spot};
use crate::origin::{first_led, names_origin, origins};
use crate::path::{Part, PathBuf};
use crate::types::Position;
use vstd::prelude::*;

verus! {

/// The longest chain that is followed.
pub const CHAIN_LIMIT: usize = 101;

/// What led to a place, where that is entered.
pub open spec fn parent_of(ls: Seq<Link>, n: Spot) -> Option<Spot>
    decreases ls.len(),
{
    if ls.len() == 0 {
        None
    } else if ls[0].0 == n {
        ls[0].1
    } else {
        parent_of(ls.drop_first(), n)
    }
}

/// The places that led to a place, the nearest first, up to a number of them.
pub open spec fn chain(ls: Seq<Link>, n: Spot, limit: nat) -> Seq<Spot>
    decreases limit,
{
    if limit == 0 {
        Seq::empty()
    } else {
        match parent_of(ls, n) {
            None => Seq::empty(),
            Some(p) => seq![p] + chain(ls, p, (limit - 1) as nat),
        }
    }
}

/// The parent of a place is that of its entry.
proof fn parent_found(ls: Seq<Link>, n: Spot)
    ensures
        match parent_of(ls, n) {
            Some(p) => exists|i: int|
                0 <= i < ls.len() && (#[trigger] ls[i]).0 == n && ls[i].1 == Some(p),
            None => !has_key(ls, n) || exists|i: int|
                0 <= i < ls.len() && (#[trigger] ls[i]).0 == n && ls[i].1 is None,
        },
    decreases ls.len(),
{
    if ls.len() > 0 && ls[0].0 != n {
        let rest = ls.drop_first();
        parent_found(rest, n);
        match parent_of(rest, n) {
            Some(p) => {
                let i = choose|i: int|
                    0 <= i < rest.len() && (#[trigger] rest[i]).0 == n && rest[i].1 == Some(p);
                assert(ls[i + 1] == rest[i]);
            },
            None => {
                if has_key(ls, n) {
                    let k = choose|k: int| 0 <= k < ls.len() && (#[trigger] ls[k]).0 == n;
                    assert(rest[k - 1] == ls[k]);
                    assert(has_key(rest, n));
                    let i = choose|i: int|
                        0 <= i < rest.len() && (#[trigger] rest[i]).0 == n && rest[i].1 is None;
                    assert(ls[i + 1] == rest[i]);
                }
            },
        }
    }
}

/// A copy of what led to a place, where that is entered.
fn parent(parents: &ParentMap, file: &PathBuf, pos: Position) -> (r: Option<(PathBuf, Position)>)
    ensures
        match r {
            Some(p) => parent_of(links(parents@), (file@, pos)) == Some(spot(p)),
            None => parent_of(links(parents@), (file@, pos)) is None,
        },
{
    let ghost ls = links(parents@);
    let ghost n = (file@, pos);
    let mut i: usize = 0;
    assert(ls.skip(0) =~= ls);
    while i < parents.len()
        invariant
            i <= parents@.len(),
            ls == links(parents@),
            n == (file@, pos),
            parent_of(ls, n) == parent_of(ls.skip(i as int), n),
        decreases parents.len() - i,
    {
        let key = &parents[i].0;
        proof {
            assert(ls.skip(i as int)[0] == ls[i as int]);
            assert(ls[i as int].0 == spot(*key));
            assert(ls.skip(i as int).drop_first() =~= ls.skip(i + 1));
        }
        if key.1 == pos && key.0.same(file) {
            return match &parents[i].1 {
                Some(p) => Some((p.0.clone(), p.1)),
                None => None,
            };
        }
        i = i + 1;
    }
    None
}

/// The places that led to a place, the nearest first, at most [`CHAIN_LIMIT`] of them.
pub fn walk_parents(parents: &ParentMap, start: (PathBuf, Position)) -> (out: Vec<
    (PathBuf, Position),
>)
    ensures
        spots(out@) == chain(links(parents@), spot(start), CHAIN_LIMIT as nat),
{
    let ghost ls = links(parents@);
    let ghost whole = chain(ls, spot(start), CHAIN_LIMIT as nat);
    let mut out: Vec<(PathBuf, Position)> = Vec::new();
    let mut left: usize = CHAIN_LIMIT;
    let mut current = start;
    assert(spots(out@) + whole =~= whole);
    while left > 0
        invariant
            ls == links(parents@),
            whole == chain(ls, spot(start), CHAIN_LIMIT as nat),
            spots(out@) + chain(ls, spot(current), left as nat) == whole,
        decreases left,
    {
        match parent(parents, &current.0, current.1) {
            None => {
                assert(spots(out@) + Seq::<Spot>::empty() =~= spots(out@));
                return out;
            },
            Some(p) => {
                let ghost had = out@;
                let ghost rest = chain(ls, spot(p), (left - 1) as nat);
                out.push((p.0.clone(), p.1));
                proof {
                    assert(spots(out@) =~= spots(had).push(spot(p)));
                    assert(spots(out@) + rest =~= spots(had) + (seq![spot(p)] + rest));
                }
                current = p;
                left = left - 1;
            },
        }
    }
    assert(spots(out@) + Seq::<Spot>::empty() =~= spots(out@));
    out
}

/// The entry of a place in sound parent pointers.
proof fn entry_of(
    ls: Seq<Link>,
    t: Seq<Event>,
    starts: Seq<Spot>,
    goals: Set<Seq<Part>>,
    n: Spot,
    i: int,
)
    requires
        linked(ls, t, starts, goals),
        0 <= i < ls.len(),
        ls[i].0 == n,
    ensures
        parent_of(ls, n) == ls[i].1,
        match parent_of(ls, n) {
            None => starts.contains(n),
            Some(p) => led(t, goals, p, n) && exists|j: int|
                0 <= j < i && (#[trigger] ls[j]).0 == p,
        },
{
    parent_found(ls, n);
    assert(has_key(ls, n));
    let k = choose|k: int|
        0 <= k < ls.len() && (#[trigger] ls[k]).0 == n && ls[k].1 == parent_of(ls, n);
    assert(exists|k: int|
        0 <= k < ls.len() && (#[trigger] ls[k]).0 == n && ls[k].1 == parent_of(ls, n));
    if k < i {
        assert(ls[k].0 != ls[i].0);
    } else if i < k {
        assert(ls[i].0 != ls[k].0);
    }
}

/// A chain leads back to a start, unless it is cut: every place in it led to the one before,
/// and what has no parent is a start. It is never longer than the number of entries.
pub proof fn chain_leads_to_start(
    ls: Seq<Link>,
    t: Seq<Event>,
    starts: Seq<Spot>,
    goals: Set<Seq<Part>>,
    n: Spot,
    limit: nat,
)
    requires
        linked(ls, t, starts, goals),
        has_key(ls, n),
    ensures
        chain(ls, n, limit).len() < ls.len(),
        chain(ls, n, limit).len() < limit ==> starts.contains((seq![n] + chain(ls, n, limit)).last()),
        forall|k: int|
            0 <= k < chain(ls, n, limit).len() ==> led(
                t,
                goals,
                #[trigger] chain(ls, n, limit)[k],
                (seq![n] + chain(ls, n, limit))[k],
            ),
{
    let i = choose|i: int| 0 <= i < ls.len() && (#[trigger] ls[i]).0 == n;
    chain_from(ls, t, starts, goals, n, i, limit);
}

proof fn chain_from(
    ls: Seq<Link>,
    t: Seq<Event>,
    starts: Seq<Spot>,
    goals: Set<Seq<Part>>,
    n: Spot,
    i: int,
    limit: nat,
)
    requires
        linked(ls, t, starts, goals),
        0 <= i < ls.len(),
        ls[i].0 == n,
    ensures
        chain(ls, n, limit).len() <= i,
        chain(ls, n, limit).len() < limit ==> starts.contains((seq![n] + chain(ls, n, limit)).last()),
        forall|k: int|
            0 <= k < chain(ls, n, limit).len() ==> led(
                t,
                goals,
                #[trigger] chain(ls, n, limit)[k],
                (seq![n] + chain(ls, n, limit))[k],
            ),
    decreases limit,
{
    entry_of(ls, t, starts, goals, n, i);
    let c = chain(ls, n, limit);
    let whole = seq![n] + c;
    if limit > 0 {
        if let Some(p) = parent_of(ls, n) {
            let j = choose|j: int| 0 <= j < i && (#[trigger] ls[j]).0 == p;
            chain_from(ls, t, starts, goals, p, j, (limit - 1) as nat);
            let rest = chain(ls, p, (limit - 1) as nat);
            assert(c == seq![p] + rest);
            assert(whole.last() == (seq![p] + rest).last());
            assert forall|k: int| 0 <= k < c.len() implies led(
                t,
                goals,
                #[trigger] c[k],
                whole[k],
            ) by {
                if k > 0 {
                    assert(c[k] == rest[k - 1]);
                    assert(whole[k] == (seq![p] + rest)[k - 1]);
                }
            }
        } else {
            assert(whole.last() == n);
        }
    }
}

/// A chain goes back by what led first: every place in it is the one from which a request
/// first led to the place before.
pub proof fn chain_goes_by_first_leads(
    ls: Seq<Link>,
    t: Seq<Event>,
    starts: Seq<Spot>,
    goals: Set<Seq<Part>>,
    n: Spot,
    limit: nat,
)
    requires
        origins(ls, t, starts, goals),
    ensures
        forall|k: int|
            0 <= k < chain(ls, n, limit).len() ==> first_led(
                t,
                goals,
                #[trigger] chain(ls, n, limit)[k],
                (seq![n] + chain(ls, n, limit))[k],
            ),
    decreases limit,
{
    let c = chain(ls, n, limit);
    let whole = seq![n] + c;
    parent_found(ls, n);
    if limit > 0 {
        if let Some(p) = parent_of(ls, n) {
            let i = choose|i: int|
                0 <= i < ls.len() && (#[trigger] ls[i]).0 == n && ls[i].1 == Some(p);
            assert(names_origin(ls[i], t, starts, goals));
            chain_goes_by_first_leads(ls, t, starts, goals, p, (limit - 1) as nat);
            let rest = chain(ls, p, (limit - 1) as nat);
            assert(c == seq![p] + rest);
            assert forall|k: int| 0 <= k < c.len() implies first_led(
                t,
                goals,
                #[trigger] c[k],
                whole[k],
            ) by {
                if k > 0 {
                    assert(c[k] == rest[k - 1]);
                    assert(whole[k] == (seq![p] + rest)[k - 1]);
                }
            }
        }
    }
}

/// A chain begins with what led to its place, goes on as the chain of that, and ends where
/// nothing led to a place.
pub proof fn a_chain_goes_on_from_its_first_place(ls: Seq<Link>, n: Spot, limit: nat, i: int)
    requires
        0 <= i < ls.len(),
        ls[i].0 == n,
        forall|j: int| 0 <= j < i ==> (#[trigger] ls[j]).0 != n,
        limit > 0,
    ensures
        match ls[i].1 {
            Some(p) => chain(ls, n, limit) == seq![p] + chain(ls, p, (limit - 1) as nat),
            None => chain(ls, n, limit).len() == 0,
        },
{
    first_entry_counts(ls, n, i);
}

proof fn first_entry_counts(ls: Seq<Link>, n: Spot, i: int)
    requires
        0 <= i < ls.len(),
        ls[i].0 == n,
        forall|j: int| 0 <= j < i ==> (#[trigger] ls[j]).0 != n,
    ensures
        parent_of(ls, n) == ls[i].1,
    decreases ls.len(),
{
    if i > 0 {
        let rest = ls.drop_first();
        assert(ls[0].0 != n);
        assert forall|j: int| 0 <= j < i - 1 implies (#[trigger] rest[j]).0 != n by {
            assert(rest[j] == ls[j + 1]);
        }
        first_entry_counts(rest, n, i - 1);
    }
}

} // verus!
