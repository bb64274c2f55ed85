//! Rows in alphabetical order. What bears the same name stays in the order in which it came.

use crate::order::views;
use crate::path::{text_before, text_is_before, text_order_laws};
use vstd::prelude::*;

verus! {

/// Values that bear a name.
pub trait Named: View + Sized {
    /// The name of a value.
    spec fn name(v: Self::V) -> Seq<char>;

    /// The name of this value.
    fn name_text(&self) -> (r: &str)
        ensures
            r@ == Self::name(self@),
    ;
}

/// A row with a value put in, behind all that does not come after it.
pub open spec fn placed<T: Named>(row: Seq<T::V>, x: T::V) -> Seq<T::V>
    decreases row.len(),
{
    if row.len() == 0 || !text_before(T::name(x), T::name(row.last())) {
        row.push(x)
    } else {
        placed::<T>(row.drop_last(), x).push(row.last())
    }
}

/// A row in alphabetical order.
pub open spec fn by_name<T: Named>(row: Seq<T::V>) -> Seq<T::V>
    decreases row.len(),
{
    if row.len() == 0 {
        Seq::empty()
    } else {
        placed::<T>(by_name::<T>(row.drop_last()), row.last())
    }
}

proof fn placed_at<T: Named>(row: Seq<T::V>, x: T::V, i: int)
    requires
        0 <= i <= row.len(),
        i > 0 ==> !text_before(T::name(x), T::name(row[i - 1])),
        forall|j: int| i <= j < row.len() ==> text_before(T::name(x), T::name(#[trigger] row[j])),
    ensures
        placed::<T>(row, x) == row.insert(i, x),
    decreases row.len(),
{
    if i == row.len() {
        assert(row.insert(i, x) =~= row.push(x));
    } else {
        assert(text_before(T::name(x), T::name(row[row.len() - 1])));
        placed_at::<T>(row.drop_last(), x, i);
        assert(row.insert(i, x) =~= row.drop_last().insert(i, x).push(row.last()));
    }
}

/// Puts a value into a row, behind all that does not come after it.
fn place<T: Named>(v: &mut Vec<T>, x: T)
    ensures
        views(final(v)@) == placed::<T>(views(old(v)@), x@),
{
    let ghost row = views(v@);
    let ghost had = v@;
    let ghost y = x@;
    let mut i: usize = v.len();
    while i > 0 && text_is_before(x.name_text(), v[i - 1].name_text())
        invariant
            i <= v@.len(),
            v@ == had,
            row == views(had),
            y == x@,
            forall|j: int| i <= j < row.len() ==> text_before(T::name(y), T::name(#[trigger] row[j])),
        decreases i,
    {
        i = i - 1;
        assert(row[i as int] == v@[i as int]@);
    }
    proof {
        if i > 0 {
            assert(row[i - 1] == had[i - 1]@);
        }
        placed_at::<T>(row, y, i as int);
    }
    v.insert(i, x);
    assert(views(v@) =~= row.insert(i as int, y));
}

/// Puts a row in alphabetical order.
pub fn sort_by_name<T: Named>(row: Vec<T>) -> (out: Vec<T>)
    ensures
        views(out@) == by_name::<T>(views(row@)),
{
    let ghost all = views(row@);
    let mut rest = row;
    let mut out: Vec<T> = Vec::new();
    let ghost mut done: int = 0;
    proof {
        assert(all.take(0) =~= Seq::<T::V>::empty());
        assert(views(out@) =~= Seq::<T::V>::empty());
        assert(views(rest@) =~= all.skip(0));
    }
    while rest.len() > 0
        invariant
            0 <= done <= all.len(),
            views(rest@) == all.skip(done),
            rest@.len() == all.len() - done,
            views(out@) == by_name::<T>(all.take(done)),
        decreases rest.len(),
    {
        let ghost before = rest@;
        let x = rest.remove(0);
        proof {
            assert(views(before)[0] == x@);
            assert(all.skip(done)[0] == all[done]);
            assert(all.take(done + 1).drop_last() =~= all.take(done));
            assert(all.take(done + 1).last() == all[done]);
            assert(views(rest@) =~= views(before).skip(1));
            assert(all.skip(done).skip(1) =~= all.skip(done + 1));
            done = done + 1;
        }
        place(&mut out, x);
    }
    assert(all.take(done) =~= all);
    out
}

/// Whether a row is in alphabetical order.
pub open spec fn ascends<T: Named>(row: Seq<T::V>) -> bool {
    forall|i: int, j: int|
        0 <= i < j < row.len() ==> !text_before(T::name(#[trigger] row[j]), T::name(#[trigger] row[i]))
}

/// The values of a row that bear a name, in order.
pub open spec fn bearing<T: Named>(row: Seq<T::V>, name: Seq<char>) -> Seq<T::V>
    decreases row.len(),
{
    if row.len() == 0 {
        Seq::empty()
    } else if T::name(row.last()) == name {
        bearing::<T>(row.drop_last(), name).push(row.last())
    } else {
        bearing::<T>(row.drop_last(), name)
    }
}

proof fn placed_keeps<T: Named>(row: Seq<T::V>, x: T::V, name: Seq<char>)
    requires
        ascends::<T>(row),
    ensures
        ascends::<T>(placed::<T>(row, x)),
        placed::<T>(row, x).to_multiset() == row.to_multiset().insert(x),
        bearing::<T>(placed::<T>(row, x), name) == if T::name(x) == name {
            bearing::<T>(row, name).push(x)
        } else {
            bearing::<T>(row, name)
        },
        forall|y: T::V| #[trigger]
            placed::<T>(row, x).contains(y) ==> y == x || row.contains(y),
    decreases row.len(),
{
    broadcast use vstd::seq_lib::group_to_multiset_ensures;

    let p = placed::<T>(row, x);
    if row.len() == 0 || !text_before(T::name(x), T::name(row.last())) {
        assert(p.drop_last() =~= row);
        assert forall|i: int, j: int| 0 <= i < j < p.len() implies !text_before(
            T::name(#[trigger] p[j]),
            T::name(#[trigger] p[i]),
        ) by {
            if j == row.len() {
                let last = row.last();
                if i < row.len() - 1 {
                    assert(!text_before(T::name(row[row.len() - 1]), T::name(row[i])));
                }
                text_order_laws(T::name(x), T::name(row[i]), T::name(last));
                text_order_laws(T::name(x), T::name(last), T::name(row[i]));
                text_order_laws(T::name(row[i]), T::name(last), T::name(x));
            } else {
                assert(p[i] == row[i] && p[j] == row[j]);
            }
        }
    } else {
        let front = row.drop_last();
        let q = placed::<T>(front, x);
        assert forall|i: int, j: int| 0 <= i < j < front.len() implies !text_before(
            T::name(#[trigger] front[j]),
            T::name(#[trigger] front[i]),
        ) by {
            assert(front[i] == row[i] && front[j] == row[j]);
        }
        placed_keeps::<T>(front, x, name);
        assert(p.drop_last() =~= q);
        assert(row =~= front.push(row.last()));
        assert forall|i: int, j: int| 0 <= i < j < p.len() implies !text_before(
            T::name(#[trigger] p[j]),
            T::name(#[trigger] p[i]),
        ) by {
            if j == q.len() {
                assert(q.contains(q[i]));
                assert(p[i] == q[i]);
                if q[i] == x {
                    text_order_laws(T::name(x), T::name(row.last()), T::name(x));
                } else {
                    let k = choose|k: int| 0 <= k < front.len() && front[k] == q[i];
                    assert(row[k] == q[i]);
                    assert(!text_before(T::name(row[row.len() - 1]), T::name(row[k])));
                }
            } else {
                assert(p[i] == q[i] && p[j] == q[j]);
            }
        }
        text_order_laws(T::name(x), T::name(row.last()), T::name(x));
        assert(p.to_multiset() =~= row.to_multiset().insert(x));
        assert forall|y: T::V| #[trigger] p.contains(y) implies y == x || row.contains(y) by {
            let k = choose|k: int| 0 <= k < p.len() && p[k] == y;
            if k == q.len() {
                assert(row[row.len() - 1] == y);
            } else {
                assert(q.contains(y));
                if y != x {
                    let j = choose|j: int| 0 <= j < front.len() && front[j] == y;
                    assert(row[j] == y);
                }
            }
        }
    }
}

/// A row in alphabetical order holds what the row held, ascending; what bears the same name
/// stands in the order in which it came.
pub proof fn sorting_keeps_all_and_is_stable<T: Named>(row: Seq<T::V>, name: Seq<char>)
    ensures
        ascends::<T>(by_name::<T>(row)),
        by_name::<T>(row).to_multiset() == row.to_multiset(),
        bearing::<T>(by_name::<T>(row), name) == bearing::<T>(row, name),
    decreases row.len(),
{
    broadcast use vstd::seq_lib::group_to_multiset_ensures;

    if row.len() > 0 {
        sorting_keeps_all_and_is_stable::<T>(row.drop_last(), name);
        placed_keeps::<T>(by_name::<T>(row.drop_last()), row.last(), name);
        assert(row =~= row.drop_last().push(row.last()));
    }
}

proof fn placed_mapped<T: Named, U>(row: Seq<T::V>, x: T::V, f: spec_fn(T::V) -> U)
    ensures
        placed::<T>(row, x).map_values(f).to_multiset() == row.map_values(f).to_multiset().insert(
            f(x),
        ),
    decreases row.len(),
{
    broadcast use vstd::seq_lib::group_to_multiset_ensures;

    if row.len() == 0 || !text_before(T::name(x), T::name(row.last())) {
        assert(row.push(x).map_values(f) =~= row.map_values(f).push(f(x)));
    } else {
        let front = row.drop_last();
        placed_mapped::<T, U>(front, x, f);
        assert(placed::<T>(row, x).map_values(f) =~= placed::<T>(front, x).map_values(f).push(
            f(row.last()),
        ));
        assert(row.map_values(f) =~= front.map_values(f).push(f(row.last())));
        assert(placed::<T>(row, x).map_values(f).to_multiset() =~= row.map_values(
            f,
        ).to_multiset().insert(f(x)));
    }
}

/// Sorting keeps all that is read off the values, as often as it occurs.
pub proof fn sorting_keeps_what_is_read_off<T: Named, U>(row: Seq<T::V>, f: spec_fn(T::V) -> U)
    ensures
        by_name::<T>(row).map_values(f).to_multiset() == row.map_values(f).to_multiset(),
    decreases row.len(),
{
    broadcast use vstd::seq_lib::group_to_multiset_ensures;

    if row.len() == 0 {
        assert(by_name::<T>(row) =~= row);
    } else {
        let front = row.drop_last();
        sorting_keeps_what_is_read_off::<T, U>(front, f);
        placed_mapped::<T, U>(by_name::<T>(front), row.last(), f);
        assert(row.map_values(f) =~= front.map_values(f).push(f(row.last())));
    }
}

} // verus!
