//! Ordered sets, kept as ascending rows.

use vstd::prelude::*;

verus! {

/// Values that can be put in order.
pub trait Ranked: View + Sized {
    /// Whether one value comes before another.
    spec fn precedes(a: Self::V, b: Self::V) -> bool;

    /// The order is strict and total.
    proof fn precedes_laws(a: Self::V, b: Self::V, c: Self::V)
        ensures
            !Self::precedes(a, a),
            Self::precedes(a, b) ==> !Self::precedes(b, a),
            Self::precedes(a, b) || Self::precedes(b, a) || a == b,
            Self::precedes(a, b) && Self::precedes(b, c) ==> Self::precedes(a, c),
    ;

    /// Whether this value comes before another.
    fn is_before(&self, other: &Self) -> (r: bool)
        ensures
            r == Self::precedes(self@, other@),
    ;
}

/// A row of values, as contracts see it.
pub open spec fn views<T: View>(v: Seq<T>) -> Seq<T::V> {
    v.map_values(|x: T| x@)
}

/// Whether values are in ascending order, none twice.
pub open spec fn ranked<T: Ranked>(v: Seq<T::V>) -> bool {
    forall|i: int, j: int| 0 <= i < j < v.len() ==> T::precedes(#[trigger] v[i], #[trigger] v[j])
}

/// Puts a value into an ascending row, unless it is there.
pub fn insert_ranked<T: Ranked>(v: &mut Vec<T>, x: T)
    requires
        ranked::<T>(views(old(v)@)),
    ensures
        ranked::<T>(views(final(v)@)),
        views(final(v)@).to_set() =~= views(old(v)@).to_set().insert(x@),
        forall|i: int|
            0 <= i < final(v)@.len() ==> old(v)@.contains(#[trigger] final(v)@[i]) || final(v)@[i]
                == x,
{
    let ghost before = views(v@);
    let ghost had = v@;
    let ghost y = x@;
    let mut i: usize = v.len();
    while i > 0 && x.is_before(&v[i - 1])
        invariant
            i <= v@.len(),
            v@ == had,
            before == views(had),
            y == x@,
            forall|j: int| i <= j < before.len() ==> T::precedes(y, #[trigger] before[j]),
        decreases i,
    {
        i = i - 1;
        assert(before[i as int] == v@[i as int]@);
    }
    if i > 0 && !v[i - 1].is_before(&x) {
        proof {
            assert(before[i - 1] == had[i - 1]@);
            T::precedes_laws(y, before[i - 1], y);
            assert(before[i - 1] == y);
            assert(before.to_set().contains(y));
        }
        return;
    }
    v.insert(i, x);
    proof {
        let after = views(v@);
        assert(after =~= before.insert(i as int, y));
        if i > 0 {
            assert(before[i - 1] == had[i - 1]@);
        }
        assert forall|a: int, b: int| 0 <= a < b < after.len() implies T::precedes(
            #[trigger] after[a],
            #[trigger] after[b],
        ) by {
            if b < i {
                assert(after[a] == before[a] && after[b] == before[b]);
            } else if b == i {
                assert(after[a] == before[a]);
                if a < i - 1 {
                    assert(T::precedes(before[a], before[i - 1]));
                    T::precedes_laws(before[a], before[i - 1], y);
                }
            } else if a < i {
                assert(after[a] == before[a] && after[b] == before[b - 1]);
            } else if a == i {
                assert(after[b] == before[b - 1]);
            } else {
                assert(after[a] == before[a - 1] && after[b] == before[b - 1]);
            }
        }
        assert forall|z: T::V| after.to_set().contains(z) <==> before.to_set().insert(y).contains(
            z,
        ) by {
            if before.contains(z) {
                let k = choose|k: int| 0 <= k < before.len() && before[k] == z;
                if k < i {
                    assert(after[k] == z);
                } else {
                    assert(after[k + 1] == z);
                }
            }
            if z == y {
                assert(after[i as int] == z);
            }
            if after.contains(z) {
                let k = choose|k: int| 0 <= k < after.len() && after[k] == z;
                if k < i {
                    assert(before[k] == z);
                } else if k > i {
                    assert(before[k - 1] == z);
                }
            }
        }
    }
}

/// Two ascending rows of the same values are the same row.
pub proof fn ranked_rows_are_unique<T: Ranked>(a: Seq<T::V>, b: Seq<T::V>)
    requires
        ranked::<T>(a),
        ranked::<T>(b),
        a.to_set() =~= b.to_set(),
    ensures
        a == b,
    decreases a.len() + b.len(),
{
    if a.len() == 0 {
        if b.len() > 0 {
            assert(b.to_set().contains(b[0]));
        }
        assert(a =~= b);
    } else if b.len() == 0 {
        assert(a.to_set().contains(a[0]));
    } else {
        let x = a.last();
        let y = b.last();
        assert(a.to_set().contains(x));
        assert(b.to_set().contains(y));
        assert(b.contains(x));
        assert(a.contains(y));
        let i = choose|i: int| 0 <= i < b.len() && b[i] == x;
        let j = choose|j: int| 0 <= j < a.len() && a[j] == y;
        if i < b.len() - 1 && j < a.len() - 1 {
            assert(T::precedes(b[i], b[b.len() - 1]));
            assert(T::precedes(a[j], a[a.len() - 1]));
            T::precedes_laws(x, y, x);
        }
        assert(x == y);
        let a0 = a.drop_last();
        let b0 = b.drop_last();
        assert forall|z: T::V| a0.to_set().contains(z) <==> b0.to_set().contains(z) by {
            rest_has::<T>(a, z);
            rest_has::<T>(b, z);
            assert(a.to_set().contains(z) <==> b.to_set().contains(z));
        }
        assert(ranked::<T>(a0)) by {
            assert forall|i: int, j: int| 0 <= i < j < a0.len() implies T::precedes(
                #[trigger] a0[i],
                #[trigger] a0[j],
            ) by {
                assert(a0[i] == a[i] && a0[j] == a[j]);
            }
        }
        assert(ranked::<T>(b0)) by {
            assert forall|i: int, j: int| 0 <= i < j < b0.len() implies T::precedes(
                #[trigger] b0[i],
                #[trigger] b0[j],
            ) by {
                assert(b0[i] == b[i] && b0[j] == b[j]);
            }
        }
        ranked_rows_are_unique::<T>(a0, b0);
        assert(a =~= a0.push(x));
        assert(b =~= b0.push(y));
    }
}

proof fn rest_has<T: Ranked>(a: Seq<T::V>, z: T::V)
    requires
        ranked::<T>(a),
        a.len() > 0,
    ensures
        a.drop_last().to_set().contains(z) <==> a.to_set().contains(z) && z != a.last(),
{
    let r = a.drop_last();
    if r.contains(z) {
        let i = choose|i: int| 0 <= i < r.len() && r[i] == z;
        assert(a[i] == z);
        assert(T::precedes(a[i], a[a.len() - 1]));
        T::precedes_laws(z, z, z);
    }
    if a.contains(z) && z != a.last() {
        let i = choose|i: int| 0 <= i < a.len() && a[i] == z;
        assert(r[i] == z);
    }
}

/// A row of values is seen whole, one for one and in order.
pub proof fn values_are_seen_whole<T: View>(v: Seq<T>)
    ensures
        views(v).len() == v.len(),
        forall|i: int| 0 <= i < v.len() ==> #[trigger] views(v)[i] == v[i]@,
{
}

/// Of two values in an ascending row, the one that stands first comes first.
pub proof fn ascending_rows_ascend<T: Ranked>(v: Seq<T::V>, i: int, j: int)
    requires
        ranked::<T>(v),
        0 <= i < j < v.len(),
    ensures
        T::precedes(v[i], v[j]),
        v[i] != v[j],
{
    T::precedes_laws(v[i], v[j], v[i]);
}

} // verus!
