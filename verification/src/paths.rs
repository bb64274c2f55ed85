//! Sets of paths, kept in order.

use crate::order::{insert_ranked, ranked, views};
use crate::path::{path_before, path_order_laws, Part, PathBuf};
use vstd::prelude::*;

verus! {

/// A row of paths, as contracts see it.
pub open spec fn paths_view(v: Seq<PathBuf>) -> Seq<Seq<Part>> {
    views(v)
}

/// The set of the paths in a row.
pub open spec fn path_set(v: Seq<PathBuf>) -> Set<Seq<Part>> {
    paths_view(v).to_set()
}

/// Whether paths are in ascending order, none twice.
pub open spec fn paths_ascend(v: Seq<Seq<Part>>) -> bool {
    ranked::<PathBuf>(v)
}

/// Whether a path is among the given ones.
pub fn contains_path(v: &Vec<PathBuf>, p: &PathBuf) -> (r: bool)
    ensures
        r == path_set(v@).contains(p@),
        r == paths_view(v@).contains(p@),
{
    let mut i: usize = 0;
    while i < v.len()
        invariant
            i <= v@.len(),
            forall|j: int| 0 <= j < i ==> (#[trigger] v@[j])@ != p@,
        decreases v.len() - i,
    {
        if v[i].same(p) {
            assert(paths_view(v@)[i as int] == p@);
            return true;
        }
        i = i + 1;
    }
    proof {
        if paths_view(v@).contains(p@) {
            let j = choose|j: int| 0 <= j < v@.len() && paths_view(v@)[j] == p@;
            assert(v@[j]@ == p@);
        }
    }
    false
}

/// Puts a path into an ordered set of paths.
pub fn insert_path(v: &mut Vec<PathBuf>, p: PathBuf)
    requires
        paths_ascend(paths_view(old(v)@)),
    ensures
        paths_ascend(paths_view(final(v)@)),
        path_set(final(v)@) =~= path_set(old(v)@).insert(p@),
        forall|i: int|
            0 <= i < final(v)@.len() ==> old(v)@.contains(#[trigger] final(v)@[i]) || final(v)@[i]
                == p,
{
    insert_ranked(v, p);
}

/// Paths are seen whole, one for one and in order, and the set of them holds each and no other.
pub proof fn paths_are_seen_whole(v: Seq<PathBuf>, p: Seq<Part>)
    ensures
        paths_view(v).len() == v.len(),
        forall|i: int| 0 <= i < v.len() ==> #[trigger] paths_view(v)[i] == v[i]@,
        path_set(v).contains(p) <==> exists|i: int| 0 <= i < v.len() && (#[trigger] v[i])@ == p,
{
    let row = paths_view(v);
    if path_set(v).contains(p) {
        let i = choose|i: int| 0 <= i < row.len() && row[i] == p;
        assert(v[i]@ == p);
    }
    if exists|i: int| 0 <= i < v.len() && (#[trigger] v[i])@ == p {
        let i = choose|i: int| 0 <= i < v.len() && (#[trigger] v[i])@ == p;
        assert(row[i] == p);
    }
}

/// Ascending paths are in the order of their components, none twice.
pub proof fn ascending_paths_ascend(v: Seq<Seq<Part>>, i: int, j: int)
    requires
        paths_ascend(v),
        0 <= i < j < v.len(),
    ensures
        path_before(v[i], v[j]),
        v[i] != v[j],
{
    path_order_laws(v[i], v[j], v[i]);
}

} // verus!
