//! The source files of `kind == "bin"` targets.
//!
//! Custom `[[bin]]` paths of a manifest count like all others, since the targets come from
//! `cargo metadata`; `src/bin/` has no special place here.

use crate::path::{Part, PathBuf};
use crate::paths::{insert_path, path_set, paths_ascend, paths_view};
use crate::test_goals::has_name;
use crate::text::texts;
use vstd::prelude::*;

verus! {

/// A target of a package.
#[derive(Debug)]
pub struct Target {
    pub kind: Vec<String>,
    pub src_path: PathBuf,
}

/// Whether one of the targets is a binary with the given source file.
pub open spec fn has_bin(targets: Seq<Target>, p: Seq<Part>) -> bool {
    exists|i: int|
        0 <= i < targets.len() && (#[trigger] targets[i]).src_path@ == p && texts(
            targets[i].kind@,
        ).contains("bin"@)
}

/// Whether one of the packages has a binary with the given source file.
pub open spec fn some_has_bin(packages: Seq<Vec<Target>>, p: Seq<Part>) -> bool {
    exists|i: int| 0 <= i < packages.len() && has_bin((#[trigger] packages[i])@, p)
}

/// Whether a path is spelled as the source file of a binary of one of the packages is.
pub open spec fn spelled_as_bin(packages: Seq<Vec<Target>>, p: PathBuf) -> bool {
    exists|i: int, k: int|
        0 <= i < packages.len() && 0 <= k < packages[i]@.len() && texts(
            (#[trigger] packages[i]@[k]).kind@,
        ).contains("bin"@) && packages[i]@[k].src_path@ == p@
            && packages[i]@[k].src_path.spelling() == p.spelling()
}

/// The source files of the binary targets of all packages, in order, none twice.
pub fn bin_entrypoints(packages: &Vec<Vec<Target>>) -> (bins: Vec<PathBuf>)
    ensures
        paths_ascend(paths_view(bins@)),
        forall|p: Seq<Part>| #[trigger]
            path_set(bins@).contains(p) <==> some_has_bin(packages@, p),
        forall|i: int| 0 <= i < bins@.len() ==> spelled_as_bin(packages@, #[trigger] bins@[i]),
{
    let mut bins: Vec<PathBuf> = Vec::new();
    let mut i: usize = 0;
    assert(paths_view(bins@) =~= Seq::<Seq<Part>>::empty());
    while i < packages.len()
        invariant
            i <= packages@.len(),
            paths_ascend(paths_view(bins@)),
            forall|p: Seq<Part>| #[trigger]
                path_set(bins@).contains(p) <==> some_has_bin(packages@.take(i as int), p),
            forall|n: int| 0 <= n < bins@.len() ==> spelled_as_bin(packages@, #[trigger] bins@[n]),
        decreases packages.len() - i,
    {
        let targets = &packages[i];
        let ghost before = path_set(bins@);
        let mut k: usize = 0;
        while k < targets.len()
            invariant
                i < packages@.len(),
                *targets == packages@[i as int],
                forall|n: int|
                    0 <= n < bins@.len() ==> spelled_as_bin(packages@, #[trigger] bins@[n]),
                k <= targets@.len(),
                paths_ascend(paths_view(bins@)),
                forall|p: Seq<Part>| #[trigger]
                    path_set(bins@).contains(p) <==> before.contains(p) || has_bin(
                        targets@.take(k as int),
                        p,
                    ),
            decreases targets.len() - k,
        {
            let ghost had = path_set(bins@);
            let ghost held = bins@;
            let target = &targets[k];
            let is_bin = has_name(&target.kind, "bin");
            if is_bin {
                let file = target.src_path.clone();
                assert(spelled_as_bin(packages@, file)) by {
                    assert(packages@[i as int]@[k as int] == *target);
                }
                insert_path(&mut bins, file);
                assert forall|n: int| 0 <= n < bins@.len() implies spelled_as_bin(
                    packages@,
                    #[trigger] bins@[n],
                ) by {
                    if held.contains(bins@[n]) {
                        let m = choose|m: int| 0 <= m < held.len() && held[m] == bins@[n];
                        assert(spelled_as_bin(packages@, held[m]));
                    }
                }
            }
            proof {
                let a = targets@.take(k as int);
                let b = targets@.take(k + 1);
                assert forall|p: Seq<Part>| #[trigger]
                    path_set(bins@).contains(p) <==> before.contains(p) || has_bin(b, p) by {
                    assert(had.contains(p) <==> before.contains(p) || has_bin(a, p));
                    if has_bin(a, p) {
                        let j = choose|j: int|
                            0 <= j < a.len() && (#[trigger] a[j]).src_path@ == p && texts(
                                a[j].kind@,
                            ).contains("bin"@);
                        assert(b[j] == a[j]);
                    }
                    if is_bin && p == target.src_path@ {
                        assert(b[k as int] == *target);
                    }
                    if has_bin(b, p) {
                        let j = choose|j: int|
                            0 <= j < b.len() && (#[trigger] b[j]).src_path@ == p && texts(
                                b[j].kind@,
                            ).contains("bin"@);
                        if j < k {
                            assert(a[j] == b[j]);
                        }
                    }
                }
            }
            k = k + 1;
        }
        proof {
            assert(targets@.take(k as int) =~= targets@);
            let a = packages@.take(i as int);
            let b = packages@.take(i + 1);
            assert forall|p: Seq<Part>| #[trigger]
                path_set(bins@).contains(p) <==> some_has_bin(b, p) by {
                assert(before.contains(p) <==> some_has_bin(a, p));
                if some_has_bin(a, p) {
                    let j = choose|j: int| 0 <= j < a.len() && has_bin((#[trigger] a[j])@, p);
                    assert(b[j] == a[j]);
                }
                if has_bin(targets@, p) {
                    assert(b[i as int] == *targets);
                }
                if some_has_bin(b, p) {
                    let j = choose|j: int| 0 <= j < b.len() && has_bin((#[trigger] b[j])@, p);
                    if j < i {
                        assert(a[j] == b[j]);
                    }
                }
            }
        }
        i = i + 1;
    }
    assert(packages@.take(i as int) =~= packages@);
    bins
}

/// A file is that of a binary exactly where some target of some package has it for its source
/// and names `bin` among its kinds.
pub proof fn bins_are_targets_of_that_kind(packages: Seq<Vec<Target>>, p: Seq<Part>)
    ensures
        some_has_bin(packages, p) <==> exists|i: int, k: int, m: int|
            #![trigger packages[i]@[k].kind@[m]]
            0 <= i < packages.len() && 0 <= k < packages[i]@.len() && packages[i]@[k].src_path@ == p
                && 0 <= m < packages[i]@[k].kind@.len() && packages[i]@[k].kind@[m]@ == "bin"@,
{
    if some_has_bin(packages, p) {
        let i = choose|i: int| 0 <= i < packages.len() && has_bin((#[trigger] packages[i])@, p);
        let targets = packages[i]@;
        let k = choose|k: int|
            0 <= k < targets.len() && (#[trigger] targets[k]).src_path@ == p && texts(
                targets[k].kind@,
            ).contains("bin"@);
        let names = texts(targets[k].kind@);
        let m = choose|m: int| 0 <= m < names.len() && names[m] == "bin"@;
        assert(packages[i]@[k].kind@[m]@ == "bin"@);
    }
    if exists|i: int, k: int, m: int|
        #![trigger packages[i]@[k].kind@[m]]
        0 <= i < packages.len() && 0 <= k < packages[i]@.len() && packages[i]@[k].src_path@ == p
            && 0 <= m < packages[i]@[k].kind@.len() && packages[i]@[k].kind@[m]@ == "bin"@ {
        let (i, k, m) = choose|i: int, k: int, m: int|
            #![trigger packages[i]@[k].kind@[m]]
            0 <= i < packages.len() && 0 <= k < packages[i]@.len() && packages[i]@[k].src_path@ == p
                && 0 <= m < packages[i]@[k].kind@.len() && packages[i]@[k].kind@[m]@ == "bin"@;
        let names = texts(packages[i]@[k].kind@);
        assert(names[m] == "bin"@);
        assert(names.contains("bin"@));
        assert(has_bin(packages[i]@, p));
    }
}

} // verus!
