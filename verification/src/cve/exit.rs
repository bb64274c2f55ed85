//! Exit codes.
//!
//! - `0`: nothing was found to fail for.
//! - `1`: a binary reaches a vulnerable symbol in production code or, where that is asked for,
//!   in tests.
//! - `2`: the tool itself failed. That code is not given here.

use crate::cve::runner::{Reachability, RunResult};
use vstd::prelude::*;

verus! {

/// What a run amounts to.
#[derive(Debug, Clone, Copy, PartialEq, Eq, Structural)]
pub enum Verdict {
    Clean,
    ProductionReachable,
    TestsOnlyReachable,
}

/// Whether a binary reaches a symbol in the given way.
pub open spec fn some_bin(run: RunResult, r: Reachability) -> bool {
    exists|i: int, j: int|
        #![trigger run.per_seed@[i].bins@[j]]
        0 <= i < run.per_seed@.len() && 0 <= j < run.per_seed@[i].bins@.len()
            && run.per_seed@[i].bins@[j].1 == r
}

/// What a run amounts to: the worst of what was found.
pub fn verdict(run: &RunResult) -> (r: Verdict)
    ensures
        r == verdict_of(*run),
{
    let mut has_prod = false;
    let mut has_test = false;
    let mut i: usize = 0;
    while i < run.per_seed.len()
        invariant
            i <= run.per_seed@.len(),
            has_prod ==> some_bin(*run, Reachability::Production),
            has_test ==> some_bin(*run, Reachability::TestsOnly),
            forall|a: int, b: int|
                #![trigger run.per_seed@[a].bins@[b]]
                0 <= a < i && 0 <= b < run.per_seed@[a].bins@.len() ==> {
                    &&& run.per_seed@[a].bins@[b].1 == Reachability::Production ==> has_prod
                    &&& run.per_seed@[a].bins@[b].1 == Reachability::TestsOnly ==> has_test
                },
        decreases run.per_seed.len() - i,
    {
        let bins = &run.per_seed[i].bins;
        let mut j: usize = 0;
        while j < bins.len()
            invariant
                i < run.per_seed@.len(),
                j <= bins@.len(),
                bins@ == run.per_seed@[i as int].bins@,
                has_prod ==> some_bin(*run, Reachability::Production),
                has_test ==> some_bin(*run, Reachability::TestsOnly),
                forall|a: int, b: int|
                    #![trigger run.per_seed@[a].bins@[b]]
                    (0 <= a < i && 0 <= b < run.per_seed@[a].bins@.len()) || (a == i && 0 <= b < j)
                        ==> {
                        &&& run.per_seed@[a].bins@[b].1 == Reachability::Production ==> has_prod
                        &&& run.per_seed@[a].bins@[b].1 == Reachability::TestsOnly ==> has_test
                    },
            decreases bins.len() - j,
        {
            assert(run.per_seed@[i as int].bins@[j as int] == bins@[j as int]);
            match bins[j].1 {
                Reachability::Production => {
                    has_prod = true;
                },
                Reachability::TestsOnly => {
                    has_test = true;
                },
                Reachability::NotReachable => {},
            }
            j = j + 1;
        }
        i = i + 1;
    }
    if has_prod {
        Verdict::ProductionReachable
    } else if has_test {
        Verdict::TestsOnlyReachable
    } else {
        Verdict::Clean
    }
}

/// The exit code of a run.
pub open spec fn code_of(verdict: Verdict, strict: bool) -> u8 {
    match verdict {
        Verdict::ProductionReachable => 1,
        Verdict::TestsOnlyReachable => if strict {
            1
        } else {
            0
        },
        Verdict::Clean => 0,
    }
}

/// The exit code of a run.
pub fn exit_code(verdict: Verdict, strict: bool) -> (r: u8)
    ensures
        r == code_of(verdict, strict),
{
    match verdict {
        Verdict::ProductionReachable => 1,
        Verdict::TestsOnlyReachable => if strict {
            1
        } else {
            0
        },
        Verdict::Clean => 0,
    }
}

/// What the verdict on a run is.
pub open spec fn verdict_of(run: RunResult) -> Verdict {
    if some_bin(run, Reachability::Production) {
        Verdict::ProductionReachable
    } else if some_bin(run, Reachability::TestsOnly) {
        Verdict::TestsOnlyReachable
    } else {
        Verdict::Clean
    }
}

/// A run fails exactly where a binary reaches a symbol in production code or, where that is
/// asked for, in tests. Asking for it never makes a failed run succeed.
pub proof fn a_run_fails_for_what_it_found(run: RunResult, strict: bool)
    ensures
        code_of(verdict_of(run), strict) == 1 <==> some_bin(run, Reachability::Production) || (
        strict && some_bin(run, Reachability::TestsOnly)),
        code_of(verdict_of(run), strict) <= 1,
        code_of(verdict_of(run), false) <= code_of(verdict_of(run), true),
{
}

/// A run is found to reach production code exactly where some binary of some symbol does, and to
/// reach tests only where none does that but some reaches a symbol from tests.
pub proof fn verdicts_go_by_the_worst_binary(run: RunResult, strict: bool, i: int, j: int)
    requires
        0 <= i < run.per_seed@.len(),
        0 <= j < run.per_seed@[i].bins@.len(),
    ensures
        run.per_seed@[i].bins@[j].1 == Reachability::Production ==> verdict_of(run)
            == Verdict::ProductionReachable && code_of(verdict_of(run), strict) == 1,
        run.per_seed@[i].bins@[j].1 == Reachability::TestsOnly ==> verdict_of(run) != Verdict::Clean
            && code_of(verdict_of(run), true) == 1,
{
    let b = run.per_seed@[i].bins@[j];
}

/// A run in which no binary reaches a symbol is clean and ends with success, and one in which
/// none does so in production code ends with success unless it is strict.
pub proof fn clean_runs_succeed(run: RunResult, strict: bool)
    ensures
        (forall|i: int, j: int|
            #![trigger run.per_seed@[i].bins@[j]]
            0 <= i < run.per_seed@.len() && 0 <= j < run.per_seed@[i].bins@.len()
                ==> run.per_seed@[i].bins@[j].1 == Reachability::NotReachable) ==> verdict_of(run)
            == Verdict::Clean && code_of(verdict_of(run), strict) == 0,
        (forall|i: int, j: int|
            #![trigger run.per_seed@[i].bins@[j]]
            0 <= i < run.per_seed@.len() && 0 <= j < run.per_seed@[i].bins@.len()
                ==> run.per_seed@[i].bins@[j].1 != Reachability::Production) ==> code_of(
            verdict_of(run),
            false,
        ) == 0,
{
}

} // verus!
