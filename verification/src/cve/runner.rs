//! Which binaries reach a vulnerable symbol, and whether they do so in production code.
//!
//! Two searches are made for each symbol: one over all references, and one without those that
//! lie in code compiled for tests only. What the second reaches, it reaches in production code;
//! what only the first reaches, is reached by tests alone.

use crate::bfs::{
    all_succeeded, complete, failure, goes_on, goes_on_through, handed_on, hit, hits_at, lawful,
    open_event, outlines, refers, resolves, run, spots, BackendError, Event, LspBackend, Recorder,
    Spot,
};
use crate::cve::cfg_test::{
    kept_locations_are_filtered, kept_locations_are_the_others, knows_what_was_shown,
    CfgClassifier, Shown,
};
use crate::cve::probe::{Resolved, ResolvedSeed};
use crate::order::views;
use crate::path::{Part, PathBuf};
use crate::paths::{contains_path, insert_path, path_set, paths_ascend, paths_view};
use crate::reach::{
    answers_of, declarations_stable, goal_reachable, reachable, references_of,
    search_finds_exactly_what_is_reachable, step, steps_to, Graph,
};
use crate::symbols::has_position;
use crate::types::{DocumentSymbol, Position, Site};
use vstd::prelude::*;

verus! {

/// How a binary reaches a symbol.
#[derive(Debug, Clone, Copy, PartialEq, Eq, Structural)]
pub enum Reachability {
    Production,
    TestsOnly,
    NotReachable,
}

/// How each binary reaches a symbol. The binaries are in order.
#[derive(Debug, PartialEq, Eq)]
pub struct SeedReachability {
    pub seed: ResolvedSeed,
    pub bins: Vec<(PathBuf, Reachability)>,
}

/// How each binary reaches a symbol, as contracts see it.
pub struct SeedReach {
    pub seed: Resolved,
    pub bins: Seq<(Seq<Part>, Reachability)>,
}

/// Binaries with how they reach a symbol, as contracts see them.
pub open spec fn bins_view(v: Seq<(PathBuf, Reachability)>) -> Seq<(Seq<Part>, Reachability)> {
    v.map_values(|b: (PathBuf, Reachability)| (b.0@, b.1))
}

impl View for SeedReachability {
    type V = SeedReach;

    open spec fn view(&self) -> SeedReach {
        SeedReach { seed: self.seed@, bins: bins_view(self.bins@) }
    }
}

/// What came of a run: all binaries, in order, and how they reach each symbol.
#[derive(Debug, PartialEq, Eq)]
pub struct RunResult {
    pub all_bins: Vec<PathBuf>,
    pub per_seed: Vec<SeedReachability>,
}

/// The message on a workspace without binaries.
pub open spec fn no_binaries(workspace: Seq<char>) -> Seq<char> {
    "no binary entrypoints found in "@ + workspace
}

/// The binaries of a workspace, in order. Without any there is nothing to search for.
pub fn ordered_bins(workspace: &PathBuf, bins: Vec<PathBuf>) -> (r: Result<Vec<PathBuf>, String>)
    ensures
        match r {
            Ok(out) => bins@.len() > 0 && paths_ascend(paths_view(out@)) && path_set(out@)
                == path_set(bins@),
            Err(m) => bins@.len() == 0 && m@ == no_binaries(workspace.spelling()) && m@
                == "no binary entrypoints found in "@ + workspace.spelling(),
        },
{
    if bins.len() == 0 {
        let mut m = "no binary entrypoints found in ".to_owned();
        m.append(workspace.display().as_str());
        return Err(m);
    }
    let ghost all = paths_view(bins@);
    let mut out: Vec<PathBuf> = Vec::new();
    let mut i: usize = 0;
    proof {
        assert(all.take(0).to_set() =~= Set::<Seq<Part>>::empty());
        assert(path_set(out@) =~= Set::<Seq<Part>>::empty());
    }
    while i < bins.len()
        invariant
            i <= bins@.len(),
            all == paths_view(bins@),
            paths_ascend(paths_view(out@)),
            path_set(out@) == all.take(i as int).to_set(),
        decreases bins.len() - i,
    {
        insert_path(&mut out, bins[i].clone());
        proof {
            let next = all.take(i + 1);
            assert(next =~= all.take(i as int).push(all[i as int]));
            assert(all[i as int] == bins@[i as int]@);
            set_of_push(all.take(i as int), all[i as int]);
        }
        i = i + 1;
    }
    assert(all.take(i as int) =~= all);
    Ok(out)
}

proof fn set_of_push(s: Seq<Seq<Part>>, x: Seq<Part>)
    ensures
        s.push(x).to_set() == s.to_set().insert(x),
{
    assert forall|p: Seq<Part>| s.push(x).to_set().contains(p) <==> s.to_set().insert(x).contains(
        p,
    ) by {
        if s.contains(p) {
            let k = choose|k: int| 0 <= k < s.len() && s[k] == p;
            assert(s.push(x)[k] == p);
        }
        assert(s.push(x)[s.len() as int] == x);
    }
    assert(s.push(x).to_set() =~= s.to_set().insert(x));
}

/// How a binary reaches a symbol, given what the two searches found.
pub open spec fn reachability(
    bin: Seq<Part>,
    all: Set<Seq<Part>>,
    production: Set<Seq<Part>>,
) -> Reachability {
    if production.contains(bin) {
        Reachability::Production
    } else if all.contains(bin) {
        Reachability::TestsOnly
    } else {
        Reachability::NotReachable
    }
}

/// How each binary reaches a symbol, given what the two searches found.
pub open spec fn classified(
    bins: Seq<Seq<Part>>,
    all: Set<Seq<Part>>,
    production: Set<Seq<Part>>,
) -> Seq<(Seq<Part>, Reachability)> {
    bins.map_values(|p: Seq<Part>| (p, reachability(p, all, production)))
}

/// How each binary reaches a symbol, given what the two searches found.
pub fn classify(
    all_bins: &Vec<PathBuf>,
    all_affected: &Vec<PathBuf>,
    prod_affected: &Vec<PathBuf>,
) -> (r: Vec<(PathBuf, Reachability)>)
    ensures
        bins_view(r@) == classified(
            paths_view(all_bins@),
            path_set(all_affected@),
            path_set(prod_affected@),
        ),
        r@.len() == all_bins@.len(),
        forall|i: int|
            #![trigger r@[i]]
            0 <= i < r@.len() ==> r@[i].0@ == all_bins@[i]@ && (r@[i].1 == Reachability::Production
                <==> paths_view(prod_affected@).contains(all_bins@[i]@)) && (r@[i].1
                == Reachability::NotReachable <==> !paths_view(prod_affected@).contains(
                all_bins@[i]@,
            ) && !paths_view(all_affected@).contains(all_bins@[i]@)),
{
    let mut out: Vec<(PathBuf, Reachability)> = Vec::new();
    let mut i: usize = 0;
    while i < all_bins.len()
        invariant
            i <= all_bins@.len(),
            out@.len() == i,
            forall|k: int|
                0 <= k < i ==> (#[trigger] out@[k]).0@ == all_bins@[k]@ && out@[k].1
                    == reachability(
                    all_bins@[k]@,
                    path_set(all_affected@),
                    path_set(prod_affected@),
                ),
        decreases all_bins.len() - i,
    {
        let r = if contains_path(prod_affected, &all_bins[i]) {
            Reachability::Production
        } else if contains_path(all_affected, &all_bins[i]) {
            Reachability::TestsOnly
        } else {
            Reachability::NotReachable
        };
        out.push((all_bins[i].clone(), r));
        i = i + 1;
    }
    proof {
        assert(bins_view(out@) =~= classified(
            paths_view(all_bins@),
            path_set(all_affected@),
            path_set(prod_affected@),
        ));
    }
    out
}

/// The place that a search starts from.
pub open spec fn seed_start(seed: Resolved) -> Seq<Spot> {
    seq![(seed.file, seed.position)]
}

/// Whether a search from a symbol asked for `t` and found these binaries.
pub open spec fn searched(
    t: Seq<Event>,
    seed: Resolved,
    bins: Set<Seq<Part>>,
    found: Seq<PathBuf>,
) -> bool {
    &&& lawful(t, seed_start(seed), bins)
    &&& all_succeeded(t)
    &&& complete(t, Seq::empty(), seed_start(seed), bins)
    &&& paths_ascend(paths_view(found))
    &&& forall|p: Seq<Part>| #[trigger] path_set(found).contains(p) <==> hit(t, bins, p)
}

/// Searches for the binaries that reach a symbol.
pub fn search_from<B: LspBackend>(
    backend: &mut Recorder<B>,
    seed: &ResolvedSeed,
    bins: &Vec<PathBuf>,
) -> (r: Result<Vec<PathBuf>, BackendError>)
    ensures
        old(backend).log().is_prefix_of(final(backend).log()),
        goes_on(*old(backend), *final(backend)),
        ({
            let t = final(backend).log().skip(old(backend).log().len() as int);
            match r {
                Ok(found) => searched(t, seed@, path_set(bins@), found@),
                Err(e) => t.len() > 0 && failure(t.last()) == Some(e.message@) && lawful(
                    t,
                    seed_start(seed@),
                    path_set(bins@),
                ),
            }
        }),
{
    let mut starts: Vec<(PathBuf, Position)> = Vec::new();
    starts.push((seed.file.clone(), seed.position));
    assert(spots(starts@) =~= seed_start(seed@));
    run(backend, starts, bins)
}

/// Opens the file of a symbol, and searches for the binaries that reach it.
pub fn open_and_search<B: LspBackend>(
    backend: &mut Recorder<B>,
    seed: &ResolvedSeed,
    bins: &Vec<PathBuf>,
) -> (r: Result<Vec<PathBuf>, BackendError>)
    ensures
        old(backend).log().is_prefix_of(final(backend).log()),
        goes_on(*old(backend), *final(backend)),
        ({
            let t = final(backend).log().skip(old(backend).log().len() as int);
            &&& t.len() > 0 && t[0] is Open && t[0]->Open_file == seed.file@
            &&& match r {
                Ok(found) => failure(t[0]) is None && searched(
                    t.skip(1),
                    seed@,
                    path_set(bins@),
                    found@,
                ),
                Err(e) => failure(t.last()) == Some(e.message@) && lawful(
                    t.skip(1),
                    seed_start(seed@),
                    path_set(bins@),
                ),
            }
        }),
{
    let ghost base = backend.log();
    let ghost first = *backend;
    let opened = backend.open(&seed.file);
    let ghost here = *backend;
    let ghost e = open_event(seed.file@, opened);
    let ghost middle = backend.log();
    proof {
        assert(middle.skip(base.len() as int) =~= seq![e]);
        assert(middle.skip(base.len() as int).skip(1) =~= Seq::<Event>::empty());
    }
    if let Err(e) = opened {
        return Err(e);
    }
    let r = search_from(backend, seed, bins);
    proof {
        goes_on_through(first, here, *backend);
        let last = backend.log();
        let t = last.skip(base.len() as int);
        assert(last.skip(middle.len() as int) =~= t.skip(1));
        assert(t[0] == e) by {
            assert(last[base.len() as int] == middle[base.len() as int]);
        }
        assert(base.is_prefix_of(last)) by {
            assert forall|i: int| 0 <= i < base.len() implies base[i] == last[i] by {
                assert(middle[i] == last[i]);
            }
        }
        if t.skip(1).len() > 0 {
            assert(t.skip(1).last() == t.last());
        }
    }
    r
}

// ---------------------------------------------------------------------------------------
// All symbols
// ---------------------------------------------------------------------------------------
/// Whether answers were handed on as they were heard, but for the references in code that is
/// compiled for tests only.
pub open spec fn tests_left_out(c: CfgClassifier, heard: Seq<Event>, told: Seq<Event>) -> bool {
    heard.len() == told.len() && forall|i: int|
        0 <= i < told.len() ==> handed_on(Some(c), heard[i], #[trigger] told[i])
}

/// The two searches for a symbol: its file is opened, the first `n` requests make up the search
/// over all references, and the others the search without those that lie in code compiled for
/// tests only, going by the texts of the files.
pub struct TwoSearches {
    pub n: int,
    pub all: Seq<PathBuf>,
    pub production: Seq<PathBuf>,
    pub gate: CfgClassifier,
    pub shown: Shown,
}

/// Whether requests are those of the two searches for a symbol.
pub open spec fn two_searches(
    told: Seq<Event>,
    heard: Seq<Event>,
    seed: Resolved,
    bins: Set<Seq<Part>>,
    x: TwoSearches,
) -> bool {
    &&& 1 <= x.n <= told.len()
    &&& told.len() == heard.len()
    &&& told[0] == (Event::Open { file: seed.file, failure: None })
    &&& heard.take(x.n) == told.take(x.n)
    &&& searched(told.subrange(1, x.n), seed, bins, x.all)
    &&& searched(told.skip(x.n), seed, bins, x.production)
    &&& tests_left_out(x.gate, heard.skip(x.n), told.skip(x.n))
    &&& knows_what_was_shown(x.gate, x.shown)
}

/// Whether requests are those for one symbol, and this is how the binaries reach it.
pub open spec fn seed_classified(
    told: Seq<Event>,
    heard: Seq<Event>,
    seed: Resolved,
    bins: Seq<PathBuf>,
    found: SeedReach,
) -> bool {
    exists|x: TwoSearches| #[trigger]
        two_searches(told, heard, seed, path_set(bins), x) && found == (SeedReach {
            seed,
            bins: classified(paths_view(bins), path_set(x.all), path_set(x.production)),
        })
}

/// Whether requests are those for symbols one after the other, divided at the given places, and
/// this is how the binaries reach each of them.
pub open spec fn divided(
    cuts: Seq<int>,
    told: Seq<Event>,
    heard: Seq<Event>,
    seeds: Seq<Resolved>,
    bins: Seq<PathBuf>,
    found: Seq<SeedReach>,
) -> bool {
    &&& cuts.len() == seeds.len() + 1
    &&& cuts[0] == 0
    &&& cuts.last() == told.len()
    &&& forall|i: int, j: int| 0 <= i <= j < cuts.len() ==> #[trigger] cuts[i] <= #[trigger] cuts[j]
    &&& told.len() == heard.len()
    &&& found.len() == seeds.len()
    &&& forall|i: int|
        0 <= i < seeds.len() ==> seed_classified(
            told.subrange(cuts[i], cuts[i + 1]),
            heard.subrange(cuts[i], cuts[i + 1]),
            #[trigger] seeds[i],
            bins,
            found[i],
        )
}

/// Whether requests are those for symbols one after the other, and this is how the binaries
/// reach each of them.
pub open spec fn seeds_classified(
    told: Seq<Event>,
    heard: Seq<Event>,
    seeds: Seq<Resolved>,
    bins: Seq<PathBuf>,
    found: Seq<SeedReach>,
) -> bool {
    exists|cuts: Seq<int>| #[trigger] divided(cuts, told, heard, seeds, bins, found)
}

/// Requests for one more symbol.
proof fn divided_further(
    cuts: Seq<int>,
    told: Seq<Event>,
    heard: Seq<Event>,
    seeds: Seq<Resolved>,
    bins: Seq<PathBuf>,
    found: Seq<SeedReach>,
    t: Seq<Event>,
    h: Seq<Event>,
    seed: Resolved,
    one: SeedReach,
)
    requires
        divided(cuts, told, heard, seeds, bins, found),
        t.len() == h.len(),
        seed_classified(t, h, seed, bins, one),
    ensures
        divided(
            cuts.push((told + t).len() as int),
            told + t,
            heard + h,
            seeds.push(seed),
            bins,
            found.push(one),
        ),
{
    let more = cuts.push((told + t).len() as int);
    let all = seeds.push(seed);
    assert forall|i: int, j: int| 0 <= i <= j < more.len() implies #[trigger] more[i]
        <= #[trigger] more[j] by {
        if i < cuts.len() {
            assert(cuts[i] <= cuts[cuts.len() - 1]);
        }
    }
    assert forall|i: int| 0 <= i < all.len() implies seed_classified(
        (told + t).subrange(more[i], more[i + 1]),
        (heard + h).subrange(more[i], more[i + 1]),
        #[trigger] all[i],
        bins,
        found.push(one)[i],
    ) by {
        if i < seeds.len() {
            assert(seeds[i] == all[i]);
            assert(cuts[0] <= cuts[i] && cuts[i] <= cuts[i + 1] && cuts[i + 1] <= cuts[cuts.len()
                - 1]);
            assert((told + t).subrange(more[i], more[i + 1]) =~= told.subrange(
                cuts[i],
                cuts[i + 1],
            ));
            assert((heard + h).subrange(more[i], more[i + 1]) =~= heard.subrange(
                cuts[i],
                cuts[i + 1],
            ));
        } else {
            assert((told + t).subrange(more[i], more[i + 1]) =~= t);
            assert((heard + h).subrange(more[i], more[i + 1]) =~= h);
        }
    }
}

/// Whether requests are those for a symbol, up to one that failed.
pub open spec fn seed_broken_off(told: Seq<Event>, seed: Resolved, bins: Set<Seq<Part>>) -> bool {
    &&& told.len() > 0
    &&& told[0] is Open && told[0]->Open_file == seed.file
    &&& lawful(told.skip(1), seed_start(seed), bins) || exists|n: int, all: Seq<PathBuf>|
        1 <= n <= told.len() && #[trigger] searched(told.subrange(1, n), seed, bins, all) && lawful(
            told.skip(n),
            seed_start(seed),
            bins,
        )
}

/// Whether requests are those for symbols one after the other, up to one that failed.
pub open spec fn seeds_broken_off(
    told: Seq<Event>,
    heard: Seq<Event>,
    seeds: Seq<Resolved>,
    bins: Seq<PathBuf>,
) -> bool {
    exists|i: int, k: int, done: Seq<SeedReach>|
        0 <= i < seeds.len() && 0 <= k <= told.len() && #[trigger] seeds_classified(
            told.take(k),
            heard.take(k),
            seeds.take(i),
            bins,
            done,
        ) && seed_broken_off(told.skip(k), seeds[i], path_set(bins))
}

/// Makes the two searches for a symbol, and tells how the binaries reach it.
#[verifier::spinoff_prover]
#[verifier::rlimit(60)]
fn classify_seed<B: LspBackend>(
    backend: &mut Recorder<B>,
    seed: &ResolvedSeed,
    bins: &Vec<PathBuf>,
) -> (r: Result<SeedReachability, BackendError>)
    ensures
        old(backend).log().is_prefix_of(final(backend).log()),
        old(backend).heard().is_prefix_of(final(backend).heard()),
        ({
            let t = final(backend).log().skip(old(backend).log().len() as int);
            let h = final(backend).heard().skip(old(backend).heard().len() as int);
            &&& t.len() == h.len()
            &&& match r {
                Ok(found) => seed_classified(t, h, seed@, bins@, found@),
                Err(e) => t.len() > 0 && failure(t.last()) == Some(e.message@) && seed_broken_off(
                    t,
                    seed@,
                    path_set(bins@),
                ),
            }
        }),
{
    let ghost log0 = backend.log();
    let ghost heard0 = backend.heard();
    backend.take_in_tests();
    let ghost a = *backend;
    let first = open_and_search(backend, seed, bins);
    let ghost b = *backend;
    let ghost t1 = b.log().skip(log0.len() as int);
    let ghost h1 = b.heard().skip(heard0.len() as int);
    proof {
        reveal(goes_on);
        assert(h1 =~= t1) by {
            assert forall|i: int| 0 <= i < t1.len() implies h1[i] == t1[i] by {
                assert(handed_on(b.gate(), b.heard()[heard0.len() + i], b.log()[log0.len() + i]));
            }
        }
    }
    let all = match first {
        Ok(all) => all,
        Err(e) => return Err(e),
    };
    backend.leave_out_tests();
    let ghost c = *backend;
    let second = search_from(backend, seed, bins);
    let ghost d = *backend;
    backend.take_in_tests();
    let ghost t2 = d.log().skip(c.log().len() as int);
    let ghost h2 = d.heard().skip(c.heard().len() as int);
    let ghost t = d.log().skip(log0.len() as int);
    let ghost h = d.heard().skip(heard0.len() as int);
    let ghost n = t1.len() as int;
    proof {
        assert forall|i: int| 0 <= i < log0.len() implies log0[i] == d.log()[i] by {
            assert(b.log()[i] == log0[i]);
            assert(c.log()[i] == d.log()[i]);
        }
        assert forall|i: int| 0 <= i < heard0.len() implies heard0[i] == d.heard()[i] by {
            assert(b.heard()[i] == heard0[i]);
            assert(c.heard()[i] == d.heard()[i]);
        }
        assert(t =~= t1 + t2);
        assert(h =~= h1 + h2);
        assert(t.take(n) =~= t1);
        assert(h.take(n) =~= h1);
        assert(t.skip(n) =~= t2);
        assert(h.skip(n) =~= h2);
        assert(t.subrange(1, n) =~= t1.skip(1));
    }
    let production = match second {
        Ok(found) => found,
        Err(e) => {
            proof {
                assert(t.last() == t2.last());
                assert(searched(t.subrange(1, n), seed@, path_set(bins@), all@));
            }
            return Err(e);
        },
    };
    let found = SeedReachability { seed: seed.clone(), bins: classify(bins, &all, &production) };
    proof {
        let gate = d.gate()->0;
        assert forall|i: int| 0 <= i < t2.len() implies handed_on(
            Some(gate),
            h2[i],
            #[trigger] t2[i],
        ) by {
            assert(handed_on(d.gate(), d.heard()[c.heard().len() + i], d.log()[c.log().len() + i]));
        }
        let x = TwoSearches {
            n,
            all: all@,
            production: production@,
            gate,
            shown: d.shown(),
        };
        assert(t[0] == t1[0]);
        assert(two_searches(t, h, seed@, path_set(bins@), x));
    }
    Ok(found)
}

proof fn same_front(a: Seq<Event>, b: Seq<Event>)
    requires
        a.is_prefix_of(b),
    ensures
        b == a + b.skip(a.len() as int),
{
    assert forall|i: int| 0 <= i < a.len() implies a[i] == b[i] by {
        assert(b.subrange(0, a.len() as int)[i] == a[i]);
    }
    assert(b =~= a + b.skip(a.len() as int));
}

/// How the binaries reach each symbol: for each, in order, one search over all references, and
/// one without those in code compiled for tests only. On a failure the run ends with the request
/// that failed.
#[verifier::spinoff_prover]
#[verifier::rlimit(60)]
pub fn classify_seeds<B: LspBackend>(
    backend: &mut Recorder<B>,
    seeds: &Vec<ResolvedSeed>,
    bins: &Vec<PathBuf>,
) -> (r: Result<Vec<SeedReachability>, BackendError>)
    ensures
        old(backend).log().is_prefix_of(final(backend).log()),
        old(backend).heard().is_prefix_of(final(backend).heard()),
        ({
            let t = final(backend).log().skip(old(backend).log().len() as int);
            let h = final(backend).heard().skip(old(backend).heard().len() as int);
            match r {
                Ok(found) => seeds_classified(t, h, views(seeds@), bins@, views(found@)),
                Err(e) => t.len() > 0 && failure(t.last()) == Some(e.message@) && seeds_broken_off(
                    t,
                    h,
                    views(seeds@),
                    bins@,
                ),
            }
        }),
{
    let ghost log0 = backend.log();
    let ghost heard0 = backend.heard();
    let ghost all = views(seeds@);
    let ghost mut t = Seq::<Event>::empty();
    let ghost mut h = Seq::<Event>::empty();
    let ghost mut cuts = seq![0int];
    let mut out: Vec<SeedReachability> = Vec::new();
    let mut i: usize = 0;
    proof {
        assert(log0 + t =~= log0);
        assert(heard0 + h =~= heard0);
        assert(views(out@) =~= Seq::<SeedReach>::empty());
        assert(divided(cuts, t, h, all.take(0), bins@, views(out@)));
    }
    while i < seeds.len()
        invariant
            i <= seeds@.len(),
            all == views(seeds@),
            log0 == old(backend).log(),
            heard0 == old(backend).heard(),
            backend.log() == log0 + t,
            backend.heard() == heard0 + h,
            divided(cuts, t, h, all.take(i as int), bins@, views(out@)),
        decreases seeds.len() - i,
    {
        let ghost k = t.len() as int;
        let one = classify_seed(backend, &seeds[i], bins);
        let ghost t1 = backend.log().skip((log0 + t).len() as int);
        let ghost h1 = backend.heard().skip((heard0 + h).len() as int);
        let ghost u = t + t1;
        let ghost w = h + h1;
        proof {
            same_front(log0 + t, backend.log());
            same_front(heard0 + h, backend.heard());
            assert(backend.log() =~= log0 + u);
            assert(backend.heard() =~= heard0 + w);
            assert(backend.log().skip(log0.len() as int) =~= u);
            assert(backend.heard().skip(heard0.len() as int) =~= w);
            assert(log0.is_prefix_of(log0 + u));
            assert(heard0.is_prefix_of(heard0 + w));
            assert(all[i as int] == seeds@[i as int]@);
        }
        let found = match one {
            Ok(found) => found,
            Err(e) => {
                proof {
                    assert(u.last() == t1.last());
                    assert(u.take(k) =~= t);
                    assert(w.take(k) =~= h);
                    assert(u.skip(k) =~= t1);
                    assert(seeds_classified(
                        u.take(k),
                        w.take(k),
                        all.take(i as int),
                        bins@,
                        views(out@),
                    ));
                }
                return Err(e);
            },
        };
        let ghost had = views(out@);
        let ghost shown = found@;
        out.push(found);
        proof {
            divided_further(
                cuts,
                t,
                h,
                all.take(i as int),
                bins@,
                had,
                t1,
                h1,
                all[i as int],
                shown,
            );
            assert(all.take(i + 1) =~= all.take(i as int).push(all[i as int]));
            assert(views(out@) =~= had.push(shown));
            cuts = cuts.push(u.len() as int);
            t = u;
            h = w;
        }
        i = i + 1;
    }
    proof {
        assert(all.take(i as int) =~= all);
        assert((log0 + t).skip(log0.len() as int) =~= t);
        assert((heard0 + h).skip(heard0.len() as int) =~= h);
        assert(log0.is_prefix_of(log0 + t));
        assert(heard0.is_prefix_of(heard0 + h));
    }
    Ok(out)
}

/// Whether one graph has only references that another has too, and agrees with it otherwise.
pub open spec fn thinned(small: Graph, large: Graph) -> bool {
    &&& small.declaration == large.declaration
    &&& small.symbols == large.symbols
    &&& forall|n: Spot, s: int|
        0 <= s < (small.references)(n).len() ==> (large.references)(n).contains(
            #[trigger] (small.references)(n)[s],
        )
}

proof fn thinned_steps(
    small: Graph,
    large: Graph,
    starts: Seq<Spot>,
    goals: Set<Seq<Part>>,
    n: Spot,
    k: nat,
)
    requires
        thinned(small, large),
        steps_to(small, starts, goals, n, k),
    ensures
        steps_to(large, starts, goals, n, k),
    decreases k,
{
    if k > 0 {
        let m = choose|m: Spot| #[trigger]
            step(small, goals, m, n) && steps_to(small, starts, goals, m, (k - 1) as nat);
        thinned_steps(small, large, starts, goals, m, (k - 1) as nat);
        let s = choose|s: int|
            0 <= s < references_of(small, m).len() && (#[trigger] references_of(small, m)[s]).path
                == n.0 && has_position(
                hits_at((small.symbols)(n.0), references_of(small, m)[s].range.start.line),
                n.1,
            );
        let site = references_of(small, m)[s];
        let d = (small.declaration)(m);
        assert((large.references)(d).contains((small.references)(d)[s]));
        let j = choose|j: int|
            0 <= j < references_of(large, m).len() && references_of(large, m)[j] == site;
        assert(references_of(large, m)[j].path == n.0);
        assert(step(large, goals, m, n));
    }
}

/// What is reached without some of the references is reached with all of them: a binary that
/// the search through production code finds is one that the search through all code finds.
pub proof fn production_reach_is_reach(
    small: Graph,
    large: Graph,
    starts: Seq<Spot>,
    goals: Set<Seq<Part>>,
    p: Seq<Part>,
)
    requires
        thinned(small, large),
        goal_reachable(small, starts, goals, p),
    ensures
        goal_reachable(large, starts, goals, p),
{
    let (n, s) = choose|n: Spot, s: int|
        #![trigger reachable(small, starts, goals, n), references_of(small, n)[s]]
        reachable(small, starts, goals, n) && 0 <= s < references_of(small, n).len()
            && references_of(small, n)[s].path == p;
    let k = choose|k: nat| steps_to(small, starts, goals, n, k);
    thinned_steps(small, large, starts, goals, n, k);
    assert(reachable(large, starts, goals, n));
    let d = (small.declaration)(n);
    assert((large.references)(d).contains((small.references)(d)[s]));
    let j = choose|j: int|
        0 <= j < references_of(large, n).len() && references_of(large, n)[j] == references_of(
            small,
            n,
        )[s];
    assert(references_of(large, n)[j].path == p);
}

/// The graph without the references that lie in code compiled for tests only.
pub open spec fn without_tests(g: Graph, c: CfgClassifier) -> Graph {
    Graph {
        declaration: g.declaration,
        references: |n: Spot| c.kept((g.references)(n)),
        symbols: g.symbols,
    }
}

/// A binary that is reached in production code is reached: leaving out the references that lie
/// in code compiled for tests only makes nothing reachable.
pub proof fn leaving_out_tests_adds_nothing(
    g: Graph,
    c: CfgClassifier,
    starts: Seq<Spot>,
    goals: Set<Seq<Part>>,
    p: Seq<Part>,
)
    requires
        goal_reachable(without_tests(g, c), starts, goals, p),
    ensures
        goal_reachable(g, starts, goals, p),
{
    let small = without_tests(g, c);
    assert forall|n: Spot, s: int| 0 <= s < (small.references)(n).len() implies (g.references)(
        n,
    ).contains(#[trigger] (small.references)(n)[s]) by {
        let loc = (small.references)(n)[s];
        kept_locations_are_the_others(c, (g.references)(n), loc);
        assert(c.kept((g.references)(n)).contains(loc));
    }
    production_reach_is_reach(small, g, starts, goals, p);
}

/// The classification says what can be reached: a binary counts as reached in production code
/// exactly where it is reachable without the references in code compiled for tests only, as
/// reached from tests only exactly where it is reachable, but not in that way, and as not
/// reached exactly where it is not reachable. The two searches get their answers from one
/// reference graph, in which asking for the declaration of a declaration gives the same.
pub proof fn classification_is_reachability(
    t: Seq<Event>,
    u: Seq<Event>,
    g: Graph,
    c: CfgClassifier,
    seed: Resolved,
    bins: Set<Seq<Part>>,
    all: Seq<PathBuf>,
    production: Seq<PathBuf>,
    bin: Seq<Part>,
)
    requires
        searched(t, seed, bins, all),
        searched(u, seed, bins, production),
        answers_of(t, g),
        answers_of(u, without_tests(g, c)),
        declarations_stable(g),
    ensures
        ({
            let r = reachability(bin, path_set(all), path_set(production));
            let start = seed_start(seed);
            let at_all = goal_reachable(g, start, bins, bin);
            let in_production = goal_reachable(without_tests(g, c), start, bins, bin);
            &&& r == Reachability::Production <==> in_production
            &&& r == Reachability::TestsOnly <==> at_all && !in_production
            &&& r == Reachability::NotReachable <==> !at_all
        }),
{
    let start = seed_start(seed);
    let small = without_tests(g, c);
    assert(declarations_stable(small));
    search_finds_exactly_what_is_reachable(t, g, start, bins, bin);
    search_finds_exactly_what_is_reachable(u, small, start, bins, bin);
    assert(path_set(all).contains(bin) <==> hit(t, bins, bin));
    assert(path_set(production).contains(bin) <==> hit(u, bins, bin));
    if goal_reachable(small, start, bins, bin) {
        leaving_out_tests_adds_nothing(g, c, start, bins, bin);
    }
}

/// How a binary reaches a symbol, in a graph and in what is left of it without the references
/// in code compiled for tests only.
pub open spec fn reach_in(
    g: Graph,
    c: CfgClassifier,
    seed: Resolved,
    bins: Set<Seq<Part>>,
    bin: Seq<Part>,
) -> Reachability {
    if goal_reachable(without_tests(g, c), seed_start(seed), bins, bin) {
        Reachability::Production
    } else if goal_reachable(g, seed_start(seed), bins, bin) {
        Reachability::TestsOnly
    } else {
        Reachability::NotReachable
    }
}

/// Answers of a part of a log are answers of the log.
proof fn part_of_answers(t: Seq<Event>, a: int, b: int, g: Graph)
    requires
        answers_of(t, g),
        0 <= a <= b <= t.len(),
    ensures
        answers_of(t.subrange(a, b), g),
{
    let u = t.subrange(a, b);
    assert forall|e: Event| #[trigger] u.contains(e) implies t.contains(e) by {
        let i = choose|i: int| 0 <= i < u.len() && u[i] == e;
        assert(t[a + i] == e);
    }
    assert forall|n: Spot, d: Spot| #[trigger] resolves(u, n, d) implies d == (g.declaration)(n) by {
        assert(resolves(t, n, d));
    }
    assert forall|n: Spot, f: Seq<Site>| #[trigger] refers(u, n, f) implies f == (g.references)(n) by {
        assert(refers(t, n, f));
    }
    assert forall|p: Seq<Part>, x: Seq<DocumentSymbol>| #[trigger] outlines(u, p, x) implies x == (
    g.symbols)(p) by {
        assert(outlines(t, p, x));
    }
}

/// Answers that are handed on without the references in code compiled for tests only are those
/// of the graph without them.
proof fn answers_without_tests(c: CfgClassifier, heard: Seq<Event>, told: Seq<Event>, g: Graph)
    requires
        tests_left_out(c, heard, told),
        answers_of(heard, g),
    ensures
        answers_of(told, without_tests(g, c)),
{
    let small = without_tests(g, c);
    assert forall|n: Spot, d: Spot| #[trigger] resolves(told, n, d) implies d
        == (small.declaration)(n) by {
        let e = Event::Declaration { at: n, answer: Ok(d) };
        let i = choose|i: int| 0 <= i < told.len() && told[i] == e;
        assert(handed_on(Some(c), heard[i], told[i]));
        assert(heard[i] == e);
        assert(resolves(heard, n, d));
    }
    assert forall|n: Spot, f: Seq<Site>| #[trigger] refers(told, n, f) implies f
        == (small.references)(n) by {
        let e = Event::References { at: n, answer: Ok(f) };
        let i = choose|i: int| 0 <= i < told.len() && told[i] == e;
        assert(handed_on(Some(c), heard[i], told[i]));
        let all = heard[i]->References_answer->Ok_0;
        assert(heard[i] == (Event::References { at: n, answer: Ok(all) }));
        assert(refers(heard, n, all));
    }
    assert forall|p: Seq<Part>, x: Seq<DocumentSymbol>| #[trigger] outlines(told, p, x) implies x
        == (small.symbols)(p) by {
        let e = Event::Symbols { file: p, answer: Ok(x) };
        let i = choose|i: int| 0 <= i < told.len() && told[i] == e;
        assert(handed_on(Some(c), heard[i], told[i]));
        assert(heard[i] == e);
        assert(outlines(heard, p, x));
    }
}

/// A run tells of each symbol what reaches it: where the answers of the language server are
/// those of one reference graph, in which asking for the declaration of a declaration gives the
/// same, there is one entry for each symbol, in order, and it lists every binary with how it
/// reaches the symbol in that graph. Which references lie in code compiled for tests only is
/// told by the texts of their files.
pub proof fn a_run_tells_what_reaches_each_symbol(
    told: Seq<Event>,
    heard: Seq<Event>,
    g: Graph,
    seeds: Seq<Resolved>,
    bins: Seq<PathBuf>,
    found: Seq<SeedReach>,
)
    requires
        seeds_classified(told, heard, seeds, bins, found),
        answers_of(heard, g),
        declarations_stable(g),
    ensures
        found.len() == seeds.len(),
        forall|i: int|
            0 <= i < seeds.len() ==> (#[trigger] found[i]).seed == seeds[i] && exists|
                c: CfgClassifier,
                shown: Shown,
            | #[trigger]
                knows_what_was_shown(c, shown) && found[i].bins == paths_view(bins).map_values(
                    |p: Seq<Part>| (p, reach_in(g, c, seeds[i], path_set(bins), p)),
                ),
{
    let cuts = choose|cuts: Seq<int>| #[trigger] divided(cuts, told, heard, seeds, bins, found);
    assert forall|i: int| 0 <= i < seeds.len() implies (#[trigger] found[i]).seed == seeds[i]
        && exists|c: CfgClassifier, shown: Shown| #[trigger]
        knows_what_was_shown(c, shown) && found[i].bins == paths_view(bins).map_values(
            |p: Seq<Part>| (p, reach_in(g, c, seeds[i], path_set(bins), p)),
        ) by {
        let seed = seeds[i];
        assert(cuts[0] <= cuts[i] && cuts[i] <= cuts[i + 1] && cuts[i + 1] <= cuts[cuts.len() - 1]);
        let t = told.subrange(cuts[i], cuts[i + 1]);
        let h = heard.subrange(cuts[i], cuts[i + 1]);
        part_of_answers(heard, cuts[i], cuts[i + 1], g);
        one_symbol_is_told_of(t, h, g, seed, bins, found[i]);
    }
}

/// What a run tells of one symbol.
proof fn one_symbol_is_told_of(
    t: Seq<Event>,
    h: Seq<Event>,
    g: Graph,
    seed: Resolved,
    bins: Seq<PathBuf>,
    found: SeedReach,
)
    requires
        seed_classified(t, h, seed, bins, found),
        answers_of(h, g),
        declarations_stable(g),
    ensures
        found.seed == seed,
        exists|c: CfgClassifier, shown: Shown| #[trigger]
            knows_what_was_shown(c, shown) && found.bins == paths_view(bins).map_values(
                |p: Seq<Part>| (p, reach_in(g, c, seed, path_set(bins), p)),
            ),
{
    let goals = path_set(bins);
    let x = choose|x: TwoSearches| #[trigger]
        two_searches(t, h, seed, goals, x) && found == (SeedReach {
            seed,
            bins: classified(paths_view(bins), path_set(x.all), path_set(x.production)),
        });
    part_of_answers(h, 1, x.n, g);
    part_of_answers(h, x.n, h.len() as int, g);
    assert(h.subrange(1, x.n) =~= t.subrange(1, x.n)) by {
        assert forall|i: int| 1 <= i < x.n implies h[i] == t[i] by {
            assert(h.take(x.n)[i] == t.take(x.n)[i]);
        }
    }
    assert(h.subrange(x.n, h.len() as int) =~= h.skip(x.n));
    answers_without_tests(x.gate, h.skip(x.n), t.skip(x.n), g);
    let row = paths_view(bins).map_values(
        |p: Seq<Part>| (p, reach_in(g, x.gate, seed, goals, p)),
    );
    assert(found.bins =~= row) by {
        assert forall|i: int| 0 <= i < row.len() implies found.bins[i] == row[i] by {
            classification_is_reachability(
                t.subrange(1, x.n),
                t.skip(x.n),
                g,
                x.gate,
                seed,
                goals,
                x.all,
                x.production,
                paths_view(bins)[i],
            );
        }
    }
    assert(knows_what_was_shown(x.gate, x.shown));
}

/// A binary that the search of production code found reaches a symbol there; one that only the
/// search of everything found reaches it from tests only; one that neither found does not reach
/// it. Every binary is told of, in order.
pub proof fn binaries_are_told_apart_by_the_two_searches(
    bins: Seq<Seq<Part>>,
    all: Set<Seq<Part>>,
    production: Set<Seq<Part>>,
    i: int,
)
    requires
        0 <= i < bins.len(),
    ensures
        classified(bins, all, production).len() == bins.len(),
        classified(bins, all, production)[i].0 == bins[i],
        production.contains(bins[i]) ==> classified(bins, all, production)[i].1
            == Reachability::Production,
        !production.contains(bins[i]) && all.contains(bins[i]) ==> classified(
            bins,
            all,
            production,
        )[i].1 == Reachability::TestsOnly,
        !production.contains(bins[i]) && !all.contains(bins[i]) ==> classified(
            bins,
            all,
            production,
        )[i].1 == Reachability::NotReachable,
{
}

/// How a binary reaches a symbol in a graph: in production code where a way leads to it without
/// the references known to lie in tests, from tests only where a way leads to it with them alone.
pub proof fn reaching_goes_by_the_graph(
    g: Graph,
    c: CfgClassifier,
    seed: Resolved,
    bins: Set<Seq<Part>>,
    bin: Seq<Part>,
    n: Spot,
)
    ensures
        reach_in(g, c, seed, bins, bin) == Reachability::Production <==> goal_reachable(
            without_tests(g, c),
            seq![(seed.file, seed.position)],
            bins,
            bin,
        ),
        reach_in(g, c, seed, bins, bin) == Reachability::NotReachable <==> !goal_reachable(
            g,
            seq![(seed.file, seed.position)],
            bins,
            bin,
        ),
        (without_tests(g, c).references)(n) == (g.references)(n).filter(
            |l: Site|
                !(c.known(l.path) is Some && exists|i: int|
                    0 <= i < c.known(l.path)->0.len() && (#[trigger] c.known(l.path)->0[i]).start
                        <= l.range.start.line && l.range.start.line <= c.known(l.path)->0[i].end),
        ),
        (without_tests(g, c).declaration)(n) == (g.declaration)(n),
        (without_tests(g, c).symbols)(n.0) == (g.symbols)(n.0),
{
    kept_locations_are_filtered(c, (g.references)(n));
    if goal_reachable(without_tests(g, c), seed_start(seed), bins, bin) {
        leaving_out_tests_adds_nothing(g, c, seed_start(seed), bins, bin);
    }
    assert(seed_start(seed) =~= seq![(seed.file, seed.position)]);
}

/// Binaries with how they reach a symbol are seen whole, one for one and in order.
pub proof fn reached_binaries_are_seen_whole(v: Seq<(PathBuf, Reachability)>)
    ensures
        bins_view(v).len() == v.len(),
        forall|i: int| 0 <= i < v.len() ==> #[trigger] bins_view(v)[i] == (v[i].0@, v[i].1),
{
}

} // verus!
