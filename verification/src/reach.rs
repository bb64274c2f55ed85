//! What a search finds, against the reference graph that it walks.

use crate::bfs::{
    asked, calls, complete, declared, failure, hit, hits_are_names_of_innermost_symbols, hits_at,
    is_caller, lawful, outlines, pushed, reached, refers, resolves, settled, Event, Spot,
};
use crate::path::Part;
use crate::symbols::{has_position, innermost};
use crate::types::{DocumentSymbol, Site};
use vstd::prelude::*;

verus! {

/// A reference graph: what a language server answers, whenever it is asked.
pub struct Graph {
    pub declaration: spec_fn(Spot) -> Spot,
    pub references: spec_fn(Spot) -> Seq<Site>,
    pub symbols: spec_fn(Seq<Part>) -> Seq<DocumentSymbol>,
}

/// Whether every answer of a log is that of a graph.
pub open spec fn answers_of(t: Seq<Event>, g: Graph) -> bool {
    &&& forall|n: Spot, d: Spot| #[trigger] resolves(t, n, d) ==> d == (g.declaration)(n)
    &&& forall|n: Spot, f: Seq<Site>| #[trigger] refers(t, n, f) ==> f == (g.references)(n)
    &&& forall|p: Seq<Part>, s: Seq<DocumentSymbol>| #[trigger]
        outlines(t, p, s) ==> s == (g.symbols)(p)
}

/// The references to a place, in a graph.
pub open spec fn references_of(g: Graph, n: Spot) -> Seq<Site> {
    (g.references)((g.declaration)(n))
}

/// Whether `m` is a symbol around a reference to `n`, outside the goals.
pub open spec fn step(g: Graph, goals: Set<Seq<Part>>, n: Spot, m: Spot) -> bool {
    !goals.contains(m.0) && exists|s: int|
        0 <= s < references_of(g, n).len() && (#[trigger] references_of(g, n)[s]).path == m.0
            && has_position(
            hits_at((g.symbols)(m.0), references_of(g, n)[s].range.start.line),
            m.1,
        )
}

/// Whether `k` steps lead from a start to `n`.
pub open spec fn steps_to(
    g: Graph,
    starts: Seq<Spot>,
    goals: Set<Seq<Part>>,
    n: Spot,
    k: nat,
) -> bool
    decreases k,
{
    if k == 0 {
        starts.contains(n)
    } else {
        exists|m: Spot| #[trigger]
            step(g, goals, m, n) && steps_to(g, starts, goals, m, (k - 1) as nat)
    }
}

/// Whether a place can be reached from a start.
pub open spec fn reachable(g: Graph, starts: Seq<Spot>, goals: Set<Seq<Part>>, n: Spot) -> bool {
    exists|k: nat| steps_to(g, starts, goals, n, k)
}

/// Whether a goal can be reached: it holds a reference to a reachable place.
pub open spec fn goal_reachable(
    g: Graph,
    starts: Seq<Spot>,
    goals: Set<Seq<Part>>,
    p: Seq<Part>,
) -> bool {
    goals.contains(p) && exists|n: Spot, s: int|
        #![trigger reachable(g, starts, goals, n), references_of(g, n)[s]]
        reachable(g, starts, goals, n) && 0 <= s < references_of(g, n).len() && references_of(
            g,
            n,
        )[s].path == p
}

/// Whether asking for the declaration of a declaration gives the same.
pub open spec fn declarations_stable(g: Graph) -> bool {
    forall|n: Spot| #[trigger]
        (g.declaration)((g.declaration)(n)) == (g.declaration)(n)
}

proof fn lawful_is_reachable(
    t: Seq<Event>,
    g: Graph,
    starts: Seq<Spot>,
    goals: Set<Seq<Part>>,
)
    requires
        lawful(t, starts, goals),
        answers_of(t, g),
    ensures
        forall|n: Spot, d: Spot| #[trigger]
            resolves(t, n, d) ==> reachable(g, starts, goals, n),
        forall|y: Spot, f: Seq<Site>| #[trigger]
            refers(t, y, f) ==> exists|m: Spot| #[trigger]
                reachable(g, starts, goals, m) && y == (g.declaration)(m),
    decreases t.len(),
{
    if t.len() > 0 {
        let u = t.drop_last();
        let e = t.last();
        assert(t =~= u.push(e));
        pushed(u, e);
        assert(answers_of(u, g)) by {
            assert forall|n: Spot, d: Spot| #[trigger] resolves(u, n, d) implies d == (
            g.declaration)(n) by {
                assert(resolves(t, n, d));
            }
            assert forall|n: Spot, f: Seq<Site>| #[trigger] refers(u, n, f) implies f == (
            g.references)(n) by {
                assert(refers(t, n, f));
            }
            assert forall|p: Seq<Part>, s: Seq<DocumentSymbol>| #[trigger]
                outlines(u, p, s) implies s == (g.symbols)(p) by {
                assert(outlines(t, p, s));
            }
        }
        lawful_is_reachable(u, g, starts, goals);
        assert forall|n: Spot, d: Spot| #[trigger] resolves(t, n, d) implies reachable(
            g,
            starts,
            goals,
            n,
        ) by {
            if !resolves(u, n, d) {
                assert(is_caller(u, starts, goals, n));
                if starts.contains(n) {
                    assert(steps_to(g, starts, goals, n, 0));
                } else {
                    let y = choose|y: Spot| calls(u, goals, n, y);
                    let (found, s, syms) = choose|
                        found: Seq<Site>,
                        s: int,
                        syms: Seq<DocumentSymbol>,
                    |
                        #![trigger refers(u, y, found), found[s], outlines(u, n.0, syms)]
                        refers(u, y, found) && 0 <= s < found.len() && found[s].path == n.0
                            && !goals.contains(n.0) && outlines(u, n.0, syms) && has_position(
                            hits_at(syms, found[s].range.start.line),
                            n.1,
                        );
                    assert(refers(u, y, found));
                    let m = choose|m: Spot| #[trigger]
                        reachable(g, starts, goals, m) && y == (g.declaration)(m);
                    let k = choose|k: nat| steps_to(g, starts, goals, m, k);
                    assert(references_of(g, m)[s].path == n.0);
                    assert(step(g, goals, m, n));
                    assert(steps_to(g, starts, goals, m, ((k + 1) - 1) as nat));
                    assert(steps_to(g, starts, goals, n, k + 1));
                }
            }
        }
        assert forall|y: Spot, f: Seq<Site>| #[trigger] refers(t, y, f) implies exists|m: Spot|
            #[trigger] reachable(g, starts, goals, m) && y == (g.declaration)(m) by {
            if !refers(u, y, f) {
                let m = choose|m: Spot| resolves(u, m, y);
                assert(resolves(u, m, y));
                assert(reachable(g, starts, goals, m));
            }
        }
    }
}

/// Whatever a search finds can be reached.
pub proof fn found_goals_are_reachable(
    t: Seq<Event>,
    g: Graph,
    starts: Seq<Spot>,
    goals: Set<Seq<Part>>,
    p: Seq<Part>,
)
    requires
        lawful(t, starts, goals),
        answers_of(t, g),
        hit(t, goals, p),
    ensures
        goal_reachable(g, starts, goals, p),
{
    lawful_is_reachable(t, g, starts, goals);
    let (y, f, s) = choose|y: Spot, f: Seq<Site>, s: int|
        #![trigger refers(t, y, f), f[s]]
        refers(t, y, f) && 0 <= s < f.len() && f[s].path == p;
    assert(refers(t, y, f));
    let m = choose|m: Spot| #[trigger]
        reachable(g, starts, goals, m) && y == (g.declaration)(m);
    assert(reachable(g, starts, goals, m) && references_of(g, m)[s].path == p);
}

proof fn visited_is_asked(
    t: Seq<Event>,
    g: Graph,
    starts: Seq<Spot>,
    goals: Set<Seq<Part>>,
    n: Spot,
)
    requires
        complete(t, Seq::empty(), starts, goals),
        answers_of(t, g),
        declarations_stable(g),
        reached(t, n),
    ensures
        asked(t, (g.declaration)(n)),
{
    let d = (g.declaration)(n);
    assert((g.declaration)(d) == d);
    if declared(t, n) {
        let x = choose|x: Spot| resolves(t, n, x);
        assert(resolves(t, n, x));
        assert(resolves(t, n, d));
        if !asked(t, d) {
            let y = choose|y: Spot| resolves(t, d, y);
            assert(resolves(t, d, y));
            assert(resolves(t, d, d));
        }
    } else {
        let m = choose|m: Spot| resolves(t, m, n);
        assert(resolves(t, m, n));
        assert((g.declaration)((g.declaration)(m)) == (g.declaration)(m));
        if !asked(t, n) {
            assert(declared(t, n));
        }
    }
}

proof fn reachable_is_visited(
    t: Seq<Event>,
    g: Graph,
    starts: Seq<Spot>,
    goals: Set<Seq<Part>>,
    n: Spot,
    k: nat,
)
    requires
        complete(t, Seq::empty(), starts, goals),
        answers_of(t, g),
        declarations_stable(g),
        steps_to(g, starts, goals, n, k),
    ensures
        reached(t, n),
    decreases k,
{
    let none = Seq::<Spot>::empty();
    if k == 0 {
        let i = choose|i: int| 0 <= i < starts.len() && starts[i] == n;
        assert(reached(t, starts[i]) || none.contains(starts[i]));
    } else {
        let m = choose|m: Spot| #[trigger]
            step(g, goals, m, n) && steps_to(g, starts, goals, m, (k - 1) as nat);
        reachable_is_visited(t, g, starts, goals, m, (k - 1) as nat);
        visited_is_asked(t, g, starts, goals, m);
        let d = (g.declaration)(m);
        let f = choose|f: Seq<Site>| refers(t, d, f);
        assert(refers(t, d, f));
        assert(f == references_of(g, m));
        let s = choose|s: int|
            0 <= s < references_of(g, m).len() && (#[trigger] references_of(g, m)[s]).path == n.0
                && has_position(
                hits_at((g.symbols)(n.0), references_of(g, m)[s].range.start.line),
                n.1,
            );
        let site = f[s];
        let line = site.range.start.line;
        assert(settled(t, none, goals, site));
        let syms = choose|syms: Seq<DocumentSymbol>|
            outlines(t, site.path, syms) && forall|j: int|
                0 <= j < hits_at(syms, line).len() ==> {
                    let x = (site.path, (#[trigger] hits_at(syms, line)[j]).position);
                    reached(t, x) || none.contains(x)
                };
        assert(outlines(t, site.path, syms));
        let hits = hits_at(syms, line);
        let j = choose|j: int| 0 <= j < hits.len() && (#[trigger] hits[j]).position == n.1;
        let x = (site.path, hits[j].position);
        assert(reached(t, x) || none.contains(x));
    }
}

/// A completed search finds exactly the goals that can be reached, where asking for the
/// declaration of a declaration gives the same.
pub proof fn search_finds_exactly_what_is_reachable(
    t: Seq<Event>,
    g: Graph,
    starts: Seq<Spot>,
    goals: Set<Seq<Part>>,
    p: Seq<Part>,
)
    requires
        lawful(t, starts, goals),
        complete(t, Seq::empty(), starts, goals),
        answers_of(t, g),
        declarations_stable(g),
    ensures
        hit(t, goals, p) <==> goal_reachable(g, starts, goals, p),
{
    if hit(t, goals, p) {
        found_goals_are_reachable(t, g, starts, goals, p);
    }
    if goal_reachable(g, starts, goals, p) {
        let (n, s) = choose|n: Spot, s: int|
            #![trigger reachable(g, starts, goals, n), references_of(g, n)[s]]
            reachable(g, starts, goals, n) && 0 <= s < references_of(g, n).len() && references_of(
                g,
                n,
            )[s].path == p;
        let k = choose|k: nat| steps_to(g, starts, goals, n, k);
        reachable_is_visited(t, g, starts, goals, n, k);
        visited_is_asked(t, g, starts, goals, n);
        let d = (g.declaration)(n);
        let f = choose|f: Seq<Site>| refers(t, d, f);
        assert(refers(t, d, f));
        assert(f[s].path == p);
    }
}

/// No place is asked for twice: two requests for a declaration, or for references, are about
/// different places.
pub proof fn no_place_is_asked_twice(
    t: Seq<Event>,
    starts: Seq<Spot>,
    goals: Set<Seq<Part>>,
    i: int,
    j: int,
)
    requires
        lawful(t, starts, goals),
        0 <= i < j < t.len(),
    ensures
        match (t[i], t[j]) {
            (Event::Declaration { at: a, .. }, Event::Declaration { at: b, .. }) => a != b,
            (Event::References { at: a, .. }, Event::References { at: b, .. }) => a != b,
            _ => true,
        },
    decreases t.len(),
{
    let u = t.drop_last();
    if j < t.len() - 1 {
        no_place_is_asked_twice(u, starts, goals, i, j);
    } else {
        assert(u[i] == t[i]);
        assert(failure(u[i]) is None);
        match t[i] {
            Event::Declaration { at, answer } => {
                assert(resolves(u, at, answer->Ok_0));
            },
            Event::References { at, answer } => {
                assert(refers(u, at, answer->Ok_0));
            },
            _ => {},
        }
    }
}

/// One step leads from a place to the name of an innermost symbol around a reference to what the
/// place is declared as, in a file that is no goal; and every such name is one step away.
pub proof fn a_step_leads_to_a_symbol_around_a_reference(
    g: Graph,
    goals: Set<Seq<Part>>,
    n: Spot,
    m: Spot,
)
    ensures
        step(g, goals, n, m) <==> !goals.contains(m.0) && exists|s: int, k: int|
            #![trigger innermost(
                (g.symbols)(m.0),
                (g.references)((g.declaration)(n))[s].range.start.line,
            )[k]]
            0 <= s < (g.references)((g.declaration)(n)).len() && (g.references)(
                (g.declaration)(n),
            )[s].path == m.0 && 0 <= k < innermost(
                (g.symbols)(m.0),
                (g.references)((g.declaration)(n))[s].range.start.line,
            ).len() && innermost(
                (g.symbols)(m.0),
                (g.references)((g.declaration)(n))[s].range.start.line,
            )[k].selection_range.start == m.1,
{
    let refs = references_of(g, n);
    let syms = (g.symbols)(m.0);
    if step(g, goals, n, m) {
        let s = choose|s: int|
            0 <= s < references_of(g, n).len() && (#[trigger] references_of(g, n)[s]).path == m.0
                && has_position(hits_at(syms, references_of(g, n)[s].range.start.line), m.1);
        let line = refs[s].range.start.line;
        hits_are_names_of_innermost_symbols(syms, line, m.1);
        let k = choose|k: int|
            0 <= k < innermost(syms, line).len() && (#[trigger] innermost(
                syms,
                line,
            )[k]).selection_range.start == m.1;
        assert(innermost(syms, (g.references)((g.declaration)(n))[s].range.start.line)[k]
            == innermost(syms, line)[k]);
    }
    if !goals.contains(m.0) && exists|s: int, k: int|
        #![trigger innermost(syms, (g.references)((g.declaration)(n))[s].range.start.line)[k]]
        0 <= s < (g.references)((g.declaration)(n)).len() && (g.references)(
            (g.declaration)(n),
        )[s].path == m.0 && 0 <= k < innermost(
            syms,
            (g.references)((g.declaration)(n))[s].range.start.line,
        ).len() && innermost(
            syms,
            (g.references)((g.declaration)(n))[s].range.start.line,
        )[k].selection_range.start == m.1 {
        let (s, k) = choose|s: int, k: int|
            #![trigger innermost(syms, (g.references)((g.declaration)(n))[s].range.start.line)[k]]
            0 <= s < (g.references)((g.declaration)(n)).len() && (g.references)(
                (g.declaration)(n),
            )[s].path == m.0 && 0 <= k < innermost(
                syms,
                (g.references)((g.declaration)(n))[s].range.start.line,
            ).len() && innermost(
                syms,
                (g.references)((g.declaration)(n))[s].range.start.line,
            )[k].selection_range.start == m.1;
        hits_are_names_of_innermost_symbols(syms, refs[s].range.start.line, m.1);
        assert(references_of(g, n)[s].path == m.0);
    }
}

/// The starts can be reached, and so can what is one step away from what can be reached.
pub proof fn what_is_reachable_is_closed(
    g: Graph,
    starts: Seq<Spot>,
    goals: Set<Seq<Part>>,
    n: Spot,
    m: Spot,
)
    ensures
        starts.contains(n) ==> reachable(g, starts, goals, n),
        reachable(g, starts, goals, n) && step(g, goals, n, m) ==> reachable(g, starts, goals, m),
{
    if starts.contains(n) {
        assert(steps_to(g, starts, goals, n, 0));
    }
    if reachable(g, starts, goals, n) && step(g, goals, n, m) {
        let k = choose|k: nat| steps_to(g, starts, goals, n, k);
        assert(steps_to(g, starts, goals, m, k + 1)) by {
            assert(step(g, goals, n, m) && steps_to(g, starts, goals, n, (k + 1 - 1) as nat));
        }
    }
}

/// Nothing else can be reached: what holds of the starts, and of what is one step away from what
/// it holds of, holds of everything that can be reached.
pub proof fn nothing_else_is_reachable(
    g: Graph,
    starts: Seq<Spot>,
    goals: Set<Seq<Part>>,
    holds: spec_fn(Spot) -> bool,
    n: Spot,
)
    requires
        forall|x: Spot| #[trigger] starts.contains(x) ==> holds(x),
        forall|x: Spot, y: Spot| #[trigger] step(g, goals, x, y) && holds(x) ==> holds(y),
        reachable(g, starts, goals, n),
    ensures
        holds(n),
{
    let k = choose|k: nat| steps_to(g, starts, goals, n, k);
    holds_after_steps(g, starts, goals, holds, n, k);
}

proof fn holds_after_steps(
    g: Graph,
    starts: Seq<Spot>,
    goals: Set<Seq<Part>>,
    holds: spec_fn(Spot) -> bool,
    n: Spot,
    k: nat,
)
    requires
        forall|x: Spot| #[trigger] starts.contains(x) ==> holds(x),
        forall|x: Spot, y: Spot| #[trigger] step(g, goals, x, y) && holds(x) ==> holds(y),
        steps_to(g, starts, goals, n, k),
    ensures
        holds(n),
    decreases k,
{
    if k > 0 {
        let m = choose|m: Spot| #[trigger]
            step(g, goals, m, n) && steps_to(g, starts, goals, m, (k - 1) as nat);
        holds_after_steps(g, starts, goals, holds, m, (k - 1) as nat);
    }
}

/// A goal can be reached exactly where a reference to what some reachable place is declared as
/// stands in it.
pub proof fn goals_are_reached_by_references(
    g: Graph,
    starts: Seq<Spot>,
    goals: Set<Seq<Part>>,
    p: Seq<Part>,
)
    ensures
        goal_reachable(g, starts, goals, p) <==> goals.contains(p) && exists|n: Spot, s: int|
            #![trigger reachable(g, starts, goals, n), (g.references)((g.declaration)(n))[s]]
            reachable(g, starts, goals, n) && 0 <= s < (g.references)((g.declaration)(n)).len() && (
            g.references)((g.declaration)(n))[s].path == p,
{
    if goal_reachable(g, starts, goals, p) {
        let (n, s) = choose|n: Spot, s: int|
            #![trigger reachable(g, starts, goals, n), references_of(g, n)[s]]
            reachable(g, starts, goals, n) && 0 <= s < references_of(g, n).len() && references_of(
                g,
                n,
            )[s].path == p;
        assert(reachable(g, starts, goals, n) && (g.references)((g.declaration)(n))[s].path == p);
    }
    if goals.contains(p) && exists|n: Spot, s: int|
        #![trigger reachable(g, starts, goals, n), (g.references)((g.declaration)(n))[s]]
        reachable(g, starts, goals, n) && 0 <= s < (g.references)((g.declaration)(n)).len() && (
        g.references)((g.declaration)(n))[s].path == p {
        let (n, s) = choose|n: Spot, s: int|
            #![trigger reachable(g, starts, goals, n), (g.references)((g.declaration)(n))[s]]
            reachable(g, starts, goals, n) && 0 <= s < (g.references)((g.declaration)(n)).len() && (
            g.references)((g.declaration)(n))[s].path == p;
        assert(reachable(g, starts, goals, n) && references_of(g, n)[s].path == p);
    }
}

} // verus!
