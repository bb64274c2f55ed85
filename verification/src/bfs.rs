//! BFS over `references` + `documentSymbol` + `declaration` to find which entrypoints are
//! reachable from the changed symbols.
//!
//! Two details drive the design:
//!
//! 1. **`documentSymbol` per step.** `references(file, pos)` returns references *to the
//!    symbol at `pos`*; feeding a reference straight back in just asks for the same symbol
//!    again. To get to the calling function, the innermost symbol around the reference is
//!    looked up and the position of its name is used.
//!
//! 2. **`declaration` to normalize impl → trait.** For methods inside `impl Trait for Type`,
//!    `references` only returns concrete-typed call sites; calls through `dyn Trait` are
//!    missed. Asking for the declaration first leads to the trait method, where `references`
//!    does pick up trait-dispatched callers. For other symbols the answer is the same
//!    position.

use crate::cve::cfg_test::{
    first_shown, kept_locations_are_filtered, knows_all, knows_more, knows_what_was_shown, lines_fit,
    more_knowledge_changes_nothing, text_view, CfgClassifier, Shown,
};
use crate::order::views;
use crate::origin::{
    at_work, extended, next_site, origins, origins_at_goal, origins_but, origins_declared,
    origins_done, origins_in_the_end, origins_outlined, origins_pause, origins_referred,
};
use crate::path::{Part, PathBuf};
use crate::paths::{contains_path, insert_path, path_set, paths_ascend, paths_view};
use crate::symbols::{
    distinct_hits, has_position, hits_are_complete, hits_view, innermost, pick_at, Hit, SymbolHit,
};
use crate::trace::positions_in;
use crate::turns::{
    breadth_first, landed, landed_pause, landings, noted_at_first, noted_in_order, noted_next,
    noted_so_far, queued, queued_next, symbol_places, taken_in_turn, turns_go_on, turns_pause,
    turns_stay,
};
use crate::types::{DocumentSymbol, Location, Position, Site};
use vstd::prelude::*;

verus! {

/// A place in a file, as contracts see it.
pub type Spot = (Seq<Part>, Position);

/// Why a request to the language server failed.
#[derive(Debug, Clone, PartialEq, Eq)]
pub struct BackendError {
    pub message: String,
}

/// A request and its outcome.
#[allow(inconsistent_fields)]
pub enum Event {
    Open { file: Seq<Part>, failure: Option<Seq<char>> },
    Declaration { at: Spot, answer: Result<Spot, Seq<char>> },
    References { at: Spot, answer: Result<Seq<Site>, Seq<char>> },
    Symbols { file: Seq<Part>, answer: Result<Seq<DocumentSymbol>, Seq<char>> },
}

/// A row of places, as contracts see it.
pub open spec fn spots(v: Seq<(PathBuf, Position)>) -> Seq<Spot> {
    v.map_values(|n: (PathBuf, Position)| (n.0@, n.1))
}

/// A row of locations, as contracts see it.
pub open spec fn sites(v: Seq<Location>) -> Seq<Site> {
    v.map_values(|l: Location| l@)
}

/// An opened file, with what came of it.
pub open spec fn open_event(file: Seq<Part>, r: Result<(), BackendError>) -> Event {
    Event::Open {
        file,
        failure: match r {
            Ok(_) => None,
            Err(e) => Some(e.message@),
        },
    }
}

/// A question for a declaration, with what came of it.
pub open spec fn declaration_event(
    at: Spot,
    r: Result<(PathBuf, Position), BackendError>,
) -> Event {
    Event::Declaration {
        at,
        answer: match r {
            Ok(n) => Ok((n.0@, n.1)),
            Err(e) => Err(e.message@),
        },
    }
}

/// A question for references, with what came of it.
pub open spec fn references_event(at: Spot, r: Result<Vec<Location>, BackendError>) -> Event {
    Event::References {
        at,
        answer: match r {
            Ok(v) => Ok(sites(v@)),
            Err(e) => Err(e.message@),
        },
    }
}

/// A question for the symbols of a file, with what came of it.
pub open spec fn symbols_event(
    file: Seq<Part>,
    r: Result<Vec<DocumentSymbol>, BackendError>,
) -> Event {
    Event::Symbols {
        file,
        answer: match r {
            Ok(v) => Ok(v@),
            Err(e) => Err(e.message@),
        },
    }
}

/// Language-server surface used by the BFS.
pub trait LspBackend {
    /// Open `file` for analysis. Idempotent.
    fn open(&mut self, file: &PathBuf) -> Result<(), BackendError>;

    /// Resolve the declaration of the symbol at `file:pos`. For trait-impl methods this jumps
    /// to the trait method declaration; otherwise it returns the input.
    fn declaration(&mut self, file: &PathBuf, pos: Position) -> Result<
        (PathBuf, Position),
        BackendError,
    >;

    /// References to the symbol at `file:pos`, its declaration not among them.
    fn references(&mut self, file: &PathBuf, pos: Position) -> Result<
        Vec<Location>,
        BackendError,
    >;

    /// The symbols of a file.
    fn document_symbols(&mut self, file: &PathBuf) -> Result<Vec<DocumentSymbol>, BackendError>;

    /// The text of a file, where it can be read.
    fn source(&mut self, _file: &PathBuf) -> Option<String> {
        None
    }
}

/// A language server whose requests are put on record. The record exists for contracts only.
/// References in code that is compiled for tests only can be left out of the answers.
pub struct Recorder<B: LspBackend> {
    backend: B,
    gate: Option<CfgClassifier>,
    events: Ghost<Seq<Event>>,
    heard: Ghost<Seq<Event>>,
    shown: Ghost<Shown>,
}

/// Whether an answer was handed on as it was heard, but for the references that a gate leaves
/// out.
pub open spec fn handed_on(gate: Option<CfgClassifier>, heard: Event, told: Event) -> bool {
    match gate {
        None => told == heard,
        Some(c) => match heard {
            Event::References { at, answer: Ok(all) } => knows_all(c, all) && told
                == (Event::References { at, answer: Ok(c.kept(all)) }),
            _ => told == heard,
        },
    }
}

/// Whether a record goes on from another: what was put on record stays, all answers in between
/// were handed on, references in code that is compiled for tests only are left out of both or
/// of none, and what was known of such code still is.
#[verifier::opaque]
pub open spec fn goes_on<B: LspBackend>(a: Recorder<B>, b: Recorder<B>) -> bool {
    &&& a.log().is_prefix_of(b.log())
    &&& a.heard().is_prefix_of(b.heard())
    &&& b.log().len() - a.log().len() == b.heard().len() - a.heard().len()
    &&& a.gate() is Some <==> b.gate() is Some
    &&& a.gate() is Some ==> knows_more(a.gate()->0, b.gate()->0) && (knows_what_was_shown(
        a.gate()->0,
        a.shown(),
    ) ==> knows_what_was_shown(b.gate()->0, b.shown()))
    &&& forall|i: int|
        a.log().len() <= i < b.log().len() ==> handed_on(
            b.gate(),
            b.heard()[i - a.log().len() + a.heard().len()],
            #[trigger] b.log()[i],
        )
}

/// A record goes on from itself.
pub proof fn goes_on_from_itself<B: LspBackend>(a: Recorder<B>)
    ensures
        goes_on(a, a),
{
    reveal(goes_on);
}

/// A record goes on from what those before it went on from.
pub proof fn goes_on_through<B: LspBackend>(a: Recorder<B>, b: Recorder<B>, c: Recorder<B>)
    requires
        goes_on(a, b),
        goes_on(b, c),
    ensures
        goes_on(a, c),
{
    reveal(goes_on);
    assert forall|i: int| 0 <= i < a.log().len() implies a.log()[i] == c.log()[i] by {
        assert(a.log()[i] == b.log()[i]);
        assert(b.log()[i] == c.log()[i]);
    }
    assert forall|i: int| 0 <= i < a.heard().len() implies a.heard()[i] == c.heard()[i] by {
        assert(a.heard()[i] == b.heard()[i]);
        assert(b.heard()[i] == c.heard()[i]);
    }
    if a.gate() is Some {
        let x = a.gate()->0;
        let y = b.gate()->0;
        let z = c.gate()->0;
        assert forall|file: Seq<Part>| x.known(file) is Some implies #[trigger] z.known(file)
            == x.known(file) by {
            assert(y.known(file) == x.known(file));
        }
    }
    assert forall|i: int| a.log().len() <= i < c.log().len() implies handed_on(
        c.gate(),
        c.heard()[i - a.log().len() + a.heard().len()],
        #[trigger] c.log()[i],
    ) by {
        let j = i - a.log().len() + a.heard().len();
        if i < b.log().len() {
            assert(b.log()[i] == c.log()[i]);
            assert(b.heard()[j] == c.heard()[j]);
            assert(handed_on(b.gate(), b.heard()[j], b.log()[i]));
            if b.gate() is Some {
                if let Event::References { at, answer: Ok(all) } = b.heard()[j] {
                    more_knowledge_changes_nothing(b.gate()->0, c.gate()->0, all);
                }
            }
        }
    }
}

impl<B: LspBackend> Recorder<B> {
    /// The requests made so far, with the answers that were handed on.
    pub closed spec fn log(&self) -> Seq<Event> {
        self.events@
    }

    /// The requests made so far, with the answers of the language server.
    pub closed spec fn heard(&self) -> Seq<Event> {
        self.heard@
    }

    /// What decides on the references that are left out, if any are.
    pub closed spec fn gate(&self) -> Option<CfgClassifier> {
        self.gate
    }

    /// The files that were looked into for code that is compiled for tests only.
    pub closed spec fn shown(&self) -> Shown {
        self.shown@
    }

    /// The language server.
    pub closed spec fn server(&self) -> B {
        self.backend
    }

    /// Starts a record.
    pub fn new(backend: B) -> (r: Recorder<B>)
        ensures
            r.log() == Seq::<Event>::empty(),
            r.heard() == Seq::<Event>::empty(),
            r.gate() is None,
            r.server() == backend,
    {
        Recorder {
            backend,
            gate: None,
            events: Ghost(Seq::empty()),
            heard: Ghost(Seq::empty()),
            shown: Ghost(Seq::empty()),
        }
    }

    /// Ends the record, and gives the language server back.
    pub fn into_backend(self) -> (r: B)
        ensures
            r == self.server(),
    {
        self.backend
    }

    /// From here on, references in code that is compiled for tests only are left out. Files are
    /// looked into anew.
    pub fn leave_out_tests(&mut self)
        ensures
            final(self).log() == old(self).log(),
            final(self).heard() == old(self).heard(),
            final(self).server() == old(self).server(),
            final(self).shown() == Seq::<(Seq<Part>, Option<Seq<char>>)>::empty(),
            final(self).gate() is Some,
            knows_what_was_shown(final(self).gate()->0, final(self).shown()),
    {
        self.gate = Some(CfgClassifier::new());
        self.shown = Ghost(Seq::empty());
    }

    /// From here on, all references are handed on.
    pub fn take_in_tests(&mut self)
        ensures
            final(self).log() == old(self).log(),
            final(self).heard() == old(self).heard(),
            final(self).server() == old(self).server(),
            final(self).gate() is None,
    {
        self.gate = None;
    }

    /// Puts an answer on record that was handed on as it was heard.
    proof fn handed(before: Recorder<B>, after: Recorder<B>, e: Event)
        requires
            after.log() == before.log().push(e),
            after.heard() == before.heard().push(e),
            after.gate() == before.gate(),
            after.shown() == before.shown(),
            !(e is References && failure(e) is None) || before.gate() is None,
        ensures
            goes_on(before, after),
    {
        reveal(goes_on);
    }

    /// Opens a file for analysis.
    pub fn open(&mut self, file: &PathBuf) -> (r: Result<(), BackendError>)
        ensures
            final(self).log() == old(self).log().push(open_event(file@, r)),
            goes_on(*old(self), *final(self)),
    {
        let r = self.backend.open(file);
        self.events = Ghost(self.events@.push(open_event(file@, r)));
        self.heard = Ghost(self.heard@.push(open_event(file@, r)));
        proof {
            Self::handed(*old(self), *self, open_event(file@, r));
        }
        r
    }

    /// Asks for the declaration of the symbol at a place.
    pub fn declaration(&mut self, file: &PathBuf, pos: Position) -> (r: Result<
        (PathBuf, Position),
        BackendError,
    >)
        ensures
            final(self).log() == old(self).log().push(declaration_event((file@, pos), r)),
            goes_on(*old(self), *final(self)),
    {
        let r = self.backend.declaration(file, pos);
        self.events = Ghost(self.events@.push(declaration_event((file@, pos), r)));
        self.heard = Ghost(self.heard@.push(declaration_event((file@, pos), r)));
        proof {
            Self::handed(*old(self), *self, declaration_event((file@, pos), r));
        }
        r
    }

    /// Looks into the files of locations that were not looked into before.
    fn look_into(&mut self, gate: &mut CfgClassifier, locs: &Vec<Location>)
        ensures
            final(self).log() == old(self).log(),
            final(self).heard() == old(self).heard(),
            knows_more(*old(gate), *final(gate)),
            knows_all(*final(gate), sites(locs@)),
            knows_what_was_shown(*old(gate), old(self).shown()) ==> knows_what_was_shown(
                *final(gate),
                final(self).shown(),
            ),
    {
        let ghost all = sites(locs@);
        let mut i: usize = 0;
        while i < locs.len()
            invariant
                i <= locs@.len(),
                all == sites(locs@),
                self.events@ == old(self).events@,
                self.heard@ == old(self).heard@,
                knows_more(*old(gate), *gate),
                forall|k: int| 0 <= k < i ==> gate.known((#[trigger] all[k]).path) is Some,
                knows_what_was_shown(*old(gate), old(self).shown()) ==> knows_what_was_shown(
                    *gate,
                    self.shown@,
                ),
            decreases locs.len() - i,
        {
            let path = &locs[i].path;
            assert(all[i as int].path == path@);
            if !gate.knows(path) {
                let ghost before = *gate;
                let ghost had = self.shown@;
                let source = self.backend.source(path);
                let ghost text = text_view(source);
                match &source {
                    Some(s) => gate.show(path, Some(s.as_str())),
                    None => gate.show(path, None),
                }
                self.shown = Ghost(self.shown@.push((path@, text)));
                proof {
                    let now = self.shown@;
                    assert(now.drop_last() =~= had);
                    assert forall|file: Seq<Part>| before.known(file) is Some implies
                        #[trigger] gate.known(file) == before.known(file) by {}
                    assert forall|file: Seq<Part>| old(gate).known(file) is Some implies
                        #[trigger] gate.known(file) == old(gate).known(file) by {
                        assert(before.known(file) == old(gate).known(file));
                    }
                    if knows_what_was_shown(before, had) {
                        assert forall|file: Seq<Part>|
                            match first_shown(now, file) {
                                Some(text) => (#[trigger] gate.known(file)) is Some && lines_fit(
                                    text,
                                    gate.known(file)->0,
                                ),
                                None => gate.known(file) is None,
                            } by {
                            assert(match first_shown(had, file) {
                                Some(text) => before.known(file) is Some && lines_fit(
                                    text,
                                    before.known(file)->0,
                                ),
                                None => before.known(file) is None,
                            });
                        }
                    }
                }
            }
            i = i + 1;
        }
    }

    /// Asks for the references to the symbol at a place.
    pub fn references(&mut self, file: &PathBuf, pos: Position) -> (r: Result<
        Vec<Location>,
        BackendError,
    >)
        ensures
            final(self).log() == old(self).log().push(references_event((file@, pos), r)),
            goes_on(*old(self), *final(self)),
    {
        let r = self.backend.references(file, pos);
        let ghost heard = references_event((file@, pos), r);
        self.heard = Ghost(self.heard@.push(heard));
        let ghost mid = *self;
        let locs = match r {
            Ok(locs) => locs,
            Err(e) => {
                self.events = Ghost(self.events@.push(heard));
                proof {
                    Self::handed(*old(self), *self, heard);
                }
                return Err(e);
            },
        };
        let mut gate = match self.gate.take() {
            Some(gate) => gate,
            None => {
                self.events = Ghost(self.events@.push(heard));
                proof {
                    Self::handed(*old(self), *self, heard);
                }
                return Ok(locs);
            },
        };
        let ghost before = gate;
        self.look_into(&mut gate, &locs);
        let kept = gate.drop_test_gated(&locs);
        let ghost told = Event::References { at: (file@, pos), answer: Ok(sites(kept@)) };
        self.events = Ghost(self.events@.push(told));
        self.gate = Some(gate);
        proof {
            assert(sites(kept@) =~= gate.kept(sites(locs@))) by {
                assert(sites(locs@) =~= views(locs@));
                assert(sites(kept@) =~= views(kept@));
            }
            reveal(goes_on);
            assert(handed_on(Some(gate), heard, told));
        }
        Ok(kept)
    }

    /// Asks for the symbols of a file.
    pub fn document_symbols(&mut self, file: &PathBuf) -> (r: Result<
        Vec<DocumentSymbol>,
        BackendError,
    >)
        ensures
            final(self).log() == old(self).log().push(symbols_event(file@, r)),
            goes_on(*old(self), *final(self)),
    {
        let r = self.backend.document_symbols(file);
        self.events = Ghost(self.events@.push(symbols_event(file@, r)));
        self.heard = Ghost(self.heard@.push(symbols_event(file@, r)));
        proof {
            Self::handed(*old(self), *self, symbols_event(file@, r));
        }
        r
    }
}

// ---------------------------------------------------------------------------------------
// What a log says
// ---------------------------------------------------------------------------------------
/// The failure of a request, where it failed.
pub open spec fn failure(e: Event) -> Option<Seq<char>> {
    match e {
        Event::Open { failure, .. } => failure,
        Event::Declaration { answer, .. } => match answer {
            Ok(_) => None,
            Err(m) => Some(m),
        },
        Event::References { answer, .. } => match answer {
            Ok(_) => None,
            Err(m) => Some(m),
        },
        Event::Symbols { answer, .. } => match answer {
            Ok(_) => None,
            Err(m) => Some(m),
        },
    }
}

/// Whether every request succeeded.
pub open spec fn all_succeeded(t: Seq<Event>) -> bool {
    forall|i: int| 0 <= i < t.len() ==> failure(#[trigger] t[i]) is None
}

/// Whether a file was opened.
pub open spec fn opened(t: Seq<Event>, file: Seq<Part>) -> bool {
    t.contains(Event::Open { file, failure: None })
}

/// Whether the declaration of `n` was given as `d`.
pub open spec fn resolves(t: Seq<Event>, n: Spot, d: Spot) -> bool {
    t.contains(Event::Declaration { at: n, answer: Ok(d) })
}

/// Whether the references to `n` were given as `found`.
pub open spec fn refers(t: Seq<Event>, n: Spot, found: Seq<Site>) -> bool {
    t.contains(Event::References { at: n, answer: Ok(found) })
}

/// Whether the symbols of a file were given as `syms`.
pub open spec fn outlines(t: Seq<Event>, file: Seq<Part>, syms: Seq<DocumentSymbol>) -> bool {
    t.contains(Event::Symbols { file, answer: Ok(syms) })
}

/// Whether the declaration of a place was asked for.
pub open spec fn declared(t: Seq<Event>, n: Spot) -> bool {
    exists|d: Spot| resolves(t, n, d)
}

/// Whether the references to a place were asked for.
pub open spec fn asked(t: Seq<Event>, n: Spot) -> bool {
    exists|found: Seq<Site>| refers(t, n, found)
}

/// Whether a place was visited: its declaration was asked for, or it is one.
pub open spec fn reached(t: Seq<Event>, n: Spot) -> bool {
    declared(t, n) || exists|m: Spot| resolves(t, m, n)
}

/// The symbols around a line.
pub open spec fn hits_at(syms: Seq<DocumentSymbol>, line0: u32) -> Seq<Hit> {
    distinct_hits(innermost(syms, line0))
}

/// Whether `n` is a symbol around a reference to `m`, outside the goals.
pub open spec fn calls(t: Seq<Event>, goals: Set<Seq<Part>>, n: Spot, m: Spot) -> bool {
    exists|found: Seq<Site>, s: int, syms: Seq<DocumentSymbol>|
        #![trigger refers(t, m, found), found[s], outlines(t, n.0, syms)]
        refers(t, m, found) && 0 <= s < found.len() && found[s].path == n.0 && !goals.contains(n.0)
            && outlines(t, n.0, syms) && has_position(
            hits_at(syms, found[s].range.start.line),
            n.1,
        )
}

/// Whether a reference in a file was found.
pub open spec fn referenced_from(t: Seq<Event>, file: Seq<Part>) -> bool {
    exists|m: Spot, found: Seq<Site>, s: int|
        #![trigger refers(t, m, found), found[s]]
        refers(t, m, found) && 0 <= s < found.len() && found[s].path == file
}

/// Whether a place is a start or a symbol around a reference.
pub open spec fn is_caller(
    t: Seq<Event>,
    starts: Seq<Spot>,
    goals: Set<Seq<Part>>,
    n: Spot,
) -> bool {
    starts.contains(n) || exists|m: Spot| calls(t, goals, n, m)
}

/// Whether a request was due, after the requests of `t`: each file is opened first, only
/// places that a search leads to are asked for, and none twice. Nothing follows a failure.
pub open spec fn due(t: Seq<Event>, starts: Seq<Spot>, goals: Set<Seq<Part>>, e: Event) -> bool {
    all_succeeded(t) && match e {
        Event::Open { .. } => true,
        Event::Declaration { at, .. } => opened(t, at.0) && is_caller(t, starts, goals, at)
            && !declared(t, at),
        Event::References { at, .. } => opened(t, at.0) && (exists|m: Spot| resolves(t, m, at))
            && !asked(t, at),
        Event::Symbols { file, .. } => opened(t, file) && referenced_from(t, file)
            && !goals.contains(file),
    }
}

/// Whether every request was due when it was made.
pub open spec fn lawful(t: Seq<Event>, starts: Seq<Spot>, goals: Set<Seq<Part>>) -> bool
    decreases t.len(),
{
    t.len() == 0 || (lawful(t.drop_last(), starts, goals) && due(
        t.drop_last(),
        starts,
        goals,
        t.last(),
    ))
}

/// Whether the symbols around a found reference were visited, or wait in `q`.
pub open spec fn settled(t: Seq<Event>, q: Seq<Spot>, goals: Set<Seq<Part>>, site: Site) -> bool {
    goals.contains(site.path) || exists|syms: Seq<DocumentSymbol>|
        outlines(t, site.path, syms) && forall|k: int|
            0 <= k < hits_at(syms, site.range.start.line).len() ==> {
                let n = (
                    site.path,
                    (#[trigger] hits_at(syms, site.range.start.line)[k]).position,
                );
                reached(t, n) || q.contains(n)
            }
}

/// Whether a search is finished but for the places in `q`: every start was visited, the
/// references to the declaration of every visited place were asked for, and the symbols
/// around every reference outside the goals were visited. Of a declaration that is itself
/// declared elsewhere, the latter counts.
pub open spec fn complete(
    t: Seq<Event>,
    q: Seq<Spot>,
    starts: Seq<Spot>,
    goals: Set<Seq<Part>>,
) -> bool {
    &&& forall|i: int|
        0 <= i < starts.len() ==> reached(t, #[trigger] starts[i]) || q.contains(starts[i])
    &&& forall|n: Spot, d: Spot| #[trigger]
        resolves(t, n, d) ==> asked(t, d) || (d != n && declared(t, d))
    &&& forall|n: Spot, found: Seq<Site>, s: int|
        #![trigger refers(t, n, found), found[s]]
        refers(t, n, found) && 0 <= s < found.len() ==> settled(t, q, goals, found[s])
}

/// Whether a goal was found: a reference stands in it.
pub open spec fn hit(t: Seq<Event>, goals: Set<Seq<Part>>, p: Seq<Part>) -> bool {
    goals.contains(p) && referenced_from(t, p)
}

// ---------------------------------------------------------------------------------------
// Steps
// ---------------------------------------------------------------------------------------
/// The reference that is being worked on: the place asked for, what was found, and how far.
pub type Work = Option<(Spot, Seq<Site>, int)>;

/// What holds between two requests. The references to the place in `hole` are asked for next.
spec fn steady(
    t: Seq<Event>,
    q: Seq<Spot>,
    seen: Seq<Spot>,
    starts: Seq<Spot>,
    goals: Set<Seq<Part>>,
    work: Work,
    hole: Option<Spot>,
) -> bool {
    &&& lawful(t, starts, goals)
    &&& all_succeeded(t)
    &&& forall|n: Spot| #[trigger] seen.contains(n) <==> reached(t, n)
    &&& forall|n: Spot| #[trigger] asked(t, n) ==> reached(t, n)
    &&& forall|n: Spot| #[trigger] q.contains(n) ==> is_caller(t, starts, goals, n)
    &&& forall|i: int|
        0 <= i < starts.len() ==> reached(t, #[trigger] starts[i]) || q.contains(starts[i])
    &&& forall|n: Spot, d: Spot| #[trigger]
        resolves(t, n, d) ==> asked(t, d) || (d != n && declared(t, d)) || hole == Some(d)
    &&& forall|n: Spot, found: Seq<Site>, s: int|
        #![trigger refers(t, n, found), found[s]]
        refers(t, n, found) && 0 <= s < found.len() ==> settled(t, q, goals, found[s]) || (
        work matches Some(w) && w.0 == n && w.1 == found && w.2 <= s)
}

/// What a longer log holds.
pub proof fn pushed(t: Seq<Event>, e: Event)
    ensures
        forall|x: Event| #[trigger] t.push(e).contains(x) <==> (t.contains(x) || x == e),
        t.push(e).drop_last() == t,
        t.push(e).last() == e,
{
    assert forall|x: Event| #[trigger] t.push(e).contains(x) <==> (t.contains(x) || x == e) by {
        if t.contains(x) {
            let i = choose|i: int| 0 <= i < t.len() && t[i] == x;
            assert(t.push(e)[i] == x);
        }
        if x == e {
            assert(t.push(e)[t.len() as int] == x);
        }
    }
    assert(t.push(e).drop_last() =~= t);
}

/// A place that is found stays found in a longer log.
proof fn calls_stay(t: Seq<Event>, e: Event, goals: Set<Seq<Part>>, n: Spot, m: Spot)
    requires
        calls(t, goals, n, m),
    ensures
        calls(t.push(e), goals, n, m),
{
    pushed(t, e);
    let u = t.push(e);
    let (found, s, syms) = choose|found: Seq<Site>, s: int, syms: Seq<DocumentSymbol>|
        #![trigger refers(t, m, found), found[s], outlines(t, n.0, syms)]
        refers(t, m, found) && 0 <= s < found.len() && found[s].path == n.0 && !goals.contains(n.0)
            && outlines(t, n.0, syms) && has_position(
            hits_at(syms, found[s].range.start.line),
            n.1,
        );
    assert(refers(u, m, found));
    assert(found[s].path == n.0);
    assert(outlines(u, n.0, syms));
}

proof fn callers_stay(
    t: Seq<Event>,
    e: Event,
    starts: Seq<Spot>,
    goals: Set<Seq<Part>>,
    n: Spot,
)
    requires
        is_caller(t, starts, goals, n),
    ensures
        is_caller(t.push(e), starts, goals, n),
{
    if !starts.contains(n) {
        let m = choose|m: Spot| calls(t, goals, n, m);
        calls_stay(t, e, goals, n, m);
    }
}

proof fn settled_stays(
    t: Seq<Event>,
    e: Event,
    q: Seq<Spot>,
    more: Seq<Spot>,
    goals: Set<Seq<Part>>,
    site: Site,
)
    requires
        settled(t, q, goals, site),
        forall|n: Spot| #[trigger] q.contains(n) ==> more.contains(n) || reached(t.push(e), n),
    ensures
        settled(t.push(e), more, goals, site),
{
    pushed(t, e);
    let u = t.push(e);
    if !goals.contains(site.path) {
        let line = site.range.start.line;
        let syms = choose|syms: Seq<DocumentSymbol>|
            outlines(t, site.path, syms) && forall|k: int|
                0 <= k < hits_at(syms, line).len() ==> {
                    let n = (site.path, (#[trigger] hits_at(syms, line)[k]).position);
                    reached(t, n) || q.contains(n)
                };
        assert(outlines(u, site.path, syms));
        assert forall|k: int| 0 <= k < hits_at(syms, line).len() implies {
            let n = (site.path, (#[trigger] hits_at(syms, line)[k]).position);
            reached(u, n) || more.contains(n)
        } by {
            let n = (site.path, hits_at(syms, line)[k].position);
            if reached(t, n) {
                reached_stays(t, e, n);
            }
        }
    }
}

proof fn reached_stays(t: Seq<Event>, e: Event, n: Spot)
    ensures
        reached(t, n) ==> reached(t.push(e), n),
        declared(t, n) ==> declared(t.push(e), n),
        asked(t, n) ==> asked(t.push(e), n),
{
    pushed(t, e);
    let u = t.push(e);
    if declared(t, n) {
        let d = choose|d: Spot| resolves(t, n, d);
        assert(resolves(u, n, d));
    }
    if exists|m: Spot| resolves(t, m, n) {
        let m = choose|m: Spot| resolves(t, m, n);
        assert(resolves(u, m, n));
    }
    if asked(t, n) {
        let f = choose|f: Seq<Site>| refers(t, n, f);
        assert(refers(u, n, f));
    }
}

/// A request that is neither about a declaration nor about references changes nothing.
proof fn quiet_step(
    t: Seq<Event>,
    e: Event,
    q: Seq<Spot>,
    seen: Seq<Spot>,
    starts: Seq<Spot>,
    goals: Set<Seq<Part>>,
    work: Work,
    hole: Option<Spot>,
)
    requires
        steady(t, q, seen, starts, goals, work, hole),
        e is Open || e is Symbols,
        due(t, starts, goals, e),
        failure(e) is None,
    ensures
        steady(t.push(e), q, seen, starts, goals, work, hole),
{
    let u = t.push(e);
    pushed(t, e);
    assert forall|n: Spot, d: Spot| #[trigger] resolves(u, n, d) implies resolves(t, n, d) by {}
    assert forall|n: Spot, f: Seq<Site>| #[trigger] refers(u, n, f) implies refers(t, n, f) by {}
    assert forall|n: Spot| #[trigger] reached(u, n) <==> reached(t, n) by {
        reached_stays(t, e, n);
    }
    assert forall|n: Spot| #[trigger] asked(u, n) <==> asked(t, n) by {
        reached_stays(t, e, n);
    }
    assert forall|n: Spot| #[trigger] declared(u, n) <==> declared(t, n) by {
        reached_stays(t, e, n);
    }
    assert forall|n: Spot| #[trigger] q.contains(n) implies is_caller(u, starts, goals, n) by {
        callers_stay(t, e, starts, goals, n);
    }
    assert forall|n: Spot, found: Seq<Site>, s: int|
        #![trigger refers(u, n, found), found[s]]
        refers(u, n, found) && 0 <= s < found.len() implies settled(u, q, goals, found[s]) || (
    work matches Some(w) && w.0 == n && w.1 == found && w.2 <= s) by {
        assert(refers(t, n, found));
        if settled(t, q, goals, found[s]) {
            settled_stays(t, e, q, q, goals, found[s]);
        }
    }
}

/// What a queue holds without its first place.
proof fn popped(q: Seq<Spot>)
    requires
        q.len() > 0,
    ensures
        forall|n: Spot| #[trigger] q.contains(n) ==> n == q[0] || q.drop_first().contains(n),
        forall|n: Spot| #[trigger] q.drop_first().contains(n) ==> q.contains(n),
{
    let r = q.drop_first();
    assert forall|n: Spot| #[trigger] q.contains(n) implies n == q[0] || r.contains(n) by {
        let i = choose|i: int| 0 <= i < q.len() && q[i] == n;
        if i > 0 {
            assert(r[i - 1] == n);
        }
    }
    assert forall|n: Spot| #[trigger] r.contains(n) implies q.contains(n) by {
        let i = choose|i: int| 0 <= i < r.len() && r[i] == n;
        assert(q[i + 1] == n);
    }
}

/// A queued place that was visited already can go.
proof fn skip_step(
    t: Seq<Event>,
    q: Seq<Spot>,
    seen: Seq<Spot>,
    starts: Seq<Spot>,
    goals: Set<Seq<Part>>,
)
    requires
        steady(t, q, seen, starts, goals, None, None),
        q.len() > 0,
        seen.contains(q[0]),
    ensures
        steady(t, q.drop_first(), seen, starts, goals, None, None),
{
    popped(q);
    let r = q.drop_first();
    assert forall|n: Spot, found: Seq<Site>, s: int|
        #![trigger refers(t, n, found), found[s]]
        refers(t, n, found) && 0 <= s < found.len() implies settled(t, r, goals, found[s]) by {
        requeued(t, q, r, goals, found[s]);
    }
}

/// A reference stays settled where the queue loses visited places only.
proof fn requeued(
    t: Seq<Event>,
    q: Seq<Spot>,
    r: Seq<Spot>,
    goals: Set<Seq<Part>>,
    site: Site,
)
    requires
        settled(t, q, goals, site),
        forall|n: Spot| #[trigger] q.contains(n) ==> r.contains(n) || reached(t, n),
    ensures
        settled(t, r, goals, site),
{
    if !goals.contains(site.path) {
        let line = site.range.start.line;
        let syms = choose|syms: Seq<DocumentSymbol>|
            outlines(t, site.path, syms) && forall|k: int|
                0 <= k < hits_at(syms, line).len() ==> {
                    let n = (site.path, (#[trigger] hits_at(syms, line)[k]).position);
                    reached(t, n) || q.contains(n)
                };
        assert forall|k: int| 0 <= k < hits_at(syms, line).len() implies {
            let n = (site.path, (#[trigger] hits_at(syms, line)[k]).position);
            reached(t, n) || r.contains(n)
        } by {
            let n = (site.path, hits_at(syms, line)[k].position);
            assert(reached(t, n) || q.contains(n));
        }
    }
}

/// The declaration of a new place is due.
proof fn declaration_due(
    t: Seq<Event>,
    q: Seq<Spot>,
    seen: Seq<Spot>,
    starts: Seq<Spot>,
    goals: Set<Seq<Part>>,
    e: Event,
)
    requires
        steady(t, q, seen, starts, goals, None, None),
        q.len() > 0,
        !seen.contains(q[0]),
        opened(t, q[0].0),
        e matches Event::Declaration { at, .. } && at == q[0],
    ensures
        due(t, starts, goals, e),
{
    assert(q.contains(q[0]));
    assert(!reached(t, q[0]));
}

/// The declaration of a new place, answered. Where it was visited before, nothing is left to
/// ask of it; otherwise its references are next.
proof fn declaration_step(
    t: Seq<Event>,
    q: Seq<Spot>,
    seen: Seq<Spot>,
    starts: Seq<Spot>,
    goals: Set<Seq<Part>>,
    d: Spot,
    more: Seq<Spot>,
)
    requires
        steady(t, q, seen, starts, goals, None, None),
        q.len() > 0,
        !seen.contains(q[0]),
        opened(t, q[0].0),
        forall|x: Spot| #[trigger]
            more.contains(x) <==> (seen.contains(x) || x == q[0] || x == d),
    ensures
        ({
            let e = Event::Declaration { at: q[0], answer: Ok(d) };
            let u = t.push(e);
            &&& d != q[0] && seen.contains(d) ==> steady(
                u,
                q.drop_first(),
                more,
                starts,
                goals,
                None,
                None,
            )
            &&& !(d != q[0] && seen.contains(d)) ==> steady(
                u,
                q.drop_first(),
                more,
                starts,
                goals,
                None,
                Some(d),
            ) && !asked(u, d)
            &&& resolves(u, q[0], d)
        }),
{
    let n = q[0];
    let e = Event::Declaration { at: n, answer: Ok(d) };
    let u = t.push(e);
    let r = q.drop_first();
    declaration_due(t, q, seen, starts, goals, e);
    pushed(t, e);
    popped(q);
    assert(resolves(u, n, d));
    assert(declared(u, n));
    assert forall|a: Spot, b: Spot| #[trigger] resolves(u, a, b) <==> (resolves(t, a, b) || (a == n
        && b == d)) by {}
    assert forall|a: Spot, f: Seq<Site>| #[trigger] refers(u, a, f) <==> refers(t, a, f) by {}
    assert forall|x: Spot| #[trigger] reached(u, x) <==> (reached(t, x) || x == n || x == d) by {
        reached_stays(t, e, x);
    }
    assert forall|x: Spot| #[trigger] asked(u, x) <==> asked(t, x) by {
        reached_stays(t, e, x);
    }
    assert forall|x: Spot| #[trigger] r.contains(x) implies is_caller(u, starts, goals, x) by {
        callers_stay(t, e, starts, goals, x);
    }
    assert forall|a: Spot, b: Spot| #[trigger] resolves(u, a, b) implies asked(u, b) || (b != a
        && declared(u, b)) || b == d by {
        if resolves(t, a, b) {
            reached_stays(t, e, b);
        }
    }
    assert forall|a: Spot, found: Seq<Site>, s: int|
        #![trigger refers(u, a, found), found[s]]
        refers(u, a, found) && 0 <= s < found.len() implies settled(u, r, goals, found[s]) by {
        assert(refers(t, a, found));
        settled_stays(t, e, q, r, goals, found[s]);
    }
    if d != n && seen.contains(d) {
        assert(reached(t, d));
        assert(asked(t, d) || declared(t, d)) by {
            if !declared(t, d) {
                let m = choose|m: Spot| resolves(t, m, d);
                assert(resolves(t, m, d));
            }
        }
        reached_stays(t, e, d);
        assert forall|a: Spot, b: Spot| #[trigger] resolves(u, a, b) implies asked(u, b) || (b != a
            && declared(u, b)) by {
            if b == d {
                if a == d {
                    // A place declared by itself is not new here, so its references were asked for.
                    assert(resolves(t, a, b));
                }
            }
        }
    } else {
        if asked(t, d) {
            assert(reached(t, d));
        }
    }
}

/// The references to a place, answered.
proof fn references_step(
    t: Seq<Event>,
    q: Seq<Spot>,
    seen: Seq<Spot>,
    starts: Seq<Spot>,
    goals: Set<Seq<Part>>,
    d: Spot,
    found: Seq<Site>,
)
    requires
        steady(t, q, seen, starts, goals, None, Some(d)),
        !asked(t, d),
        opened(t, d.0),
        exists|m: Spot| resolves(t, m, d),
    ensures
        steady(
            t.push(Event::References { at: d, answer: Ok(found) }),
            q,
            seen,
            starts,
            goals,
            Some((d, found, 0)),
            None,
        ),
{
    let e = Event::References { at: d, answer: Ok(found) };
    let u = t.push(e);
    pushed(t, e);
    assert(due(t, starts, goals, e));
    assert(refers(u, d, found));
    assert forall|a: Spot, b: Spot| #[trigger] resolves(u, a, b) <==> resolves(t, a, b) by {}
    assert forall|x: Spot| #[trigger] reached(u, x) <==> reached(t, x) by {
        reached_stays(t, e, x);
    }
    assert forall|x: Spot| #[trigger] declared(u, x) <==> declared(t, x) by {
        reached_stays(t, e, x);
    }
    assert forall|x: Spot| #[trigger] asked(u, x) <==> (asked(t, x) || x == d) by {
        reached_stays(t, e, x);
        if asked(u, x) {
            let f = choose|f: Seq<Site>| refers(u, x, f);
            if x != d {
                assert(refers(t, x, f));
            }
        }
    }
    let m = choose|m: Spot| resolves(t, m, d);
    assert(resolves(t, m, d));
    assert forall|x: Spot| #[trigger] q.contains(x) implies is_caller(u, starts, goals, x) by {
        callers_stay(t, e, starts, goals, x);
    }
    assert forall|a: Spot, f: Seq<Site>, s: int|
        #![trigger refers(u, a, f), f[s]]
        refers(u, a, f) && 0 <= s < f.len() implies settled(u, q, goals, f[s]) || (a == d && f
        == found && 0 <= s) by {
        if refers(t, a, f) {
            settled_stays(t, e, q, q, goals, f[s]);
        }
    }
}

/// A reference in a goal needs no further step.
proof fn goal_step(
    t: Seq<Event>,
    q: Seq<Spot>,
    seen: Seq<Spot>,
    starts: Seq<Spot>,
    goals: Set<Seq<Part>>,
    d: Spot,
    found: Seq<Site>,
    i: int,
)
    requires
        steady(t, q, seen, starts, goals, Some((d, found, i)), None),
        0 <= i < found.len(),
        goals.contains(found[i].path),
    ensures
        steady(t, q, seen, starts, goals, Some((d, found, i + 1)), None),
{
    assert(settled(t, q, goals, found[i]));
}

/// The symbols around a reference, put into the queue.
proof fn site_step(
    t: Seq<Event>,
    q: Seq<Spot>,
    seen: Seq<Spot>,
    starts: Seq<Spot>,
    goals: Set<Seq<Part>>,
    d: Spot,
    found: Seq<Site>,
    i: int,
    syms: Seq<DocumentSymbol>,
    more: Seq<Spot>,
)
    requires
        steady(t, q, seen, starts, goals, Some((d, found, i)), None),
        refers(t, d, found),
        0 <= i < found.len(),
        !goals.contains(found[i].path),
        outlines(t, found[i].path, syms),
        forall|x: Spot| #[trigger]
            more.contains(x) <==> (q.contains(x) || (x.0 == found[i].path && has_position(
                hits_at(syms, found[i].range.start.line),
                x.1,
            ))),
    ensures
        steady(t, more, seen, starts, goals, Some((d, found, i + 1)), None),
{
    let site = found[i];
    let hits = hits_at(syms, site.range.start.line);
    assert(settled(t, more, goals, site)) by {
        assert forall|k: int| 0 <= k < hits.len() implies {
            let n = (site.path, (#[trigger] hits[k]).position);
            reached(t, n) || more.contains(n)
        } by {
            let n = (site.path, hits[k].position);
            assert(has_position(hits, n.1));
            assert(more.contains(n));
        }
    }
    assert forall|x: Spot| #[trigger] more.contains(x) implies is_caller(t, starts, goals, x) by {
        if !q.contains(x) {
            assert(calls(t, goals, x, d)) by {
                assert(refers(t, d, found) && found[i].path == x.0 && outlines(t, x.0, syms));
            }
        }
    }
    assert forall|n: Spot| #[trigger] q.contains(n) implies more.contains(n) || reached(t, n) by {}
    assert forall|a: Spot, f: Seq<Site>, s: int|
        #![trigger refers(t, a, f), f[s]]
        refers(t, a, f) && 0 <= s < f.len() implies settled(t, more, goals, f[s]) || (a == d && f
        == found && i + 1 <= s) by {
        if a == d && f == found && s == i {
        } else if settled(t, q, goals, f[s]) {
            requeued(t, q, more, goals, f[s]);
        }
    }
}

// ---------------------------------------------------------------------------------------
// Parents
// ---------------------------------------------------------------------------------------
/// A place and the one that led to it.
pub type Link = (Spot, Option<Spot>);

/// The parent pointers of a search, in the order in which places were found.
pub type ParentMap = Vec<((PathBuf, Position), Option<(PathBuf, Position)>)>;

/// A place, as contracts see it.
pub open spec fn spot(n: (PathBuf, Position)) -> Spot {
    (n.0@, n.1)
}

/// Parent pointers, as contracts see them.
pub open spec fn links(v: Seq<((PathBuf, Position), Option<(PathBuf, Position)>)>) -> Seq<Link> {
    v.map_values(
        |l: ((PathBuf, Position), Option<(PathBuf, Position)>)|
            (
                spot(l.0),
                match l.1 {
                    Some(p) => Some(spot(p)),
                    None => None,
                },
            ),
    )
}

/// Whether a place has an entry.
pub open spec fn has_key(ls: Seq<Link>, n: Spot) -> bool {
    exists|i: int| 0 <= i < ls.len() && (#[trigger] ls[i]).0 == n
}

/// Whether a reference was found at a place.
pub open spec fn found_at(t: Seq<Event>, m: Spot, n: Spot) -> bool {
    exists|found: Seq<Site>, s: int|
        #![trigger refers(t, m, found), found[s]]
        refers(t, m, found) && 0 <= s < found.len() && found[s].path == n.0 && found[s].range.start
            == n.1
}

/// Whether one place led to another: it is declared there, a symbol around a reference to it
/// stands there, or a reference to it stands there in a goal.
pub open spec fn led(t: Seq<Event>, goals: Set<Seq<Part>>, p: Spot, n: Spot) -> bool {
    resolves(t, p, n) || calls(t, goals, n, p) || (goals.contains(n.0) && found_at(t, p, n))
}

/// Whether parent pointers are sound: every place has one entry, a place without a parent is
/// a start, and a parent stands before the place that it led to.
pub open spec fn linked(
    ls: Seq<Link>,
    t: Seq<Event>,
    starts: Seq<Spot>,
    goals: Set<Seq<Part>>,
) -> bool {
    &&& forall|i: int, j: int|
        0 <= i < j < ls.len() ==> (#[trigger] ls[i]).0 != (#[trigger] ls[j]).0
    &&& forall|i: int|
        0 <= i < ls.len() ==> match (#[trigger] ls[i]).1 {
            None => starts.contains(ls[i].0),
            Some(p) => led(t, goals, p, ls[i].0) && exists|j: int|
                0 <= j < i && (#[trigger] ls[j]).0 == p,
        }
}

proof fn found_stays(t: Seq<Event>, e: Event, m: Spot, n: Spot)
    requires
        found_at(t, m, n),
    ensures
        found_at(t.push(e), m, n),
{
    pushed(t, e);
    let (found, s) = choose|found: Seq<Site>, s: int|
        #![trigger refers(t, m, found), found[s]]
        refers(t, m, found) && 0 <= s < found.len() && found[s].path == n.0 && found[s].range.start
            == n.1;
    assert(refers(t.push(e), m, found));
    assert(found[s].path == n.0);
}

proof fn links_stay(
    ls: Seq<Link>,
    t: Seq<Event>,
    e: Event,
    starts: Seq<Spot>,
    goals: Set<Seq<Part>>,
)
    requires
        linked(ls, t, starts, goals),
    ensures
        linked(ls, t.push(e), starts, goals),
{
    pushed(t, e);
    let u = t.push(e);
    assert forall|i: int| 0 <= i < ls.len() implies match (#[trigger] ls[i]).1 {
        None => starts.contains(ls[i].0),
        Some(p) => led(u, goals, p, ls[i].0) && exists|j: int|
            0 <= j < i && (#[trigger] ls[j]).0 == p,
    } by {
        if let Some(p) = ls[i].1 {
            let n = ls[i].0;
            assert(led(t, goals, p, n));
            if resolves(t, p, n) {
                assert(resolves(u, p, n));
            } else if calls(t, goals, n, p) {
                calls_stay(t, e, goals, n, p);
            } else {
                found_stays(t, e, p, n);
            }
        }
    }
}

/// The entries after one more was offered.
pub open spec fn with_link(ls: Seq<Link>, n: Spot, parent: Option<Spot>) -> Seq<Link> {
    if has_key(ls, n) {
        ls
    } else {
        ls.push((n, parent))
    }
}

proof fn link_added(
    ls: Seq<Link>,
    n: Spot,
    parent: Option<Spot>,
    t: Seq<Event>,
    starts: Seq<Spot>,
    goals: Set<Seq<Part>>,
)
    requires
        linked(ls, t, starts, goals),
        match parent {
            None => starts.contains(n),
            Some(p) => led(t, goals, p, n) && has_key(ls, p),
        },
    ensures
        linked(with_link(ls, n, parent), t, starts, goals),
        forall|x: Spot| #[trigger]
            has_key(with_link(ls, n, parent), x) <==> (has_key(ls, x) || x == n),
{
    let all = with_link(ls, n, parent);
    if !has_key(ls, n) {
        assert forall|x: Spot| #[trigger] has_key(all, x) <==> (has_key(ls, x) || x == n) by {
            if has_key(ls, x) {
                let i = choose|i: int| 0 <= i < ls.len() && (#[trigger] ls[i]).0 == x;
                assert(all[i].0 == x);
            }
            if x == n {
                assert(all[ls.len() as int].0 == x);
            }
            if has_key(all, x) {
                let i = choose|i: int| 0 <= i < all.len() && (#[trigger] all[i]).0 == x;
                if i < ls.len() {
                    assert(ls[i].0 == x);
                }
            }
        }
        assert forall|i: int, j: int| 0 <= i < j < all.len() implies (#[trigger] all[i]).0 != (
        #[trigger] all[j]).0 by {
            assert(all[i] == ls[i]);
            if j < ls.len() {
                assert(all[j] == ls[j]);
            }
        }
        assert forall|i: int| 0 <= i < all.len() implies match (#[trigger] all[i]).1 {
            None => starts.contains(all[i].0),
            Some(p) => led(t, goals, p, all[i].0) && exists|j: int|
                0 <= j < i && (#[trigger] all[j]).0 == p,
        } by {
            if i < ls.len() {
                assert(all[i] == ls[i]);
                if let Some(p) = ls[i].1 {
                    let j = choose|j: int| 0 <= j < i && (#[trigger] ls[j]).0 == p;
                    assert(all[j] == ls[j]);
                }
            } else if let Some(p) = parent {
                let j = choose|j: int| 0 <= j < ls.len() && (#[trigger] ls[j]).0 == p;
                assert(all[j] == ls[j]);
            }
        }
    }
}

/// Whether a place is among the given ones.
fn has_spot(v: &Vec<(PathBuf, Position)>, file: &PathBuf, pos: Position) -> (r: bool)
    ensures
        r == spots(v@).contains((file@, pos)),
{
    let mut i: usize = 0;
    while i < v.len()
        invariant
            i <= v@.len(),
            forall|j: int| 0 <= j < i ==> spots(v@)[j] != (file@, pos),
        decreases v.len() - i,
    {
        if v[i].1 == pos && v[i].0.same(file) {
            assert(spots(v@)[i as int] == (file@, pos));
            return true;
        }
        i = i + 1;
    }
    false
}

/// The entry of a place.
fn find_link(parents: &ParentMap, file: &PathBuf, pos: Position) -> (r: Option<usize>)
    ensures
        match r {
            Some(i) => i < parents@.len() && links(parents@)[i as int].0 == (file@, pos),
            None => !has_key(links(parents@), (file@, pos)),
        },
{
    let mut i: usize = 0;
    while i < parents.len()
        invariant
            i <= parents@.len(),
            forall|j: int| 0 <= j < i ==> (#[trigger] links(parents@)[j]).0 != (file@, pos),
        decreases parents.len() - i,
    {
        let key = &parents[i].0;
        assert(links(parents@)[i as int].0 == spot(*key));
        if key.1 == pos && key.0.same(file) {
            return Some(i);
        }
        i = i + 1;
    }
    None
}

/// Enters the parent of a place, unless it has one.
fn add_link(
    parents: &mut ParentMap,
    file: &PathBuf,
    pos: Position,
    parent: Option<(PathBuf, Position)>,
)
    ensures
        links(final(parents)@) == with_link(
            links(old(parents)@),
            (file@, pos),
            match parent {
                Some(p) => Some(spot(p)),
                None => None,
            },
        ),
{
    if find_link(parents, file, pos).is_some() {
        return;
    }
    let ghost before = links(parents@);
    let entry = ((file.clone(), pos), parent);
    let ghost had = parents@;
    parents.push(entry);
    assert(links(had.push(entry)) =~= links(had).push(
        (
            (file@, pos),
            match parent {
                Some(p) => Some(spot(p)),
                None => None,
            },
        ),
    ));
}

// ---------------------------------------------------------------------------------------
// Entry hits
// ---------------------------------------------------------------------------------------
/// The positions at which references stand, file by file.
pub type EntryHits = Vec<(PathBuf, Vec<Position>)>;

/// Whether a position is noted for a file.
pub open spec fn noted(v: Seq<(PathBuf, Vec<Position>)>, n: Spot) -> bool {
    exists|i: int|
        0 <= i < v.len() && (#[trigger] v[i]).0@ == n.0 && v[i].1@.contains(n.1)
}

/// Whether files are listed once each, with at least one position.
pub open spec fn tidy(v: Seq<(PathBuf, Vec<Position>)>) -> bool {
    &&& forall|i: int, j: int| 0 <= i < j < v.len() ==> (#[trigger] v[i]).0@ != (#[trigger] v[j]).0@
    &&& forall|i: int| 0 <= i < v.len() ==> (#[trigger] v[i]).1@.len() > 0
}

/// The positions in a file are those of its first entry.
proof fn positions_found(v: Seq<(PathBuf, Vec<Position>)>, p: Seq<Part>, i: int)
    requires
        0 <= i < v.len(),
        v[i].0@ == p,
        forall|j: int| 0 <= j < i ==> (#[trigger] v[j]).0@ != p,
    ensures
        positions_in(v, p) == v[i].1@,
    decreases v.len(),
{
    if i > 0 {
        let rest = v.drop_first();
        assert(v[0].0@ != p);
        assert forall|j: int| 0 <= j < i - 1 implies (#[trigger] rest[j]).0@ != p by {
            assert(rest[j] == v[j + 1]);
        }
        positions_found(rest, p, i - 1);
    }
}

/// A file without an entry has no positions.
proof fn positions_missed(v: Seq<(PathBuf, Vec<Position>)>, p: Seq<Part>)
    requires
        forall|j: int| 0 <= j < v.len() ==> (#[trigger] v[j]).0@ != p,
    ensures
        positions_in(v, p).len() == 0,
    decreases v.len(),
{
    if v.len() > 0 {
        let rest = v.drop_first();
        assert(v[0].0@ != p);
        assert forall|j: int| 0 <= j < rest.len() implies (#[trigger] rest[j]).0@ != p by {
            assert(rest[j] == v[j + 1]);
        }
        positions_missed(rest, p);
    }
}

/// Where two rows of entries agree on a file, its positions are the same.
proof fn positions_alike(
    a: Seq<(PathBuf, Vec<Position>)>,
    b: Seq<(PathBuf, Vec<Position>)>,
    p: Seq<Part>,
)
    requires
        a.len() == b.len(),
        forall|j: int|
            0 <= j < a.len() ==> (#[trigger] b[j]).0@ == a[j].0@ && (a[j].0@ == p ==> b[j].1@
                == a[j].1@),
    ensures
        positions_in(b, p) == positions_in(a, p),
    decreases a.len(),
{
    if a.len() > 0 {
        let c = a.drop_first();
        let d = b.drop_first();
        assert(b[0].0@ == a[0].0@);
        assert forall|j: int| 0 <= j < c.len() implies (#[trigger] d[j]).0@ == c[j].0@ && (c[j].0@
            == p ==> d[j].1@ == c[j].1@) by {
            assert(d[j] == b[j + 1] && c[j] == a[j + 1]);
        }
        positions_alike(c, d, p);
    }
}

/// An entry for another file leaves the positions in a file.
proof fn positions_extended(
    v: Seq<(PathBuf, Vec<Position>)>,
    e: (PathBuf, Vec<Position>),
    p: Seq<Part>,
)
    requires
        e.0@ != p,
    ensures
        positions_in(v.push(e), p) == positions_in(v, p),
    decreases v.len(),
{
    if v.len() == 0 {
        assert(v.push(e).drop_first() =~= v);
    } else {
        assert(v.push(e).drop_first() =~= v.drop_first().push(e));
        positions_extended(v.drop_first(), e, p);
    }
}

/// Notes a position for a file.
fn note_entry(v: &mut EntryHits, file: &PathBuf, pos: Position)
    requires
        tidy(old(v)@),
    ensures
        tidy(final(v)@),
        forall|n: Spot| #[trigger]
            noted(final(v)@, n) <==> (noted(old(v)@, n) || n == (file@, pos)),
        positions_in(final(v)@, file@) == positions_in(old(v)@, file@).push(pos),
        forall|p: Seq<Part>|
            p != file@ ==> #[trigger] positions_in(final(v)@, p) == positions_in(old(v)@, p),
{
    let ghost had = v@;
    let mut i: usize = 0;
    while i < v.len()
        invariant
            i <= v@.len(),
            v@ == had,
            had == old(v)@,
            tidy(had),
            forall|j: int| 0 <= j < i ==> (#[trigger] had[j]).0@ != file@,
        decreases v.len() - i,
    {
        if v[i].0.same(file) {
            v[i].1.push(pos);
            proof {
                let now = v@;
                assert(now[i as int].1@ == had[i as int].1@.push(pos));
                assert(now[i as int].1@[had[i as int].1@.len() as int] == pos);
                assert forall|j: int| 0 <= j < now.len() && j != i implies #[trigger] now[j]
                    == had[j] by {}
                assert forall|n: Spot| #[trigger] noted(now, n) <==> (noted(had, n) || n == (
                    file@,
                    pos,
                )) by {
                    if noted(had, n) {
                        let j = choose|j: int|
                            0 <= j < had.len() && (#[trigger] had[j]).0@ == n.0
                                && had[j].1@.contains(n.1);
                        let k = choose|k: int| 0 <= k < had[j].1@.len() && had[j].1@[k] == n.1;
                        assert(now[j].1@[k] == n.1);
                        assert(now[j].0@ == n.0);
                    }
                    if n == (file@, pos) {
                        assert(now[i as int].0@ == n.0);
                    }
                    if noted(now, n) {
                        let j = choose|j: int|
                            0 <= j < now.len() && (#[trigger] now[j]).0@ == n.0
                                && now[j].1@.contains(n.1);
                        let k = choose|k: int| 0 <= k < now[j].1@.len() && now[j].1@[k] == n.1;
                        if j != i || k < had[j].1@.len() {
                            assert(had[j].1@[k] == n.1);
                            assert(had[j].0@ == n.0);
                        }
                    }
                }
                positions_found(had, file@, i as int);
                positions_found(now, file@, i as int);
                assert forall|p: Seq<Part>| p != file@ implies #[trigger] positions_in(now, p)
                    == positions_in(had, p) by {
                    positions_alike(had, now, p);
                }
            }
            return;
        }
        i = i + 1;
    }
    let mut row: Vec<Position> = Vec::new();
    row.push(pos);
    assert(row@[0] == pos);
    let ghost last = row@;
    v.push((file.clone(), row));
    proof {
        let now = v@;
        assert forall|n: Spot| #[trigger] noted(now, n) <==> (noted(had, n) || n == (
            file@,
            pos,
        )) by {
            if noted(had, n) {
                let j = choose|j: int|
                    0 <= j < had.len() && (#[trigger] had[j]).0@ == n.0 && had[j].1@.contains(n.1);
                assert(now[j] == had[j]);
            }
            if n == (file@, pos) {
                assert(now[had.len() as int].0@ == n.0);
                assert(now[had.len() as int].1@.contains(n.1));
            }
            if noted(now, n) {
                let j = choose|j: int|
                    0 <= j < now.len() && (#[trigger] now[j]).0@ == n.0 && now[j].1@.contains(n.1);
                if j < had.len() {
                    assert(now[j] == had[j]);
                }
            }
        }
        positions_found(now, file@, had.len() as int);
        positions_missed(had, file@);
        assert(positions_in(now, file@) =~= positions_in(had, file@).push(pos));
        assert forall|p: Seq<Part>| p != file@ implies #[trigger] positions_in(now, p)
            == positions_in(had, p) by {
            positions_extended(had, now[had.len() as int], p);
            assert(now =~= had.push(now[had.len() as int]));
        }
    }
}

// ---------------------------------------------------------------------------------------
// The search
// ---------------------------------------------------------------------------------------
/// What a search has found out.
#[derive(Debug)]
pub struct BfsResult {
    /// The entrypoints that references lead to, in order.
    pub affected: Vec<PathBuf>,
    /// What led first to each place, in the order in which places were found.
    pub parents: ParentMap,
    /// The references in each affected entrypoint.
    pub entry_hits: EntryHits,
}

/// Whether a result is what the requests of `t` amount to: the goals that references lead to,
/// where these stand, and what led first to each place.
pub open spec fn result_is(
    r: BfsResult,
    t: Seq<Event>,
    starts: Seq<Spot>,
    goals: Set<Seq<Part>>,
) -> bool {
    let ls = links(r.parents@);
    &&& paths_ascend(paths_view(r.affected@))
    &&& forall|p: Seq<Part>| #[trigger] path_set(r.affected@).contains(p) <==> hit(t, goals, p)
    &&& tidy(r.entry_hits@)
    &&& forall|n: Spot| #[trigger]
        noted(r.entry_hits@, n) <==> goals.contains(n.0) && exists|m: Spot| found_at(t, m, n)
    &&& noted_in_order(r.entry_hits@, t, goals)
    &&& linked(ls, t, starts, goals)
    &&& origins(ls, t, starts, goals)
    &&& forall|n: Spot| #[trigger] reached(t, n) ==> has_key(ls, n)
    &&& forall|n: Spot| #[trigger] noted(r.entry_hits@, n) ==> has_key(ls, n)
}

/// Whether a reference was found at a place, and has been worked on.
spec fn logged(t: Seq<Event>, work: Work, n: Spot) -> bool {
    exists|m: Spot, f: Seq<Site>, s: int|
        #![trigger refers(t, m, f), f[s]]
        refers(t, m, f) && 0 <= s < f.len() && f[s].path == n.0 && f[s].range.start == n.1 && !(
        work matches Some(w) && w.0 == m && w.1 == f && w.2 <= s)
}

/// The state of a search.
struct Search {
    queue: Vec<(PathBuf, Position)>,
    head: usize,
    visited: Vec<(PathBuf, Position)>,
    result: BfsResult,
}

impl Search {
    /// The places that wait.
    spec fn waiting(self) -> Seq<Spot> {
        spots(self.queue@).skip(self.head as int)
    }

    spec fn valid(
        self,
        t: Seq<Event>,
        starts: Seq<Spot>,
        goals: Set<Seq<Part>>,
        work: Work,
        hole: Option<Spot>,
    ) -> bool {
        let ls = links(self.result.parents@);
        let eh = self.result.entry_hits@;
        &&& self.head <= self.queue@.len()
        &&& steady(t, self.waiting(), spots(self.visited@), starts, goals, work, hole)
        &&& linked(ls, t, starts, goals)
        &&& forall|n: Spot| #[trigger] spots(self.visited@).contains(n) ==> has_key(ls, n)
        &&& forall|n: Spot| #[trigger] self.waiting().contains(n) ==> has_key(ls, n)
        &&& forall|n: Spot| #[trigger] noted(eh, n) ==> has_key(ls, n)
        &&& tidy(eh)
        &&& forall|n: Spot| #[trigger] noted(eh, n) <==> goals.contains(n.0) && logged(t, work, n)
        &&& paths_ascend(paths_view(self.result.affected@))
        &&& forall|p: Seq<Part>| #[trigger]
            path_set(self.result.affected@).contains(p) <==> exists|pos: Position|
                noted(eh, (p, pos))
    }
}

/// Requests that are not about references leave the references as they are.
impl Search {
    /// Whether the queue holds what has come up, and places have been taken from it in turn.
    spec fn in_turn(self, t: Seq<Event>, starts: Seq<Spot>, goals: Set<Seq<Part>>) -> bool {
        let q = spots(self.queue@);
        &&& self.head <= q.len()
        &&& q == queued(t, starts, goals)
        &&& forall|c: int|
            0 <= c < self.head ==> spots(self.visited@).contains(#[trigger] q[c])
        &&& taken_in_turn(q, t, self.head as int)
    }

    /// A request that neither asks for a declaration nor tells of symbols leaves the turns.
    proof fn turn_paused(self, t: Seq<Event>, e: Event, starts: Seq<Spot>, goals: Set<Seq<Part>>)
        requires
            self.in_turn(t, starts, goals),
            e is Open || e is References,
        ensures
            self.in_turn(t.push(e), starts, goals),
    {
        queued_next(t, e, starts, goals);
        turns_pause(spots(self.queue@), t, e, self.head as int, self.head as int);
    }

    /// The place whose turn it is has been taken from the queue.
    proof fn turn_taken(
        self,
        now: Search,
        t: Seq<Event>,
        e: Event,
        starts: Seq<Spot>,
        goals: Set<Seq<Part>>,
    )
        requires
            self.in_turn(t, starts, goals),
            self.head < self.queue@.len(),
            e is Declaration,
            e->Declaration_at == spots(self.queue@)[self.head as int],
            !spots(self.visited@).contains(e->Declaration_at),
            now.queue@ == self.queue@,
            now.head == self.head + 1,
            spots(now.visited@).contains(e->Declaration_at),
            forall|x: Spot| #[trigger]
                spots(self.visited@).contains(x) ==> spots(now.visited@).contains(x),
        ensures
            now.in_turn(t.push(e), starts, goals),
    {
        let q = spots(self.queue@);
        queued_next(t, e, starts, goals);
        assert forall|c: int| 0 <= c < self.head implies #[trigger] q[c] != q[self.head as int] by {
            assert(spots(self.visited@).contains(q[c]));
        }
        turns_go_on(q, t, e, self.head as int);
        assert forall|c: int| 0 <= c < now.head implies spots(now.visited@).contains(
            #[trigger] q[c],
        ) by {
            if c < self.head {
                assert(spots(self.visited@).contains(q[c]));
            }
        }
    }

    /// Symbols have been put into the queue.
    proof fn turn_added(
        self,
        now: Search,
        t: Seq<Event>,
        e: Event,
        starts: Seq<Spot>,
        goals: Set<Seq<Part>>,
        row: Seq<Spot>,
    )
        requires
            self.in_turn(t, starts, goals),
            e is Symbols,
            queued(t.push(e), starts, goals) == queued(t, starts, goals) + row,
            spots(now.queue@) == spots(self.queue@) + row,
            now.head == self.head,
            now.visited@ == self.visited@,
        ensures
            now.in_turn(t.push(e), starts, goals),
    {
        let q = spots(self.queue@);
        turns_stay(q, row, t, self.head as int);
        turns_pause(q + row, t, e, self.head as int, self.head as int);
        assert forall|c: int| 0 <= c < now.head implies spots(now.visited@).contains(
            #[trigger] (q + row)[c],
        ) by {
            assert((q + row)[c] == q[c]);
        }
    }
}

proof fn logged_stays(t: Seq<Event>, e: Event, work: Work)
    requires
        !(e is References),
    ensures
        forall|n: Spot| #[trigger] logged(t.push(e), work, n) <==> logged(t, work, n),
{
    pushed(t, e);
    let u = t.push(e);
    assert forall|m: Spot, f: Seq<Site>| #[trigger] refers(u, m, f) <==> refers(t, m, f) by {}
    assert forall|n: Spot| #[trigger] logged(u, work, n) <==> logged(t, work, n) by {
        if logged(t, work, n) {
            let (m, f, s) = choose|m: Spot, f: Seq<Site>, s: int|
                #![trigger refers(t, m, f), f[s]]
                refers(t, m, f) && 0 <= s < f.len() && f[s].path == n.0 && f[s].range.start == n.1
                    && !(work matches Some(w) && w.0 == m && w.1 == f && w.2 <= s);
            assert(refers(u, m, f));
            assert(f[s].path == n.0);
        }
        if logged(u, work, n) {
            let (m, f, s) = choose|m: Spot, f: Seq<Site>, s: int|
                #![trigger refers(u, m, f), f[s]]
                refers(u, m, f) && 0 <= s < f.len() && f[s].path == n.0 && f[s].range.start == n.1
                    && !(work matches Some(w) && w.0 == m && w.1 == f && w.2 <= s);
            assert(refers(t, m, f));
            assert(f[s].path == n.0);
        }
    }
}

/// Newly found references have yet to be worked on.
proof fn logged_found(t: Seq<Event>, d: Spot, found: Seq<Site>)
    requires
        !asked(t, d),
    ensures
        forall|n: Spot| #[trigger]
            logged(
                t.push(Event::References { at: d, answer: Ok(found) }),
                Some((d, found, 0)),
                n,
            ) <==> logged(t, None, n),
{
    let e = Event::References { at: d, answer: Ok(found) };
    let u = t.push(e);
    pushed(t, e);
    let work: Work = Some((d, found, 0));
    assert forall|n: Spot| #[trigger] logged(u, work, n) <==> logged(t, None, n) by {
        if logged(t, None, n) {
            let (m, f, s) = choose|m: Spot, f: Seq<Site>, s: int|
                #![trigger refers(t, m, f), f[s]]
                refers(t, m, f) && 0 <= s < f.len() && f[s].path == n.0 && f[s].range.start == n.1;
            assert(asked(t, m));
            assert(refers(u, m, f));
            assert(f[s].path == n.0);
        }
        if logged(u, work, n) {
            let (m, f, s) = choose|m: Spot, f: Seq<Site>, s: int|
                #![trigger refers(u, m, f), f[s]]
                refers(u, m, f) && 0 <= s < f.len() && f[s].path == n.0 && f[s].range.start == n.1
                    && !(work matches Some(w) && w.0 == m && w.1 == f && w.2 <= s);
            assert(refers(t, m, f));
            assert(f[s].path == n.0);
        }
    }
}

/// One more reference has been worked on.
proof fn logged_next(t: Seq<Event>, d: Spot, found: Seq<Site>, i: int)
    requires
        refers(t, d, found),
        0 <= i < found.len(),
    ensures
        forall|n: Spot| #[trigger]
            logged(t, Some((d, found, i + 1)), n) <==> (logged(t, Some((d, found, i)), n) || n == (
                found[i].path,
                found[i].range.start,
            )),
{
    let w0: Work = Some((d, found, i));
    let w1: Work = Some((d, found, i + 1));
    let here = (found[i].path, found[i].range.start);
    assert forall|n: Spot| #[trigger] logged(t, w1, n) <==> (logged(t, w0, n) || n == here) by {
        if logged(t, w0, n) {
            let (m, f, s) = choose|m: Spot, f: Seq<Site>, s: int|
                #![trigger refers(t, m, f), f[s]]
                refers(t, m, f) && 0 <= s < f.len() && f[s].path == n.0 && f[s].range.start == n.1
                    && !(m == d && f == found && i <= s);
            assert(refers(t, m, f));
            assert(f[s].path == n.0);
        }
        if n == here {
            assert(refers(t, d, found));
            assert(found[i].path == n.0);
        }
        if logged(t, w1, n) {
            let (m, f, s) = choose|m: Spot, f: Seq<Site>, s: int|
                #![trigger refers(t, m, f), f[s]]
                refers(t, m, f) && 0 <= s < f.len() && f[s].path == n.0 && f[s].range.start == n.1
                    && !(m == d && f == found && i + 1 <= s);
            assert(refers(t, m, f));
            assert(f[s].path == n.0);
        }
    }
}

/// All references have been worked on.
proof fn logged_all(t: Seq<Event>, d: Spot, found: Seq<Site>)
    ensures
        forall|n: Spot| #[trigger]
            logged(t, Some((d, found, found.len() as int)), n) <==> logged(t, None, n),
{
    let w: Work = Some((d, found, found.len() as int));
    assert forall|n: Spot| #[trigger] logged(t, w, n) <==> logged(t, None, n) by {
        if logged(t, None, n) {
            let (m, f, s) = choose|m: Spot, f: Seq<Site>, s: int|
                #![trigger refers(t, m, f), f[s]]
                refers(t, m, f) && 0 <= s < f.len() && f[s].path == n.0 && f[s].range.start == n.1;
            assert(refers(t, m, f));
            assert(f[s].path == n.0);
        }
        if logged(t, w, n) {
            let (m, f, s) = choose|m: Spot, f: Seq<Site>, s: int|
                #![trigger refers(t, m, f), f[s]]
                refers(t, m, f) && 0 <= s < f.len() && f[s].path == n.0 && f[s].range.start == n.1
                    && !(m == d && f == found && found.len() <= s);
            assert(refers(t, m, f));
            assert(f[s].path == n.0);
        }
    }
}

/// What a search's log looks like after a failure.
spec fn failed_with(
    t: Seq<Event>,
    starts: Seq<Spot>,
    goals: Set<Seq<Part>>,
    e: BackendError,
) -> bool {
    lawful(t, starts, goals) && t.len() > 0 && failure(t.last()) == Some(e.message@)
}

impl Search {
    /// A quiet request keeps the state valid.
    proof fn quiet(
        self,
        t: Seq<Event>,
        e: Event,
        starts: Seq<Spot>,
        goals: Set<Seq<Part>>,
        work: Work,
        hole: Option<Spot>,
    )
        requires
            self.valid(t, starts, goals, work, hole),
            e is Open || e is Symbols,
            due(t, starts, goals, e),
            failure(e) is None,
        ensures
            self.valid(t.push(e), starts, goals, work, hole),
    {
        quiet_step(t, e, self.waiting(), spots(self.visited@), starts, goals, work, hole);
        links_stay(links(self.result.parents@), t, e, starts, goals);
        logged_stays(t, e, work);
    }
}

/// The places of a row of hits in a file.
spec fn hit_spots(file: Seq<Part>, hits: Seq<Hit>) -> Seq<Spot> {
    hits.map_values(|h: Hit| (file, h.position))
}

proof fn hit_spots_contain(file: Seq<Part>, hits: Seq<Hit>, x: Spot)
    ensures
        hit_spots(file, hits).contains(x) <==> x.0 == file && has_position(hits, x.1),
{
    let row = hit_spots(file, hits);
    if row.contains(x) {
        let i = choose|i: int| 0 <= i < row.len() && row[i] == x;
        assert(hits[i].position == x.1);
    }
    if x.0 == file && has_position(hits, x.1) {
        let i = choose|i: int| 0 <= i < hits.len() && (#[trigger] hits[i]).position == x.1;
        assert(row[i] == x);
    }
}

/// Puts the places of hits into the queue, and enters what led to them.
fn enqueue(
    queue: &mut Vec<(PathBuf, Position)>,
    parents: &mut ParentMap,
    file: &PathBuf,
    hits: &Vec<SymbolHit>,
    from: &(PathBuf, Position),
    Ghost(t): Ghost<Seq<Event>>,
    Ghost(starts): Ghost<Seq<Spot>>,
    Ghost(goals): Ghost<Set<Seq<Part>>>,
)
    requires
        linked(links(old(parents)@), t, starts, goals),
        has_key(links(old(parents)@), spot(*from)),
        forall|k: int|
            0 <= k < hits@.len() ==> calls(
                t,
                goals,
                (file@, (#[trigger] hits@[k]).position),
                spot(*from),
            ),
    ensures
        spots(final(queue)@) == spots(old(queue)@) + hit_spots(file@, hits_view(hits@)),
        linked(links(final(parents)@), t, starts, goals),
        forall|x: Spot| #[trigger] has_key(links(old(parents)@), x) ==> has_key(
            links(final(parents)@),
            x,
        ),
        extended(
            links(old(parents)@),
            links(final(parents)@),
            hit_spots(file@, hits_view(hits@)),
            spot(*from),
        ),
{
    let ghost before = spots(queue@);
    let ghost keys = links(parents@);
    let ghost row = hit_spots(file@, hits_view(hits@));
    let mut i: usize = 0;
    assert(before + row.take(0) =~= before);
    while i < hits.len()
        invariant
            i <= hits@.len() == row.len(),
            row == hit_spots(file@, hits_view(hits@)),
            spots(queue@) == before + row.take(i as int),
            linked(links(parents@), t, starts, goals),
            has_key(links(parents@), spot(*from)),
            forall|k: int|
                0 <= k < hits@.len() ==> calls(
                    t,
                    goals,
                    (file@, (#[trigger] hits@[k]).position),
                    spot(*from),
                ),
            forall|x: Spot| #[trigger] has_key(keys, x) ==> has_key(links(parents@), x),
            forall|k: int| 0 <= k < i ==> has_key(links(parents@), #[trigger] row[k]),
            keys.is_prefix_of(links(parents@)),
            forall|k: int|
                keys.len() <= k < links(parents@).len() ==> (#[trigger] links(parents@)[k]).1
                    == Some(spot(*from)) && row.contains(links(parents@)[k].0) && !has_key(
                    keys,
                    links(parents@)[k].0,
                ),
        decreases hits.len() - i,
    {
        let pos = hits[i].position;
        let ghost had = queue@;
        let ghost ls = links(parents@);
        proof {
            assert(row[i as int] == (file@, pos));
            link_added(ls, (file@, pos), Some(spot(*from)), t, starts, goals);
        }
        add_link(parents, file, pos, Some((from.0.clone(), from.1)));
        queue.push((file.clone(), pos));
        proof {
            let now = links(parents@);
            assert(now == with_link(ls, (file@, pos), Some(spot(*from))));
            assert forall|k: int| keys.len() <= k < now.len() implies (#[trigger] now[k]).1 == Some(
                spot(*from),
            ) && row.contains(now[k].0) && !has_key(keys, now[k].0) by {
                if k < ls.len() {
                    assert(now[k] == ls[k]);
                } else {
                    assert(row.contains(row[i as int]));
                }
            }
            assert(keys.is_prefix_of(now)) by {
                assert forall|k: int| 0 <= k < keys.len() implies keys[k] == now[k] by {
                    assert(ls[k] == now[k]);
                }
            }
            assert(spots(queue@) =~= spots(had).push((file@, pos)));
            assert(row.take(i + 1) =~= row.take(i as int).push((file@, pos)));
            assert(spots(queue@) =~= before + row.take(i + 1));
        }
        i = i + 1;
    }
    assert(row.take(i as int) =~= row);
    assert forall|x: Spot| #[trigger] row.contains(x) implies has_key(links(parents@), x) by {
        let k = choose|k: int| 0 <= k < row.len() && row[k] == x;
        assert(has_key(links(parents@), row[k]));
    }
}

impl Search {
    /// Works through the references to a place.
    #[verifier::spinoff_prover]
    #[verifier::rlimit(60)]
    fn follow<B: LspBackend>(
        &mut self,
        backend: &mut Recorder<B>,
        found: &Vec<Location>,
        from: &(PathBuf, Position),
        goals: &Vec<PathBuf>,
        Ghost(base): Ghost<Seq<Event>>,
        Ghost(start): Ghost<Seq<Event>>,
        Ghost(starts): Ghost<Seq<Spot>>,
    ) -> (r: Result<Ghost<Seq<Event>>, BackendError>)
        requires
            old(self).valid(
                start,
                starts,
                path_set(goals@),
                Some((spot(*from), sites(found@), 0)),
                None,
            ),
            old(backend).log() == base + start,
            refers(start, spot(*from), sites(found@)),
            has_key(links(old(self).result.parents@), spot(*from)),
            start.len() > 0,
            start.last() == (Event::References { at: spot(*from), answer: Ok(sites(found@)) }),
            at_work(start, path_set(goals@)) == Some(
                (spot(*from), sites(found@), next_site(sites(found@), path_set(goals@), 0)),
            ),
            origins_but(
                links(old(self).result.parents@),
                start,
                starts,
                path_set(goals@),
                Some((sites(found@), 0, start.len() - 1)),
            ),
            old(self).in_turn(start, starts, path_set(goals@)),
            noted_so_far(
                old(self).result.entry_hits@,
                start.drop_last(),
                sites(found@),
                0,
                path_set(goals@),
            ),
            forall|p: Seq<Part>| #[trigger]
                landed(start, p) == landed(start.drop_last(), p) + landings(sites(found@), p),
        ensures
            goes_on(*old(backend), *final(backend)),
            match r {
                Ok(t) => final(backend).log() == base + t@ && final(self).valid(
                    t@,
                    starts,
                    path_set(goals@),
                    None,
                    None,
                ) && origins_but(
                    links(final(self).result.parents@),
                    t@,
                    starts,
                    path_set(goals@),
                    None,
                ) && final(self).in_turn(t@, starts, path_set(goals@)) && noted_in_order(
                    final(self).result.entry_hits@,
                    t@,
                    path_set(goals@),
                ) && final(self).visited@ == old(self).visited@ && final(self).head
                    == old(self).head,
                Err(e) => exists|t: Seq<Event>|
                    #![trigger base + t]
                    final(backend).log() == base + t && failed_with(t, starts, path_set(goals@), e),
            },
    {
        let ghost gs = path_set(goals@);
        let ghost all = sites(found@);
        let ghost d = spot(*from);
        let ghost asking = start.len() - 1;
        let ghost prior = start.drop_last();
        let ghost mut t = start;
        let ghost first = *backend;
        let mut i: usize = 0;
        proof {
            goes_on_from_itself(first);
        }
        while i < found.len()
            invariant
                i <= found@.len(),
                gs == path_set(goals@),
                all == sites(found@),
                d == spot(*from),
                backend.log() == base + t,
                goes_on(first, *backend),
                first == *old(backend),
                refers(t, d, all),
                has_key(links(self.result.parents@), d),
                self.valid(t, starts, gs, Some((d, all, i as int)), None),
                0 <= asking < t.len(),
                t[asking] == (Event::References { at: d, answer: Ok(all) }),
                at_work(t, gs) == Some((d, all, next_site(all, gs, i as int))),
                origins_but(
                    links(self.result.parents@),
                    t,
                    starts,
                    gs,
                    Some((all, i as int, asking)),
                ),
                self.in_turn(t, starts, gs),
                noted_so_far(self.result.entry_hits@, prior, all, i as int, gs),
                forall|p: Seq<Part>| #[trigger]
                    landed(t, p) == landed(prior, p) + landings(all, p),
                self.visited@ == old(self).visited@,
                self.head == old(self).head,
            decreases found.len() - i,
        {
            let loc = &found[i];
            let ghost site = all[i as int];
            let ghost work: Work = Some((d, all, i as int));
            let ghost next: Work = Some((d, all, i + 1));
            assert(site == loc@);
            proof {
                logged_next(t, d, all, i as int);
            }
            if contains_path(goals, &loc.path) {
                let pos = loc.range.start;
                let ghost n = (loc.path@, pos);
                let ghost ls = links(self.result.parents@);
                let ghost had = self.result.entry_hits@;
                let ghost before = *self;
                proof {
                    goal_step(
                        t,
                        self.waiting(),
                        spots(self.visited@),
                        starts,
                        gs,
                        d,
                        all,
                        i as int,
                    );
                    assert(found_at(t, d, n)) by {
                        assert(refers(t, d, all) && all[i as int].path == n.0);
                    }
                    link_added(ls, n, Some(d), t, starts, gs);
                    origins_at_goal(ls, t, starts, gs, d, all, i as int, asking);
                }
                add_link(&mut self.result.parents, &loc.path, pos, Some((from.0.clone(), from.1)));
                note_entry(&mut self.result.entry_hits, &loc.path, pos);
                insert_path(&mut self.result.affected, loc.path.clone());
                proof {
                    let now = self.result.entry_hits@;
                    noted_next(had, now, prior, all, i as int, gs);
                    assert(self.queue@ == before.queue@ && self.visited@ == before.visited@);
                    assert forall|p: Seq<Part>| #[trigger]
                        path_set(self.result.affected@).contains(p) <==> exists|x: Position|
                            noted(now, (p, x)) by {
                        if exists|x: Position| noted(had, (p, x)) {
                            let x = choose|x: Position| noted(had, (p, x));
                            assert(noted(now, (p, x)));
                        }
                        if p == n.0 {
                            assert(noted(now, (p, pos)));
                        }
                        if exists|x: Position| noted(now, (p, x)) {
                            let x = choose|x: Position| noted(now, (p, x));
                            if (p, x) != n {
                                assert(noted(had, (p, x)));
                            }
                        }
                    }
                }
            } else {
                let ghost here = *backend;
                let opened_file = backend.open(&loc.path);
                let ghost e1 = open_event(loc.path@, opened_file);
                proof {
                    goes_on_through(first, here, *backend);
                    pushed(t, e1);
                    assert(base + t.push(e1) =~= (base + t).push(e1));
                }
                if let Err(e) = opened_file {
                    assert(failed_with(t.push(e1), starts, gs, e));
                    return Err(e);
                }
                proof {
                    self.quiet(t, e1, starts, gs, work, None);
                    origins_pause(
                        links(self.result.parents@),
                        t,
                        e1,
                        starts,
                        gs,
                        Some((all, i as int, asking)),
                    );
                    self.turn_paused(t, e1, starts, gs);
                    landed_pause(t, e1);
                    t = t.push(e1);
                    assert(opened(t, loc.path@));
                    assert(refers(t, d, all));
                    assert(referenced_from(t, loc.path@)) by {
                        assert(refers(t, d, all) && all[i as int].path == loc.path@);
                    }
                }
                let ghost there = *backend;
                let ghost till = t;
                let outline = backend.document_symbols(&loc.path);
                let ghost e2 = symbols_event(loc.path@, outline);
                proof {
                    goes_on_through(first, there, *backend);
                    pushed(t, e2);
                    assert(base + t.push(e2) =~= (base + t).push(e2));
                    assert(due(t, starts, gs, e2));
                }
                let symbols = match outline {
                    Ok(v) => v,
                    Err(e) => {
                        assert(failed_with(t.push(e2), starts, gs, e));
                        return Err(e);
                    },
                };
                proof {
                    self.quiet(t, e2, starts, gs, work, None);
                    landed_pause(t, e2);
                    queued_next(t, e2, starts, gs);
                    t = t.push(e2);
                    assert(refers(t, d, all));
                    assert(outlines(t, loc.path@, symbols@));
                }
                let hits = pick_at(symbols.as_slice(), loc.range.start.line);
                let ghost hv = hits_view(hits@);
                let ghost before = *self;
                let ghost q = self.waiting();
                let ghost row = hit_spots(loc.path@, hv);
                proof {
                    logged_next(t, d, all, i as int);
                    assert forall|k: int| 0 <= k < hits@.len() implies calls(
                        t,
                        gs,
                        (loc.path@, (#[trigger] hits@[k]).position),
                        d,
                    ) by {
                        let n = (loc.path@, hits@[k].position);
                        assert(hv[k].position == n.1);
                        assert(hv == hits_at(symbols@, all[i as int].range.start.line));
                        assert(has_position(hits_at(symbols@, all[i as int].range.start.line), n.1));
                        assert(refers(t, d, all) && all[i as int].path == n.0 && outlines(
                            t,
                            n.0,
                            symbols@,
                        ));
                    }
                }
                enqueue(
                    &mut self.queue,
                    &mut self.result.parents,
                    &loc.path,
                    &hits,
                    from,
                    Ghost(t),
                    Ghost(starts),
                    Ghost(gs),
                );
                proof {
                    let more = self.waiting();
                    assert(more =~= q + row);
                    assert forall|x: Spot| #[trigger] more.contains(x) <==> (q.contains(x) || (x.0
                        == site.path && has_position(
                        hits_at(symbols@, site.range.start.line),
                        x.1,
                    ))) by {
                        hit_spots_contain(loc.path@, hv, x);
                        joined_contain(q, row, x);
                    }
                    assert forall|x: Spot| #[trigger] row.contains(x) <==> (x.0 == site.path
                        && has_position(hits_at(symbols@, site.range.start.line), x.1)) by {
                        hit_spots_contain(loc.path@, hv, x);
                    }
                    assert(next_site(all, gs, i as int) == i);
                    assert(hv == hits_at(symbols@, all[i as int].range.start.line));
                    assert(row == symbol_places(
                        loc.path@,
                        symbols@,
                        all[i as int].range.start.line,
                    ));
                    before.turn_added(*self, till, e2, starts, gs, row);
                    assert(self.result.entry_hits@ == before.result.entry_hits@);
                    noted_next(
                        before.result.entry_hits@,
                        self.result.entry_hits@,
                        prior,
                        all,
                        i as int,
                        gs,
                    );
                    origins_outlined(
                        links(before.result.parents@),
                        till,
                        e2,
                        starts,
                        gs,
                        d,
                        all,
                        i as int,
                        asking,
                        row,
                        links(self.result.parents@),
                    );
                    site_step(
                        t,
                        q,
                        spots(self.visited@),
                        starts,
                        gs,
                        d,
                        all,
                        i as int,
                        symbols@,
                        more,
                    );
                    assert forall|x: Spot| #[trigger] more.contains(x) implies has_key(
                        links(self.result.parents@),
                        x,
                    ) by {
                        joined_contain(q, row, x);
                    }
                    assert forall|n: Spot| #[trigger] noted(
                        self.result.entry_hits@,
                        n,
                    ) <==> gs.contains(n.0) && logged(t, next, n) by {
                        assert(!gs.contains(site.path));
                        assert(noted(before.result.entry_hits@, n) <==> gs.contains(n.0) && logged(
                            t,
                            work,
                            n,
                        ));
                    }
                }
            }
            i = i + 1;
        }
        proof {
            logged_all(t, d, all);
            origins_done(links(self.result.parents@), t, starts, gs, all, asking);
            assert(all.take(i as int) =~= all);
            assert forall|p: Seq<Part>| gs.contains(p) implies #[trigger] positions_in(
                self.result.entry_hits@,
                p,
            ) == landed(t, p) by {
                assert(landed(t, p) == landed(prior, p) + landings(all, p));
            }
        }
        Ok(Ghost(t))
    }
}

proof fn joined_contain(a: Seq<Spot>, b: Seq<Spot>, x: Spot)
    ensures
        (a + b).contains(x) <==> a.contains(x) || b.contains(x),
{
    if a.contains(x) {
        let i = choose|i: int| 0 <= i < a.len() && a[i] == x;
        assert((a + b)[i] == x);
    }
    if b.contains(x) {
        let i = choose|i: int| 0 <= i < b.len() && b[i] == x;
        assert((a + b)[a.len() + i] == x);
    }
    if (a + b).contains(x) {
        let i = choose|i: int| 0 <= i < (a + b).len() && (a + b)[i] == x;
        if i < a.len() {
            assert(a[i] == x);
        } else {
            assert(b[i - a.len()] == x);
        }
    }
}

impl Search {
    /// The state in which a search begins.
    fn begin(starts: Vec<(PathBuf, Position)>, Ghost(goals): Ghost<Set<Seq<Part>>>) -> (r: Search)
        ensures
            r.valid(Seq::empty(), spots(starts@), goals, None, None),
            origins_but(links(r.result.parents@), Seq::empty(), spots(starts@), goals, None),
            r.in_turn(Seq::empty(), spots(starts@), goals),
            noted_in_order(r.result.entry_hits@, Seq::empty(), goals),
    {
        let mut parents: ParentMap = Vec::new();
        let ghost all = spots(starts@);
        let ghost none = Seq::<Event>::empty();
        let mut i: usize = 0;
        while i < starts.len()
            invariant
                i <= starts@.len(),
                all == spots(starts@),
                none == Seq::<Event>::empty(),
                linked(links(parents@), none, all, goals),
                forall|k: int|
                    0 <= k < links(parents@).len() ==> (#[trigger] links(parents@)[k]).1 is None,
                forall|k: int| 0 <= k < i ==> has_key(links(parents@), #[trigger] all[k]),
            decreases starts.len() - i,
        {
            let ghost ls = links(parents@);
            proof {
                assert(all[i as int] == spot(starts@[i as int]));
                assert(all.contains(all[i as int]));
                link_added(ls, all[i as int], None, none, all, goals);
            }
            add_link(&mut parents, &starts[i].0, starts[i].1, None);
            proof {
                let now = links(parents@);
                assert(now == with_link(ls, all[i as int], None));
                assert forall|k: int| 0 <= k < now.len() implies (#[trigger] now[k]).1 is None by {
                    if k < ls.len() {
                        assert(now[k] == ls[k]);
                    }
                }
            }
            i = i + 1;
        }
        let r = Search {
            queue: starts,
            head: 0,
            visited: Vec::new(),
            result: BfsResult { affected: Vec::new(), parents, entry_hits: Vec::new() },
        };
        proof {
            assert(r.waiting() =~= all);
            assert forall|x: Spot| #[trigger] all.contains(x) implies has_key(links(parents@), x) by {
                let k = choose|k: int| 0 <= k < all.len() && all[k] == x;
                assert(has_key(links(parents@), all[k]));
            }
            assert forall|k: int| 0 <= k < all.len() implies all.contains(#[trigger] all[k]) by {}
            assert forall|p: Seq<Part>| !(#[trigger] path_set(r.result.affected@).contains(p)) by {}
            assert forall|p: Seq<Part>| goals.contains(p) implies #[trigger] positions_in(
                r.result.entry_hits@,
                p,
            ) == landed(none, p) by {
                assert(positions_in(r.result.entry_hits@, p) =~= landed(none, p));
            }
        }
        r
    }

    /// Takes the next place from the queue, once its declaration is known.
    fn record(
        &mut self,
        file: PathBuf,
        pos: Position,
        canon: &(PathBuf, Position),
        same: bool,
        known: bool,
        Ghost(t): Ghost<Seq<Event>>,
        Ghost(starts): Ghost<Seq<Spot>>,
        Ghost(goals): Ghost<Set<Seq<Part>>>,
    )
        requires
            old(self).valid(t, starts, goals, None, None),
            old(self).head < old(self).queue@.len(),
            old(self).waiting()[0] == (file@, pos),
            !spots(old(self).visited@).contains((file@, pos)),
            opened(t, file@),
            same == (spot(*canon) == (file@, pos)),
            known == (!same && spots(old(self).visited@).contains(spot(*canon))),
        ensures
            ({
                let d = spot(*canon);
                let u = t.push(Event::Declaration { at: (file@, pos), answer: Ok(d) });
                &&& final(self).valid(
                    u,
                    starts,
                    goals,
                    None,
                    if known {
                        None
                    } else {
                        Some(d)
                    },
                )
                &&& !known ==> !asked(u, d)
                &&& resolves(u, (file@, pos), d)
                &&& has_key(links(final(self).result.parents@), d)
                &&& links(final(self).result.parents@) == with_link(
                    links(old(self).result.parents@),
                    d,
                    Some((file@, pos)),
                )
                &&& final(self).visited@.len() > old(self).visited@.len()
                &&& final(self).queue@ == old(self).queue@
                &&& final(self).head == old(self).head + 1
                &&& final(self).result.entry_hits@ == old(self).result.entry_hits@
                &&& forall|x: Spot| #[trigger]
                    spots(final(self).visited@).contains(x) <==> (spots(
                        old(self).visited@,
                    ).contains(x) || x == (file@, pos) || x == d)
            }),
    {
        let ghost n = (file@, pos);
        let ghost d = spot(*canon);
        let ghost e = Event::Declaration { at: n, answer: Ok(d) };
        let ghost q = self.waiting();
        let ghost seen = spots(self.visited@);
        let ghost ls = links(self.result.parents@);
        let ghost before = *self;
        self.visited.push((file.clone(), pos));
        if !same && !known {
            self.visited.push((canon.0.clone(), canon.1));
        }
        let ghost more = spots(self.visited@);
        let ghost u = t.push(e);
        proof {
            if !same && !known {
                assert(more =~= seen.push(n).push(d));
            } else {
                assert(more =~= seen.push(n));
            }
            assert forall|x: Spot| #[trigger] more.contains(x) <==> (seen.contains(x) || x == n || x
                == d) by {
                let one = seen.push(n);
                added_contain(seen, n, x);
                added_contain(one, d, x);
            }
            declaration_step(t, q, seen, starts, goals, d, more);
            links_stay(ls, t, e, starts, goals);
            logged_stays(t, e, None);
            popped(q);
            assert(q.contains(q[0]));
            assert(has_key(ls, n));
            link_added(ls, d, Some(n), u, starts, goals);
        }
        add_link(&mut self.result.parents, &canon.0, canon.1, Some((file, pos)));
        let len = self.queue.len();
        self.head = self.head + 1;
        proof {
            assert(self.waiting() =~= q.drop_first());
            assert(links(self.result.parents@) == with_link(ls, d, Some(n)));
            assert forall|x: Spot| #[trigger] more.contains(x) implies has_key(
                links(self.result.parents@),
                x,
            ) by {
                assert(has_key(ls, x) || x == d);
            }
            let hole = if known {
                None
            } else {
                Some(d)
            };
            let eh = self.result.entry_hits@;
            assert(eh == before.result.entry_hits@);
            assert(self.result.affected@ == before.result.affected@);
            assert(steady(u, self.waiting(), more, starts, goals, None, hole));
            assert forall|x: Spot| #[trigger] self.waiting().contains(x) implies has_key(
                links(self.result.parents@),
                x,
            ) by {
                assert(q.contains(x));
            }
            assert forall|x: Spot| #[trigger] noted(eh, x) <==> goals.contains(x.0) && logged(
                u,
                None,
                x,
            ) by {
                assert(logged(u, None, x) <==> logged(t, None, x));
            }
            assert forall|x: Spot| #[trigger] noted(eh, x) implies has_key(
                links(self.result.parents@),
                x,
            ) by {
                assert(has_key(ls, x));
            }
            assert(self.valid(u, starts, goals, None, hole));
        }
    }

    /// Takes the next place from the queue and asks for its declaration, if it is new. Gives
    /// the place whose references are to be asked for, if there is one.
    fn advance<B: LspBackend>(
        &mut self,
        backend: &mut Recorder<B>,
        Ghost(base): Ghost<Seq<Event>>,
        Ghost(start): Ghost<Seq<Event>>,
        Ghost(starts): Ghost<Seq<Spot>>,
        Ghost(goals): Ghost<Set<Seq<Part>>>,
    ) -> (r: Result<(Option<(PathBuf, Position)>, Ghost<Seq<Event>>), BackendError>)
        requires
            old(self).valid(start, starts, goals, None, None),
            origins_but(links(old(self).result.parents@), start, starts, goals, None),
            old(self).in_turn(start, starts, goals),
            noted_in_order(old(self).result.entry_hits@, start, goals),
            old(backend).log() == base + start,
            old(self).head < old(self).queue@.len(),
        ensures
            goes_on(*old(backend), *final(backend)),
            r matches Ok((_, t)) ==> origins_but(
                links(final(self).result.parents@),
                t@,
                starts,
                goals,
                None,
            ) && final(self).in_turn(t@, starts, goals) && noted_in_order(
                final(self).result.entry_hits@,
                t@,
                goals,
            ),
            match r {
                Ok((None, t)) => final(backend).log() == base + t@ && final(self).valid(
                    t@,
                    starts,
                    goals,
                    None,
                    None,
                ) && (final(self).visited@.len() > old(self).visited@.len() || (
                final(self).visited@.len() == old(self).visited@.len() && final(self).queue@
                    == old(self).queue@ && final(self).head == old(self).head + 1)),
                Ok((Some(d), t)) => final(backend).log() == base + t@ && final(self).valid(
                    t@,
                    starts,
                    goals,
                    None,
                    Some(spot(d)),
                ) && !asked(t@, spot(d)) && opened(t@, d.0@) && (exists|m: Spot|
                    resolves(t@, m, spot(d))) && has_key(
                    links(final(self).result.parents@),
                    spot(d),
                ) && final(self).visited@.len() > old(self).visited@.len(),
                Err(e) => exists|t: Seq<Event>|
                    #![trigger base + t]
                    final(backend).log() == base + t && failed_with(t, starts, goals, e),
            },
    {
        let ghost mut t = start;
        let ghost first = *backend;
        proof {
            goes_on_from_itself(first);
        }
        let ghost q = self.waiting();
        let len = self.queue.len();
        let file = self.queue[self.head].0.clone();
        let pos = self.queue[self.head].1;
        let ghost n = (file@, pos);
        assert(q[0] == n);
        if has_spot(&self.visited, &file, pos) {
            proof {
                skip_step(t, q, spots(self.visited@), starts, goals);
                popped(q);
            }
            self.head = self.head + 1;
            assert(self.waiting() =~= q.drop_first());
            assert(spots(self.queue@)[self.head - 1] == n);
            return Ok((None, Ghost(t)));
        }
        let opened_file = backend.open(&file);
        let ghost e1 = open_event(file@, opened_file);
        proof {
            pushed(t, e1);
            assert(base + t.push(e1) =~= (base + t).push(e1));
        }
        if let Err(e) = opened_file {
            assert(failed_with(t.push(e1), starts, goals, e));
            return Err(e);
        }
        proof {
            self.quiet(t, e1, starts, goals, None, None);
            origins_pause(links(self.result.parents@), t, e1, starts, goals, None);
            self.turn_paused(t, e1, starts, goals);
            landed_pause(t, e1);
            t = t.push(e1);
            assert(opened(t, file@));
        }
        let ghost here = *backend;
        let resolved = backend.declaration(&file, pos);
        let ghost e2 = declaration_event(n, resolved);
        proof {
            goes_on_through(first, here, *backend);
            pushed(t, e2);
            assert(base + t.push(e2) =~= (base + t).push(e2));
            declaration_due(t, q, spots(self.visited@), starts, goals, e2);
        }
        let canon = match resolved {
            Ok(c) => c,
            Err(e) => {
                assert(failed_with(t.push(e2), starts, goals, e));
                return Err(e);
            },
        };
        let ghost d = spot(canon);
        let same = canon.1 == pos && canon.0.same(&file);
        let known = !same && has_spot(&self.visited, &canon.0, canon.1);
        let ghost ls = links(self.result.parents@);
        let ghost before = *self;
        self.record(file, pos, &canon, same, known, Ghost(t), Ghost(starts), Ghost(goals));
        proof {
            origins_declared(ls, t, starts, goals, n, d);
            assert(spots(before.queue@)[before.head as int] == n);
            before.turn_taken(*self, t, e2, starts, goals);
            landed_pause(t, e2);
            t = t.push(e2);
        }
        if known {
            return Ok((None, Ghost(t)));
        }
        if !same {
            let ghost there = *backend;
            let opened_canon = backend.open(&canon.0);
            let ghost e3 = open_event(canon.0@, opened_canon);
            proof {
                goes_on_through(first, there, *backend);
                pushed(t, e3);
                assert(base + t.push(e3) =~= (base + t).push(e3));
            }
            if let Err(e) = opened_canon {
                assert(failed_with(t.push(e3), starts, goals, e));
                return Err(e);
            }
            proof {
                self.quiet(t, e3, starts, goals, None, Some(d));
                origins_pause(links(self.result.parents@), t, e3, starts, goals, None);
                self.turn_paused(t, e3, starts, goals);
                landed_pause(t, e3);
                assert(!asked(t.push(e3), d)) by {
                    if asked(t.push(e3), d) {
                        let f = choose|f: Seq<Site>| refers(t.push(e3), d, f);
                        assert(refers(t, d, f));
                    }
                }
                assert(resolves(t.push(e3), n, d));
                t = t.push(e3);
            }
        }
        assert(resolves(t, n, d));
        Ok((Some(canon), Ghost(t)))
    }
}

impl Search {
    /// Asks for the references to a place and works through them.
    fn explore<B: LspBackend>(
        &mut self,
        backend: &mut Recorder<B>,
        canon: &(PathBuf, Position),
        goals: &Vec<PathBuf>,
        Ghost(base): Ghost<Seq<Event>>,
        Ghost(t): Ghost<Seq<Event>>,
        Ghost(starts): Ghost<Seq<Spot>>,
    ) -> (r: Result<Ghost<Seq<Event>>, BackendError>)
        requires
            old(self).valid(t, starts, path_set(goals@), None, Some(spot(*canon))),
            origins_but(links(old(self).result.parents@), t, starts, path_set(goals@), None),
            old(self).in_turn(t, starts, path_set(goals@)),
            noted_in_order(old(self).result.entry_hits@, t, path_set(goals@)),
            old(backend).log() == base + t,
            !asked(t, spot(*canon)),
            opened(t, canon.0@),
            exists|m: Spot| resolves(t, m, spot(*canon)),
            has_key(links(old(self).result.parents@), spot(*canon)),
        ensures
            goes_on(*old(backend), *final(backend)),
            match r {
                Ok(u) => final(backend).log() == base + u@ && final(self).valid(
                    u@,
                    starts,
                    path_set(goals@),
                    None,
                    None,
                ) && origins_but(
                    links(final(self).result.parents@),
                    u@,
                    starts,
                    path_set(goals@),
                    None,
                ) && final(self).in_turn(u@, starts, path_set(goals@)) && noted_in_order(
                    final(self).result.entry_hits@,
                    u@,
                    path_set(goals@),
                ) && final(self).visited@ == old(self).visited@,
                Err(e) => exists|u: Seq<Event>|
                    #![trigger base + u]
                    final(backend).log() == base + u && failed_with(u, starts, path_set(goals@), e),
            },
    {
        let ghost gs = path_set(goals@);
        let ghost d = spot(*canon);
        let ghost first = *backend;
        let answer = backend.references(&canon.0, canon.1);
        let ghost e1 = references_event(d, answer);
        let ghost u = t.push(e1);
        proof {
            pushed(t, e1);
            assert(base + u =~= (base + t).push(e1));
            assert(due(t, starts, gs, e1));
        }
        let found = match answer {
            Ok(v) => v,
            Err(e) => {
                assert(failed_with(u, starts, gs, e));
                return Err(e);
            },
        };
        proof {
            let all = sites(found@);
            references_step(t, self.waiting(), spots(self.visited@), starts, gs, d, all);
            links_stay(links(self.result.parents@), t, e1, starts, gs);
            logged_found(t, d, all);
            origins_referred(links(self.result.parents@), t, starts, gs, d, all);
            self.turn_paused(t, e1, starts, gs);
            noted_at_first(self.result.entry_hits@, t, e1, gs);
            assert(u.drop_last() =~= t);
            assert(refers(u, d, all));
            assert(self.valid(u, starts, gs, Some((d, all, 0)), None));
        }
        let ghost here = *backend;
        let r = self.follow(backend, &found, canon, goals, Ghost(base), Ghost(u), Ghost(starts));
        proof {
            goes_on_through(first, here, *backend);
        }
        r
    }
}

proof fn added_contain(a: Seq<Spot>, y: Spot, x: Spot)
    ensures
        a.push(y).contains(x) <==> a.contains(x) || x == y,
{
    if a.contains(x) {
        let i = choose|i: int| 0 <= i < a.len() && a[i] == x;
        assert(a.push(y)[i] == x);
    }
    if x == y {
        assert(a.push(y)[a.len() as int] == x);
    }
}

/// The entrypoints that references lead to from `starts`, what led to each place, and where
/// the references stand. Every request is due when it is made, and on success the search is
/// complete.
pub fn run_with_parents<B: LspBackend>(
    backend: &mut Recorder<B>,
    starts: Vec<(PathBuf, Position)>,
    entrypoints: &Vec<PathBuf>,
) -> (r: Result<BfsResult, BackendError>)
    ensures
        old(backend).log().is_prefix_of(final(backend).log()),
        goes_on(*old(backend), *final(backend)),
        ({
            let t = final(backend).log().skip(old(backend).log().len() as int);
            let from = spots(starts@);
            let goals = path_set(entrypoints@);
            &&& lawful(t, from, goals)
            &&& match r {
                Ok(found) => all_succeeded(t) && complete(t, Seq::empty(), from, goals)
                    && result_is(found, t, from, goals) && breadth_first(t, from, goals),
                Err(e) => t.len() > 0 && failure(t.last()) == Some(e.message@),
            }
        }),
{
    let ghost base = backend.log();
    let ghost from = spots(starts@);
    let ghost goals = path_set(entrypoints@);
    let ghost mut t = Seq::<Event>::empty();
    let ghost first = *backend;
    proof {
        assert(base + t =~= base);
        goes_on_from_itself(first);
    }
    let mut state = Search::begin(starts, Ghost(goals));
    while state.head < state.queue.len()
        invariant
            base == old(backend).log(),
            from == spots(starts@),
            goals == path_set(entrypoints@),
            backend.log() == base + t,
            goes_on(first, *backend),
            first == *old(backend),
            state.valid(t, from, goals, None, None),
            origins_but(links(state.result.parents@), t, from, goals, None),
            state.in_turn(t, from, goals),
            noted_in_order(state.result.entry_hits@, t, goals),
        decreases usize::MAX - state.visited.len(), state.queue.len() - state.head,
    {
        let ghost here = *backend;
        let step = state.advance(backend, Ghost(base), Ghost(t), Ghost(from), Ghost(goals));
        proof {
            goes_on_through(first, here, *backend);
        }
        let (next, now) = match step {
            Ok(v) => v,
            Err(e) => {
                proof {
                    let u = choose|u: Seq<Event>|
                        #![trigger base + u]
                        backend.log() == base + u && failed_with(u, from, goals, e);
                    assert((base + u).skip(base.len() as int) =~= u);
                    assert(base.is_prefix_of(base + u));
                }
                return Err(e);
            },
        };
        proof {
            t = now@;
        }
        if let Some(canon) = next {
            let ghost there = *backend;
            let explored = state.explore(
                backend,
                &canon,
                entrypoints,
                Ghost(base),
                Ghost(t),
                Ghost(from),
            );
            proof {
                goes_on_through(first, there, *backend);
            }
            match explored {
                Ok(now) => {
                    proof {
                        t = now@;
                    }
                },
                Err(e) => {
                    proof {
                        let u = choose|u: Seq<Event>|
                            #![trigger base + u]
                            backend.log() == base + u && failed_with(u, from, goals, e);
                        assert((base + u).skip(base.len() as int) =~= u);
                        assert(base.is_prefix_of(base + u));
                    }
                    return Err(e);
                },
            }
        }
    }
    proof {
        assert((base + t).skip(base.len() as int) =~= t);
        assert(base.is_prefix_of(base + t));
        assert(state.waiting() =~= Seq::<Spot>::empty());
        logged_means(t);
        let found = state.result;
        origins_in_the_end(links(found.parents@), t, from, goals);
        assert forall|p: Seq<Part>| #[trigger]
            path_set(found.affected@).contains(p) <==> hit(t, goals, p) by {
            if hit(t, goals, p) {
                let (m, f, s) = choose|m: Spot, f: Seq<Site>, s: int|
                    #![trigger refers(t, m, f), f[s]]
                    refers(t, m, f) && 0 <= s < f.len() && f[s].path == p;
                let n = (p, f[s].range.start);
                assert(found_at(t, m, n)) by {
                    assert(refers(t, m, f) && f[s].path == n.0);
                }
                assert(noted(found.entry_hits@, n));
            }
            if path_set(found.affected@).contains(p) {
                let pos = choose|pos: Position| noted(found.entry_hits@, (p, pos));
                let m = choose|m: Spot| found_at(t, m, (p, pos));
                let (f, s) = choose|f: Seq<Site>, s: int|
                    #![trigger refers(t, m, f), f[s]]
                    refers(t, m, f) && 0 <= s < f.len() && f[s].path == p && f[s].range.start
                        == pos;
                assert(refers(t, m, f) && f[s].path == p);
            }
        }
        assert forall|n: Spot| #[trigger] reached(t, n) implies has_key(
            links(found.parents@),
            n,
        ) by {
            assert(spots(state.visited@).contains(n));
        }
    }
    Ok(state.result)
}

proof fn logged_means(t: Seq<Event>)
    ensures
        forall|n: Spot| #[trigger] logged(t, None, n) <==> exists|m: Spot| found_at(t, m, n),
{
    assert forall|n: Spot| #[trigger] logged(t, None, n) <==> exists|m: Spot| found_at(t, m, n) by {
        if logged(t, None, n) {
            let (m, f, s) = choose|m: Spot, f: Seq<Site>, s: int|
                #![trigger refers(t, m, f), f[s]]
                refers(t, m, f) && 0 <= s < f.len() && f[s].path == n.0 && f[s].range.start == n.1;
            assert(found_at(t, m, n)) by {
                assert(refers(t, m, f) && f[s].path == n.0);
            }
        }
        if exists|m: Spot| found_at(t, m, n) {
            let m = choose|m: Spot| found_at(t, m, n);
            let (f, s) = choose|f: Seq<Site>, s: int|
                #![trigger refers(t, m, f), f[s]]
                refers(t, m, f) && 0 <= s < f.len() && f[s].path == n.0 && f[s].range.start == n.1;
            assert(refers(t, m, f) && f[s].path == n.0);
        }
    }
}

/// The entrypoints that references lead to from `starts`, in order.
pub fn run<B: LspBackend>(
    backend: &mut Recorder<B>,
    starts: Vec<(PathBuf, Position)>,
    entrypoints: &Vec<PathBuf>,
) -> (r: Result<Vec<PathBuf>, BackendError>)
    ensures
        old(backend).log().is_prefix_of(final(backend).log()),
        goes_on(*old(backend), *final(backend)),
        ({
            let t = final(backend).log().skip(old(backend).log().len() as int);
            let from = spots(starts@);
            let goals = path_set(entrypoints@);
            &&& lawful(t, from, goals)
            &&& match r {
                Ok(affected) => all_succeeded(t) && complete(t, Seq::empty(), from, goals)
                    && breadth_first(t, from, goals) && paths_ascend(paths_view(affected@)) && forall|p: Seq<Part>| #[trigger]
                    path_set(affected@).contains(p) <==> hit(t, goals, p),
                Err(e) => t.len() > 0 && failure(t.last()) == Some(e.message@),
            }
        }),
{
    match run_with_parents(backend, starts, entrypoints) {
        Ok(found) => Ok(found.affected),
        Err(e) => Err(e),
    }
}

/// A place is hit around a line exactly where the name of an innermost symbol around the line
/// stands there.
pub proof fn hits_are_names_of_innermost_symbols(syms: Seq<DocumentSymbol>, line0: u32, p: Position)
    ensures
        has_position(hits_at(syms, line0), p) <==> exists|k: int|
            0 <= k < innermost(syms, line0).len() && (#[trigger] innermost(
                syms,
                line0,
            )[k]).selection_range.start == p,
{
    let row = innermost(syms, line0);
    let hits = hits_at(syms, line0);
    hits_are_complete(row);
    if has_position(hits, p) {
        let j = choose|j: int| 0 <= j < hits.len() && (#[trigger] hits[j]).position == p;
        let i = choose|i: int|
            0 <= i < row.len() && hits[j].name == (#[trigger] row[i]).name@ && hits[j].position
                == row[i].selection_range.start;
        assert(row[i].selection_range.start == p);
    }
}

/// Rows of places and of locations are seen whole, one for one and in order.
pub proof fn rows_are_seen_whole(
    v: Seq<(PathBuf, Position)>,
    w: Seq<Location>,
    p: Seq<((PathBuf, Position), Option<(PathBuf, Position)>)>,
)
    ensures
        spots(v).len() == v.len(),
        forall|i: int| 0 <= i < v.len() ==> #[trigger] spots(v)[i] == (v[i].0@, v[i].1),
        sites(w).len() == w.len(),
        forall|i: int|
            0 <= i < w.len() ==> (#[trigger] sites(w)[i]).path == w[i].path@ && sites(w)[i].range
                == w[i].range,
        links(p).len() == p.len(),
        forall|i: int|
            0 <= i < p.len() ==> (#[trigger] links(p)[i]).0 == (p[i].0.0@, p[i].0.1) && (
            links(p)[i].1 is Some <==> p[i].1 is Some) && (p[i].1 is Some ==> links(p)[i].1->0 == (
                (p[i].1->0).0@,
                (p[i].1->0).1,
            )),
{
}

/// An event tells who was asked about what, and the whole of the answer or the message of the
/// failure.
pub proof fn events_tell_what_was_answered(
    at: Spot,
    d: (PathBuf, Position),
    v: Vec<Location>,
    s: Vec<DocumentSymbol>,
    e: BackendError,
)
    ensures
        references_event(at, Ok(v)) == (Event::References {
            at,
            answer: Ok(v@.map_values(|l: Location| Site { path: l.path@, range: l.range })),
        }),
        references_event(at, Err(e)) == (Event::References { at, answer: Err(e.message@) }),
        declaration_event(at, Ok(d)) == (Event::Declaration { at, answer: Ok((d.0@, d.1)) }),
        declaration_event(at, Err(e)) == (Event::Declaration { at, answer: Err(e.message@) }),
        symbols_event(at.0, Ok(s)) == (Event::Symbols { file: at.0, answer: Ok(s@) }),
        symbols_event(at.0, Err(e)) == (Event::Symbols { file: at.0, answer: Err(e.message@) }),
        open_event(at.0, Ok(())) == (Event::Open { file: at.0, failure: None }),
        open_event(at.0, Err(e)) == (Event::Open { file: at.0, failure: Some(e.message@) }),
        failure(references_event(at, Err(e))) == Some(e.message@),
        failure(declaration_event(at, Err(e))) == Some(e.message@),
        failure(symbols_event(at.0, Err(e))) == Some(e.message@),
        failure(open_event(at.0, Err(e))) == Some(e.message@),
        failure(references_event(at, Ok(v))) is None,
        failure(declaration_event(at, Ok(d))) is None,
        failure(symbols_event(at.0, Ok(s))) is None,
        failure(open_event(at.0, Ok(()))) is None,
{
    assert(sites(v@) =~= v@.map_values(|l: Location| Site { path: l.path@, range: l.range }));
}

/// Without a gate, answers are handed on as they are. With one, only answers to questions for
/// references change: they lose the locations known to lie in code that is compiled for tests
/// only, and no others.
pub proof fn only_gated_references_are_kept_back(
    gate: Option<CfgClassifier>,
    heard: Event,
    told: Event,
)
    requires
        handed_on(gate, heard, told),
    ensures
        gate is None ==> told == heard,
        !(heard is References) ==> told == heard,
        heard matches Event::References { at, answer } ==> (answer is Err ==> told == heard) && (
        gate is Some && answer is Ok ==> told == (Event::References {
            at,
            answer: Ok(
                answer->Ok_0.filter(
                    |l: Site|
                        !(gate->0.known(l.path) is Some && exists|i: int|
                            0 <= i < gate->0.known(l.path)->0.len() && (#[trigger] gate->0.known(
                                l.path,
                            )->0[i]).start <= l.range.start.line && l.range.start.line
                                <= gate->0.known(l.path)->0[i].end),
                ),
            ),
        })),
{
    if let Event::References { at, answer } = heard {
        if gate is Some && answer is Ok {
            kept_locations_are_filtered(gate->0, answer->Ok_0);
        }
    }
}

/// A goal is hit exactly where one of the answers to a question for references names it.
pub proof fn goals_are_hit_by_references(t: Seq<Event>, goals: Set<Seq<Part>>, p: Seq<Part>)
    ensures
        hit(t, goals, p) <==> goals.contains(p) && exists|i: int, s: int|
            #![trigger t[i]->References_answer->Ok_0[s]]
            0 <= i < t.len() && t[i] is References && t[i]->References_answer is Ok && 0 <= s
                < t[i]->References_answer->Ok_0.len() && t[i]->References_answer->Ok_0[s].path == p,
{
    if hit(t, goals, p) {
        let (m, f, s) = choose|m: Spot, f: Seq<Site>, s: int|
            #![trigger refers(t, m, f), f[s]]
            refers(t, m, f) && 0 <= s < f.len() && f[s].path == p;
        let i = choose|i: int|
            0 <= i < t.len() && t[i] == (Event::References { at: m, answer: Ok(f) });
        assert(t[i]->References_answer->Ok_0[s].path == p);
    }
    if goals.contains(p) && exists|i: int, s: int|
        #![trigger t[i]->References_answer->Ok_0[s]]
        0 <= i < t.len() && t[i] is References && t[i]->References_answer is Ok && 0 <= s
            < t[i]->References_answer->Ok_0.len() && t[i]->References_answer->Ok_0[s].path == p {
        let (i, s) = choose|i: int, s: int|
            #![trigger t[i]->References_answer->Ok_0[s]]
            0 <= i < t.len() && t[i] is References && t[i]->References_answer is Ok && 0 <= s
                < t[i]->References_answer->Ok_0.len() && t[i]->References_answer->Ok_0[s].path == p;
        let m = t[i]->References_at;
        let f = t[i]->References_answer->Ok_0;
        assert(t.contains(t[i]));
        assert(refers(t, m, f) && f[s].path == p);
    }
}

/// The result of a search names every goal that an answer to a question for references names,
/// with every place there, and nothing else.
pub proof fn results_name_every_reference_in_a_goal(
    r: BfsResult,
    t: Seq<Event>,
    starts: Seq<Spot>,
    goals: Set<Seq<Part>>,
    at: Spot,
    found: Seq<Site>,
    s: int,
)
    requires
        result_is(r, t, starts, goals),
        t.contains(Event::References { at, answer: Ok(found) }),
        0 <= s < found.len(),
        goals.contains(found[s].path),
    ensures
        exists|i: int| 0 <= i < r.affected@.len() && (#[trigger] r.affected@[i])@ == found[s].path,
        exists|i: int|
            0 <= i < r.entry_hits@.len() && (#[trigger] r.entry_hits@[i]).0@ == found[s].path
                && r.entry_hits@[i].1@.contains(found[s].range.start),
{
    let p = found[s].path;
    let n = (p, found[s].range.start);
    assert(refers(t, at, found));
    assert(found_at(t, at, n)) by {
        assert(refers(t, at, found) && found[s].path == n.0);
    }
    assert(referenced_from(t, p)) by {
        assert(refers(t, at, found) && found[s].path == p);
    }
    assert(hit(t, goals, p));
    assert(path_set(r.affected@).contains(p));
    let rows = paths_view(r.affected@);
    let i = choose|i: int| 0 <= i < rows.len() && rows[i] == p;
    assert(r.affected@[i]@ == p);
    assert(noted(r.entry_hits@, n));
}

/// A search that is complete has asked for the outline of every file in which it was told of a
/// reference outside the goals, and has come to every innermost symbol around that reference.
pub proof fn a_complete_search_follows_every_reference(
    t: Seq<Event>,
    starts: Seq<Spot>,
    goals: Set<Seq<Part>>,
    at: Spot,
    found: Seq<Site>,
    s: int,
)
    requires
        complete(t, Seq::empty(), starts, goals),
        t.contains(Event::References { at, answer: Ok(found) }),
        0 <= s < found.len(),
        !goals.contains(found[s].path),
    ensures
        exists|syms: Seq<DocumentSymbol>| #[trigger]
            t.contains(Event::Symbols { file: found[s].path, answer: Ok(syms) }) && forall|k: int|
                0 <= k < innermost(syms, found[s].range.start.line).len() ==> came_to(
                    t,
                    (
                        found[s].path,
                        (#[trigger] innermost(
                            syms,
                            found[s].range.start.line,
                        )[k]).selection_range.start,
                    ),
                ),
{
    let site = found[s];
    assert(refers(t, at, found));
    assert(settled(t, Seq::empty(), goals, found[s]));
    let syms = choose|syms: Seq<DocumentSymbol>|
        outlines(t, site.path, syms) && forall|k: int|
            0 <= k < hits_at(syms, site.range.start.line).len() ==> {
                let n = (
                    site.path,
                    (#[trigger] hits_at(syms, site.range.start.line)[k]).position,
                );
                reached(t, n) || Seq::<Spot>::empty().contains(n)
            };
    let row = innermost(syms, site.range.start.line);
    assert forall|k: int| 0 <= k < row.len() implies came_to(
        t,
        (site.path, (#[trigger] row[k]).selection_range.start),
    ) by {
        let p = row[k].selection_range.start;
        hits_are_names_of_innermost_symbols(syms, site.range.start.line, p);
        let hits = hits_at(syms, site.range.start.line);
        let j = choose|j: int| 0 <= j < hits.len() && (#[trigger] hits[j]).position == p;
        let n = (site.path, hits[j].position);
        assert(reached(t, n));
        reached_means_come_to(t, n);
    }
}

/// Whether a place was asked about or named as a declaration.
pub open spec fn came_to(t: Seq<Event>, n: Spot) -> bool {
    exists|i: int|
        0 <= i < t.len() && (#[trigger] t[i]) is Declaration && t[i]->Declaration_answer is Ok && (
        t[i]->Declaration_at == n || t[i]->Declaration_answer->Ok_0 == n)
}

proof fn reached_means_come_to(t: Seq<Event>, n: Spot)
    ensures
        reached(t, n) <==> came_to(t, n),
{
    if reached(t, n) {
        if declared(t, n) {
            let d = choose|d: Spot| resolves(t, n, d);
            let i = choose|i: int|
                0 <= i < t.len() && t[i] == (Event::Declaration { at: n, answer: Ok(d) });
            assert(t[i] is Declaration);
        } else {
            let m = choose|m: Spot| resolves(t, m, n);
            let i = choose|i: int|
                0 <= i < t.len() && t[i] == (Event::Declaration { at: m, answer: Ok(n) });
            assert(t[i] is Declaration);
        }
    }
    if came_to(t, n) {
        let i = choose|i: int|
            0 <= i < t.len() && (#[trigger] t[i]) is Declaration && t[i]->Declaration_answer is Ok
                && (t[i]->Declaration_at == n || t[i]->Declaration_answer->Ok_0 == n);
        assert(t.contains(t[i]));
        assert(resolves(t, t[i]->Declaration_at, t[i]->Declaration_answer->Ok_0));
    }
}

/// A search that is complete has come to every start, and has asked for the references to every
/// declaration that it was told of, unless it followed that declaration further.
pub proof fn a_complete_search_asks_at_every_declaration(
    t: Seq<Event>,
    starts: Seq<Spot>,
    goals: Set<Seq<Part>>,
    n: Spot,
    d: Spot,
)
    requires
        complete(t, Seq::empty(), starts, goals),
    ensures
        starts.contains(n) ==> came_to(t, n),
        t.contains(Event::Declaration { at: n, answer: Ok(d) }) ==> (exists|found: Seq<Site>|
            #[trigger] t.contains(Event::References { at: d, answer: Ok(found) })) || (d != n
            && exists|e: Spot| #[trigger] t.contains(Event::Declaration { at: d, answer: Ok(e) })),
{
    if starts.contains(n) {
        let i = choose|i: int| 0 <= i < starts.len() && starts[i] == n;
        assert(reached(t, starts[i]) || Seq::<Spot>::empty().contains(starts[i]));
        reached_means_come_to(t, n);
    }
    if t.contains(Event::Declaration { at: n, answer: Ok(d) }) {
        assert(resolves(t, n, d));
        if asked(t, d) {
            let found = choose|found: Seq<Site>| refers(t, d, found);
            assert(t.contains(Event::References { at: d, answer: Ok(found) }));
        } else {
            let e = choose|e: Spot| resolves(t, d, e);
            assert(t.contains(Event::Declaration { at: d, answer: Ok(e) }));
        }
    }
}

/// A place is entered once: another entry for it changes nothing, and a new one stands behind
/// all others.
pub proof fn places_are_entered_once(ls: Seq<Link>, n: Spot, parent: Option<Spot>)
    ensures
        (exists|i: int| 0 <= i < ls.len() && (#[trigger] ls[i]).0 == n) ==> with_link(ls, n, parent)
            == ls,
        (forall|i: int| 0 <= i < ls.len() ==> (#[trigger] ls[i]).0 != n) ==> with_link(
            ls,
            n,
            parent,
        ) == ls.push((n, parent)),
{
}

proof fn lawful_at(t: Seq<Event>, starts: Seq<Spot>, goals: Set<Seq<Part>>, j: int)
    requires
        lawful(t, starts, goals),
        0 <= j < t.len(),
    ensures
        due(t.take(j), starts, goals, t[j]),
    decreases t.len(),
{
    if j == t.len() - 1 {
        assert(t.take(j) =~= t.drop_last());
    } else {
        lawful_at(t.drop_last(), starts, goals, j);
        assert(t.drop_last().take(j) =~= t.take(j));
    }
}

/// When a search makes its requests: none after one that failed, and each on a file that has been
/// opened. Declarations are asked for at the starts and in files with an outline, references at
/// places that a declaration led to, and outlines for files with a reference that are no goals.
pub proof fn requests_follow_from_earlier_ones(
    t: Seq<Event>,
    starts: Seq<Spot>,
    goals: Set<Seq<Part>>,
    j: int,
)
    requires
        lawful(t, starts, goals),
        0 <= j < t.len(),
    ensures
        forall|i: int|
            0 <= i < j ==> match #[trigger] t[i] {
                Event::Open { failure, .. } => failure is None,
                Event::Declaration { answer, .. } => answer is Ok,
                Event::References { answer, .. } => answer is Ok,
                Event::Symbols { answer, .. } => answer is Ok,
            },
        match t[j] {
            Event::Open { .. } => true,
            Event::Declaration { at, .. } => (exists|k: int|
                0 <= k < j && #[trigger] t[k] == (Event::Open { file: at.0, failure: None })) && (
            starts.contains(at) || (!goals.contains(at.0) && exists|k: int|
                0 <= k < j && (#[trigger] t[k]) is Symbols && t[k]->Symbols_file == at.0)),
            Event::References { at, .. } => (exists|k: int|
                0 <= k < j && #[trigger] t[k] == (Event::Open { file: at.0, failure: None })) && (
            exists|k: int|
                0 <= k < j && (#[trigger] t[k]) is Declaration && t[k]->Declaration_answer == Ok::<
                    Spot,
                    Seq<char>,
                >(at)),
            Event::Symbols { file, .. } => !goals.contains(file) && (exists|k: int|
                0 <= k < j && #[trigger] t[k] == (Event::Open { file, failure: None })) && (exists|
                k: int,
                s: int,
            |
                #![trigger t[k]->References_answer->Ok_0[s]]
                0 <= k < j && t[k] is References && t[k]->References_answer is Ok && 0 <= s
                    < t[k]->References_answer->Ok_0.len()
                    && t[k]->References_answer->Ok_0[s].path == file),
        },
{
    lawful_at(t, starts, goals, j);
    let u = t.take(j);
    assert forall|i: int| 0 <= i < j implies match #[trigger] t[i] {
        Event::Open { failure, .. } => failure is None,
        Event::Declaration { answer, .. } => answer is Ok,
        Event::References { answer, .. } => answer is Ok,
        Event::Symbols { answer, .. } => answer is Ok,
    } by {
        assert(u[i] == t[i]);
        assert(failure(u[i]) is None);
    }
    match t[j] {
        Event::Open { .. } => {},
        Event::Declaration { at, .. } => {
            let e = Event::Open { file: at.0, failure: None };
            let k = choose|k: int| 0 <= k < u.len() && u[k] == e;
            assert(t[k] == e);
            if !starts.contains(at) {
                let m = choose|m: Spot| calls(u, goals, at, m);
                let (found, s, syms) = choose|found: Seq<Site>, s: int, syms: Seq<DocumentSymbol>|
                    #![trigger refers(u, m, found), found[s], outlines(u, at.0, syms)]
                    refers(u, m, found) && 0 <= s < found.len() && found[s].path == at.0
                        && !goals.contains(at.0) && outlines(u, at.0, syms) && has_position(
                        hits_at(syms, found[s].range.start.line),
                        at.1,
                    );
                let o = Event::Symbols { file: at.0, answer: Ok(syms) };
                let l = choose|l: int| 0 <= l < u.len() && u[l] == o;
                assert(t[l] == o);
            }
        },
        Event::References { at, .. } => {
            let e = Event::Open { file: at.0, failure: None };
            let k = choose|k: int| 0 <= k < u.len() && u[k] == e;
            assert(t[k] == e);
            let m = choose|m: Spot| resolves(u, m, at);
            let o = Event::Declaration { at: m, answer: Ok(at) };
            let l = choose|l: int| 0 <= l < u.len() && u[l] == o;
            assert(t[l] == o);
        },
        Event::Symbols { file, .. } => {
            let e = Event::Open { file, failure: None };
            let k = choose|k: int| 0 <= k < u.len() && u[k] == e;
            assert(t[k] == e);
            let (m, found, s) = choose|m: Spot, found: Seq<Site>, s: int|
                #![trigger refers(u, m, found), found[s]]
                refers(u, m, found) && 0 <= s < found.len() && found[s].path == file;
            let o = Event::References { at: m, answer: Ok(found) };
            let l = choose|l: int| 0 <= l < u.len() && u[l] == o;
            assert(t[l] == o);
            assert(t[l]->References_answer->Ok_0[s].path == file);
        },
    }
}

} // verus!
