//! The course of a run: which step follows which, and how the run ends.
//!
//! Fetching, diffing and talking to the language server happen elsewhere. A run asks for one
//! step at a time, is told what came of it, and decides what is next.

use crate::bfs::{
    failure, open_event, spots, symbols_event, BackendError, Event, LspBackend, Recorder, Spot,
};
use crate::number::{decimal, push_decimal};
use crate::path::{Part, PathBuf};
use crate::symbols::{distinct_hits, hits_view, innermost_at_lines, pick_at_lines, Hit};
use crate::types::{DocumentSymbol, Position};
use vstd::prelude::*;

verus! {

/// What a run looks for.
#[derive(Debug, Clone, Copy, PartialEq, Eq, Structural)]
pub enum Tool {
    /// Binary entrypoints. They are loaded once there are changes.
    Bins,
    /// Test functions. They are collected before the changes are looked at.
    Tests,
}

/// What a run was asked to do.
#[derive(Debug)]
pub struct Request {
    pub tool: Tool,
    /// The pull request to fetch, if any.
    pub pr: Option<u32>,
    pub base: String,
    pub head: Option<String>,
}

/// How the analysis ended.
#[derive(Debug, Clone, Copy, PartialEq, Eq, Structural)]
pub enum Status {
    /// The changes were traced.
    Traced,
    /// No `.rs` file changed.
    NoRsChanges,
    /// The changes touch no symbol.
    NoSymbolChanges,
}

/// Why a run cannot go on.
#[derive(Debug, Clone, Copy, PartialEq, Eq, Structural)]
pub enum Refusal {
    /// Neither a head nor a pull request was given.
    HeadRequired,
    /// There is nothing to look for.
    NoGoals,
}

/// The next step of a run.
#[derive(Debug, PartialEq, Eq)]
pub enum Action {
    /// Fetch the head of the pull request into a local branch.
    FetchPr { local_ref: String },
    /// Find the merge base of the given base and the local branch.
    MergeBase { local_ref: String },
    /// Resolve the local branch to a commit.
    ResolveHead { local_ref: String },
    /// Load or collect the goals.
    CollectGoals,
    /// Find the changed files between two revisions.
    Diff { base: String, head: String },
    /// Start the language server and wait until it is ready.
    StartServer,
    /// Find the symbols that the changes touch.
    Locate,
    /// Follow the references.
    Trace,
    /// Shut the language server down.
    StopServer,
    /// Report the result.
    Emit(Status),
    /// Report that the run cannot go on.
    Refuse(Refusal),
}

/// Where a run stands: what it waits for.
#[derive(Debug, PartialEq, Eq)]
pub enum Stage {
    Fetching,
    FindingBase,
    ResolvingHead { base: String },
    /// Goals are collected before the changes are looked at.
    Collecting { base: String, head: String },
    /// Changes are looked for. Whether there are goals is known where they were collected.
    Diffing { goals: Option<bool> },
    /// Goals are loaded after the changes were found.
    Loading,
    Starting,
    Locating,
    Tracing,
    Stopping { status: Status },
    Over,
}

/// What came of a step.
#[derive(Debug, PartialEq, Eq)]
pub enum Outcome {
    /// It was done.
    Done,
    /// It gave a commit.
    Commit(String),
    /// It gave a number of things.
    Count(usize),
}

/// A stage, as contracts see it.
pub enum StageView {
    Fetching,
    FindingBase,
    ResolvingHead { base: Seq<char> },
    Collecting { base: Seq<char>, head: Seq<char> },
    Diffing { goals: Option<bool> },
    Loading,
    Starting,
    Locating,
    Tracing,
    Stopping { status: Status },
    Over,
}

/// An action, as contracts see it.
pub enum ActionView {
    FetchPr { local_ref: Seq<char> },
    MergeBase { local_ref: Seq<char> },
    ResolveHead { local_ref: Seq<char> },
    CollectGoals,
    Diff { base: Seq<char>, head: Seq<char> },
    StartServer,
    Locate,
    Trace,
    StopServer,
    Emit(Status),
    Refuse(Refusal),
}

/// An outcome, as contracts see it.
pub enum OutcomeView {
    Done,
    Commit(Seq<char>),
    Count(nat),
}

impl View for Stage {
    type V = StageView;

    open spec fn view(&self) -> StageView {
        match self {
            Stage::Fetching => StageView::Fetching,
            Stage::FindingBase => StageView::FindingBase,
            Stage::ResolvingHead { base } => StageView::ResolvingHead { base: base@ },
            Stage::Collecting { base, head } => StageView::Collecting {
                base: base@,
                head: head@,
            },
            Stage::Diffing { goals } => StageView::Diffing { goals: *goals },
            Stage::Loading => StageView::Loading,
            Stage::Starting => StageView::Starting,
            Stage::Locating => StageView::Locating,
            Stage::Tracing => StageView::Tracing,
            Stage::Stopping { status } => StageView::Stopping { status: *status },
            Stage::Over => StageView::Over,
        }
    }
}

impl View for Action {
    type V = ActionView;

    open spec fn view(&self) -> ActionView {
        match self {
            Action::FetchPr { local_ref } => ActionView::FetchPr { local_ref: local_ref@ },
            Action::MergeBase { local_ref } => ActionView::MergeBase { local_ref: local_ref@ },
            Action::ResolveHead { local_ref } => ActionView::ResolveHead { local_ref: local_ref@ },
            Action::CollectGoals => ActionView::CollectGoals,
            Action::Diff { base, head } => ActionView::Diff { base: base@, head: head@ },
            Action::StartServer => ActionView::StartServer,
            Action::Locate => ActionView::Locate,
            Action::Trace => ActionView::Trace,
            Action::StopServer => ActionView::StopServer,
            Action::Emit(status) => ActionView::Emit(*status),
            Action::Refuse(why) => ActionView::Refuse(*why),
        }
    }
}

impl View for Outcome {
    type V = OutcomeView;

    open spec fn view(&self) -> OutcomeView {
        match self {
            Outcome::Done => OutcomeView::Done,
            Outcome::Commit(sha) => OutcomeView::Commit(sha@),
            Outcome::Count(n) => OutcomeView::Count(*n as nat),
        }
    }
}

/// A request, as contracts see it.
pub struct RequestView {
    pub tool: Tool,
    pub pr: Option<u32>,
    pub base: Seq<char>,
    pub head: Option<Seq<char>>,
}

impl View for Request {
    type V = RequestView;

    open spec fn view(&self) -> RequestView {
        RequestView {
            tool: self.tool,
            pr: self.pr,
            base: self.base@,
            head: match self.head {
                Some(h) => Some(h@),
                None => None,
            },
        }
    }
}

/// The local branch for a pull request.
pub open spec fn branch_name(tool: Tool, pr: u32) -> Seq<char> {
    match tool {
        Tool::Bins => "dokono-pr-"@ + decimal(pr as nat),
        Tool::Tests => "dokono-test-pr-"@ + decimal(pr as nat),
    }
}

/// The local branch for a pull request.
pub fn local_ref(tool: Tool, pr: u32) -> (r: String)
    ensures
        r@ == branch_name(tool, pr),
{
    let mut out = match tool {
        Tool::Bins => "dokono-pr-".to_owned(),
        Tool::Tests => "dokono-test-pr-".to_owned(),
    };
    push_decimal(&mut out, pr as u64);
    out
}

/// What follows once the two revisions are known.
pub open spec fn revisions_known(tool: Tool, base: Seq<char>, head: Seq<char>) -> (
    StageView,
    ActionView,
) {
    match tool {
        Tool::Bins => (StageView::Diffing { goals: None }, ActionView::Diff { base, head }),
        Tool::Tests => (StageView::Collecting { base, head }, ActionView::CollectGoals),
    }
}

/// How a run begins.
pub open spec fn beginning(req: RequestView) -> (StageView, ActionView) {
    match req.pr {
        Some(pr) => (
            StageView::Fetching,
            ActionView::FetchPr { local_ref: branch_name(req.tool, pr) },
        ),
        None => match req.head {
            Some(head) => revisions_known(req.tool, req.base, head),
            None => (StageView::Over, ActionView::Refuse(Refusal::HeadRequired)),
        },
    }
}

/// What follows on the goals.
pub open spec fn goals_known(some: bool) -> (StageView, ActionView) {
    if some {
        (StageView::Starting, ActionView::StartServer)
    } else {
        (StageView::Over, ActionView::Refuse(Refusal::NoGoals))
    }
}

/// Whether an outcome is of the sort that a stage waits for.
pub open spec fn fits(stage: StageView, outcome: OutcomeView) -> bool {
    match stage {
        StageView::Fetching | StageView::Starting | StageView::Tracing | StageView::Stopping {
            ..
        } => outcome is Done,
        StageView::FindingBase | StageView::ResolvingHead { .. } => outcome is Commit,
        StageView::Collecting { .. } | StageView::Diffing { .. } | StageView::Loading
        | StageView::Locating => outcome is Count,
        StageView::Over => false,
    }
}

/// What follows on a step.
pub open spec fn following(req: RequestView, stage: StageView, outcome: OutcomeView) -> (
    StageView,
    ActionView,
) {
    let branch = match req.pr {
        Some(pr) => branch_name(req.tool, pr),
        None => Seq::empty(),
    };
    match (stage, outcome) {
        (StageView::Fetching, OutcomeView::Done) => (
            StageView::FindingBase,
            ActionView::MergeBase { local_ref: branch },
        ),
        (StageView::FindingBase, OutcomeView::Commit(base)) => (
            StageView::ResolvingHead { base },
            ActionView::ResolveHead { local_ref: branch },
        ),
        (StageView::ResolvingHead { base }, OutcomeView::Commit(head)) => revisions_known(
            req.tool,
            base,
            head,
        ),
        (StageView::Collecting { base, head }, OutcomeView::Count(n)) => (
            StageView::Diffing { goals: Some(n > 0) },
            ActionView::Diff { base, head },
        ),
        (StageView::Diffing { goals }, OutcomeView::Count(n)) => if n == 0 {
            (StageView::Over, ActionView::Emit(Status::NoRsChanges))
        } else {
            match goals {
                Some(some) => goals_known(some),
                None => (StageView::Loading, ActionView::CollectGoals),
            }
        },
        (StageView::Loading, OutcomeView::Count(n)) => goals_known(n > 0),
        (StageView::Starting, OutcomeView::Done) => (StageView::Locating, ActionView::Locate),
        (StageView::Locating, OutcomeView::Count(n)) => if n == 0 {
            (
                StageView::Stopping { status: Status::NoSymbolChanges },
                ActionView::StopServer,
            )
        } else {
            (StageView::Tracing, ActionView::Trace)
        },
        (StageView::Tracing, OutcomeView::Done) => (
            StageView::Stopping { status: Status::Traced },
            ActionView::StopServer,
        ),
        (StageView::Stopping { status }, OutcomeView::Done) => (
            StageView::Over,
            ActionView::Emit(status),
        ),
        _ => (stage, ActionView::CollectGoals),
    }
}

fn with_revisions(tool: Tool, base: String, head: String) -> (r: (Stage, Action))
    ensures
        (r.0@, r.1@) == revisions_known(tool, base@, head@),
{
    match tool {
        Tool::Bins => (Stage::Diffing { goals: None }, Action::Diff { base, head }),
        Tool::Tests => (Stage::Collecting { base, head }, Action::CollectGoals),
    }
}

fn with_goals(some: bool) -> (r: (Stage, Action))
    ensures
        (r.0@, r.1@) == goals_known(some),
{
    if some {
        (Stage::Starting, Action::StartServer)
    } else {
        (Stage::Over, Action::Refuse(Refusal::NoGoals))
    }
}

/// Begins a run.
pub fn begin(req: &Request) -> (r: (Stage, Action))
    ensures
        (r.0@, r.1@) == beginning(req@),
{
    if let Some(pr) = req.pr {
        return (Stage::Fetching, Action::FetchPr { local_ref: local_ref(req.tool, pr) });
    }
    match &req.head {
        Some(head) => with_revisions(req.tool, req.base.clone(), head.clone()),
        None => (Stage::Over, Action::Refuse(Refusal::HeadRequired)),
    }
}

fn branch(req: &Request) -> (r: String)
    ensures
        r@ == match req.pr {
            Some(pr) => branch_name(req.tool, pr),
            None => Seq::empty(),
        },
{
    match req.pr {
        Some(pr) => local_ref(req.tool, pr),
        None => String::new(),
    }
}

/// Takes a run one step further.
pub fn advance(req: &Request, stage: Stage, outcome: Outcome) -> (r: (Stage, Action))
    requires
        fits(stage@, outcome@),
    ensures
        (r.0@, r.1@) == following(req@, stage@, outcome@),
{
    match (stage, outcome) {
        (Stage::Fetching, Outcome::Done) => (
            Stage::FindingBase,
            Action::MergeBase { local_ref: branch(req) },
        ),
        (Stage::FindingBase, Outcome::Commit(base)) => (
            Stage::ResolvingHead { base },
            Action::ResolveHead { local_ref: branch(req) },
        ),
        (Stage::ResolvingHead { base }, Outcome::Commit(head)) => with_revisions(
            req.tool,
            base,
            head,
        ),
        (Stage::Collecting { base, head }, Outcome::Count(n)) => (
            Stage::Diffing { goals: Some(n > 0) },
            Action::Diff { base, head },
        ),
        (Stage::Diffing { goals }, Outcome::Count(n)) => {
            if n == 0 {
                (Stage::Over, Action::Emit(Status::NoRsChanges))
            } else {
                match goals {
                    Some(some) => with_goals(some),
                    None => (Stage::Loading, Action::CollectGoals),
                }
            }
        },
        (Stage::Loading, Outcome::Count(n)) => with_goals(n > 0),
        (Stage::Starting, Outcome::Done) => (Stage::Locating, Action::Locate),
        (Stage::Locating, Outcome::Count(n)) => {
            if n == 0 {
                (Stage::Stopping { status: Status::NoSymbolChanges }, Action::StopServer)
            } else {
                (Stage::Tracing, Action::Trace)
            }
        },
        (Stage::Tracing, Outcome::Done) => (
            Stage::Stopping { status: Status::Traced },
            Action::StopServer,
        ),
        (Stage::Stopping { status }, Outcome::Done) => (Stage::Over, Action::Emit(status)),
        (other, _) => (other, Action::CollectGoals),
    }
}

/// The message of a refusal.
pub fn refusal_message(tool: Tool, why: Refusal, workspace: &str) -> (r: String)
    ensures
        r@ == match why {
            Refusal::HeadRequired => "--head or --pr is required"@,
            Refusal::NoGoals => match tool {
                Tool::Bins => "no binary entrypoints found in "@ + workspace@,
                Tool::Tests => "no test functions found in "@ + workspace@,
            },
        },
{
    match why {
        Refusal::HeadRequired => "--head or --pr is required".to_owned(),
        Refusal::NoGoals => {
            let mut out = match tool {
                Tool::Bins => "no binary entrypoints found in ".to_owned(),
                Tool::Tests => "no test functions found in ".to_owned(),
            };
            out.append(workspace);
            out
        },
    }
}

/// The note on a fetched pull request.
pub fn pr_note(pr: u32, head: &str, merge_base: &str, base: &str) -> (r: String)
    ensures
        r@ == "pr #"@ + decimal(pr as nat) + ": head="@ + head@ + " base="@ + merge_base@
            + " (merge-base of "@ + base@ + ")"@,
{
    let mut out = "pr #".to_owned();
    push_decimal(&mut out, pr as u64);
    out.append(": head=");
    out.append(head);
    out.append(" base=");
    out.append(merge_base);
    out.append(" (merge-base of ");
    out.append(base);
    out.append(")");
    out
}

// ---------------------------------------------------------------------------------------
// Whole runs
// ---------------------------------------------------------------------------------------
/// Where a run stands after the given outcomes, and what it did so far.
pub open spec fn course(req: RequestView, outcomes: Seq<OutcomeView>) -> (
    StageView,
    Seq<ActionView>,
)
    decreases outcomes.len(),
{
    if outcomes.len() == 0 {
        let (stage, action) = beginning(req);
        (stage, seq![action])
    } else {
        let (stage, done) = course(req, outcomes.drop_last());
        let (next, action) = following(req, stage, outcomes.last());
        (next, done.push(action))
    }
}

/// Whether every outcome is of the sort that the run waited for.
pub open spec fn answers(req: RequestView, outcomes: Seq<OutcomeView>) -> bool
    decreases outcomes.len(),
{
    outcomes.len() == 0 || (answers(req, outcomes.drop_last()) && fits(
        course(req, outcomes.drop_last()).0,
        outcomes.last(),
    ))
}

/// Whether the language server runs after the given actions.
pub open spec fn server_runs(actions: Seq<ActionView>) -> bool
    decreases actions.len(),
{
    if actions.len() == 0 {
        false
    } else {
        match actions.last() {
            ActionView::StartServer => true,
            ActionView::StopServer => false,
            _ => server_runs(actions.drop_last()),
        }
    }
}

/// Whether the language server runs in a stage, once its step is done.
pub open spec fn runs_in(stage: StageView) -> bool {
    stage is Starting || stage is Locating || stage is Tracing
}

/// Whether an action ends a run.
pub open spec fn is_last(action: ActionView) -> bool {
    action is Emit || action is Refuse
}

proof fn course_invariant(req: RequestView, outcomes: Seq<OutcomeView>)
    requires
        answers(req, outcomes),
    ensures
        ({
            let (stage, done) = course(req, outcomes);
            &&& done.len() == outcomes.len() + 1
            &&& server_runs(done) == runs_in(stage)
            &&& is_last(done.last()) <==> stage is Over
            &&& forall|i: int| 0 <= i < done.len() - 1 ==> !is_last(#[trigger] done[i])
        }),
    decreases outcomes.len(),
{
    if outcomes.len() == 0 {
        let (stage, action) = beginning(req);
        let done = seq![action];
        assert(done.drop_last() =~= Seq::<ActionView>::empty());
        assert(!server_runs(done.drop_last()));
        assert(done.last() == action);
    } else {
        let front = outcomes.drop_last();
        course_invariant(req, front);
        let (stage, done) = course(req, front);
        let (next, action) = following(req, stage, outcomes.last());
        let all = done.push(action);
        assert(all.drop_last() =~= done);
        assert(all.last() == action);
        assert(!(stage is Over));
        assert forall|i: int| 0 <= i < all.len() - 1 implies !is_last(#[trigger] all[i]) by {
            assert(all[i] == done[i]);
        }
    }
}

/// A run ends with exactly one report or refusal, and the language server does not run then:
/// where it was started it has been shut down.
pub proof fn a_run_ends_once_and_with_the_server_down(
    req: RequestView,
    outcomes: Seq<OutcomeView>,
)
    requires
        answers(req, outcomes),
    ensures
        ({
            let (stage, done) = course(req, outcomes);
            &&& stage is Over <==> is_last(done.last())
            &&& stage is Over ==> !server_runs(done)
            &&& forall|i: int| 0 <= i < done.len() - 1 ==> !is_last(#[trigger] done[i])
        }),
{
    course_invariant(req, outcomes);
}

/// The number of steps that a stage has before it, at most.
pub open spec fn steps_left(stage: StageView) -> nat {
    match stage {
        StageView::Fetching => 10,
        StageView::FindingBase => 9,
        StageView::ResolvingHead { .. } => 8,
        StageView::Collecting { .. } => 7,
        StageView::Diffing { .. } => 6,
        StageView::Loading => 5,
        StageView::Starting => 4,
        StageView::Locating => 3,
        StageView::Tracing => 2,
        StageView::Stopping { .. } => 1,
        StageView::Over => 0,
    }
}

/// Every step brings a run closer to its end.
pub proof fn every_step_brings_the_end_closer(
    req: RequestView,
    stage: StageView,
    outcome: OutcomeView,
)
    requires
        fits(stage, outcome),
    ensures
        steps_left(following(req, stage, outcome).0) < steps_left(stage),
{
}

// ---------------------------------------------------------------------------------------
// Locating the changed symbols
// ---------------------------------------------------------------------------------------
/// A file to look into, with its changed lines.
#[derive(Debug)]
pub struct Touched {
    pub file: PathBuf,
    /// 1-based line numbers.
    pub lines: Vec<u32>,
}

/// The places of hits in a file.
pub open spec fn hit_places(file: Seq<Part>, hits: Seq<Hit>) -> Seq<Spot> {
    hits.map_values(|h: Hit| (file, h.position))
}

/// What the symbols of each file make of its changed lines, in order.
pub open spec fn located(touched: Seq<Touched>, outlines: Seq<Seq<DocumentSymbol>>) -> Seq<Spot>
    decreases touched.len(),
{
    if touched.len() == 0 || outlines.len() < touched.len() {
        Seq::empty()
    } else {
        located(touched.drop_last(), outlines.take(touched.len() - 1)) + hit_places(
            touched.last().file@,
            distinct_hits(innermost_at_lines(outlines[touched.len() - 1], touched.last().lines@)),
        )
    }
}

/// The requests that a look into the files makes: each is opened, and its symbols are asked
/// for.
pub open spec fn look_events(
    touched: Seq<Touched>,
    outlines: Seq<Seq<DocumentSymbol>>,
) -> Seq<Event>
    decreases touched.len(),
{
    if touched.len() == 0 {
        Seq::empty()
    } else {
        look_events(touched.drop_last(), outlines).push(
            Event::Open { file: touched.last().file@, failure: None },
        ).push(
            Event::Symbols {
                file: touched.last().file@,
                answer: Ok(outlines[touched.len() - 1]),
            },
        )
    }
}

/// Whether a look into the files was broken off: the first of them were looked into, and of the
/// next one either opening it or asking for its symbols failed with the given message.
pub open spec fn look_broken_off(t: Seq<Event>, touched: Seq<Touched>, message: Seq<char>) -> bool {
    exists|i: int, outlines: Seq<Seq<DocumentSymbol>>|
        0 <= i < touched.len() && outlines.len() == i && broken_off_at(
            t,
            #[trigger] look_events(touched.take(i), outlines),
            touched[i].file@,
            message,
        )
}

/// Whether requests go on from others with one for a file that failed.
pub open spec fn broken_off_at(
    t: Seq<Event>,
    before: Seq<Event>,
    file: Seq<Part>,
    message: Seq<char>,
) -> bool {
    ||| t == before.push(Event::Open { file, failure: Some(message) })
    ||| t == before.push(Event::Open { file, failure: None }).push(
        Event::Symbols { file, answer: Err(message) },
    )
}

/// The symbols that changed lines touch, file by file. On a failure the search ends with the
/// request that failed.
pub fn locate<B: LspBackend>(backend: &mut Recorder<B>, touched: &Vec<Touched>) -> (r: Result<
    Vec<(PathBuf, Position)>,
    BackendError,
>)
    ensures
        old(backend).log().is_prefix_of(final(backend).log()),
        ({
            let t = final(backend).log().skip(old(backend).log().len() as int);
            match r {
                Ok(starts) => exists|outlines: Seq<Seq<DocumentSymbol>>|
                    outlines.len() == touched@.len() && t == #[trigger] look_events(
                        touched@,
                        outlines,
                    ) && spots(starts@) == located(touched@, outlines),
                Err(e) => look_broken_off(t, touched@, e.message@),
            }
        }),
{
    let ghost base = backend.log();
    let ghost mut t = Seq::<Event>::empty();
    let ghost mut outlines = Seq::<Seq<DocumentSymbol>>::empty();
    let mut starts: Vec<(PathBuf, Position)> = Vec::new();
    let mut i: usize = 0;
    assert(base + t =~= base);
    assert(touched@.take(0) =~= Seq::<Touched>::empty());
    assert(spots(starts@) =~= Seq::<Spot>::empty());
    while i < touched.len()
        invariant
            i <= touched@.len(),
            base == old(backend).log(),
            backend.log() == base + t,
            outlines.len() == i,
            t == look_events(touched@.take(i as int), outlines),
            spots(starts@) == located(touched@.take(i as int), outlines),
        decreases touched.len() - i,
    {
        let change = &touched[i];
        let opened = backend.open(&change.file);
        let ghost e1 = open_event(change.file@, opened);
        let ghost u = t.push(e1);
        proof {
            assert(base + u =~= (base + t).push(e1));
            assert((base + u).skip(base.len() as int) =~= u);
            assert(base.is_prefix_of(base + u));
        }
        if let Err(e) = opened {
            assert(broken_off_at(
                u,
                look_events(touched@.take(i as int), outlines),
                touched@[i as int].file@,
                e.message@,
            ));
            return Err(e);
        }
        let outline = backend.document_symbols(&change.file);
        let ghost e2 = symbols_event(change.file@, outline);
        let ghost w = u.push(e2);
        proof {
            assert(base + w =~= (base + u).push(e2));
            assert((base + w).skip(base.len() as int) =~= w);
            assert(base.is_prefix_of(base + w));
        }
        let symbols = match outline {
            Ok(v) => v,
            Err(e) => {
                assert(broken_off_at(
                    w,
                    look_events(touched@.take(i as int), outlines),
                    touched@[i as int].file@,
                    e.message@,
                ));
                return Err(e);
            },
        };
        let hits = pick_at_lines(symbols.as_slice(), change.lines.as_slice());
        let ghost row = hit_places(change.file@, hits_view(hits@));
        let ghost before = spots(starts@);
        let mut k: usize = 0;
        assert(before + row.take(0) =~= before);
        while k < hits.len()
            invariant
                k <= hits@.len() == row.len(),
                row == hit_places(change.file@, hits_view(hits@)),
                spots(starts@) == before + row.take(k as int),
            decreases hits.len() - k,
        {
            let ghost had = starts@;
            starts.push((change.file.clone(), hits[k].position));
            proof {
                assert(row[k as int] == (change.file@, hits@[k as int].position));
                assert(spots(starts@) =~= spots(had).push(row[k as int]));
                assert(row.take(k + 1) =~= row.take(k as int).push(row[k as int]));
                assert(spots(starts@) =~= before + row.take(k + 1));
            }
            k = k + 1;
        }
        proof {
            assert(row.take(k as int) =~= row);
            let more = outlines.push(symbols@);
            let part = touched@.take(i + 1);
            assert(part.drop_last() =~= touched@.take(i as int));
            assert(part.last() == *change);
            assert(more.take(i as int) =~= outlines);
            same_look(touched@.take(i as int), outlines, more);
            t = w;
            outlines = more;
        }
        i = i + 1;
    }
    proof {
        assert(touched@.take(i as int) =~= touched@);
        assert((base + t).skip(base.len() as int) =~= t);
        assert(base.is_prefix_of(base + t));
    }
    Ok(starts)
}

proof fn same_look(
    touched: Seq<Touched>,
    a: Seq<Seq<DocumentSymbol>>,
    b: Seq<Seq<DocumentSymbol>>,
)
    requires
        touched.len() <= a.len() <= b.len(),
        a.is_prefix_of(b),
    ensures
        look_events(touched, a) == look_events(touched, b),
    decreases touched.len(),
{
    if touched.len() > 0 {
        same_look(touched.drop_last(), a, b);
        assert(a[touched.len() - 1] == b[touched.len() - 1]);
    }
}

/// Where a run begins: a pull request is fetched into its own branch, given revisions are taken
/// as they are, and without either the request is refused.
pub proof fn how_runs_begin(req: RequestView, pr: u32, head: Seq<char>)
    ensures
        req.pr == Some(pr) ==> beginning(req) == (
            StageView::Fetching,
            ActionView::FetchPr { local_ref: branch_name(req.tool, pr) },
        ),
        req.pr is None && req.head == Some(head) && req.tool == Tool::Bins ==> beginning(req) == (
            StageView::Diffing { goals: None },
            ActionView::Diff { base: req.base, head },
        ),
        req.pr is None && req.head == Some(head) && req.tool == Tool::Tests ==> beginning(req) == (
            StageView::Collecting { base: req.base, head },
            ActionView::CollectGoals,
        ),
        req.pr is None && req.head is None ==> beginning(req) == (
            StageView::Over,
            ActionView::Refuse(Refusal::HeadRequired),
        ),
        branch_name(Tool::Bins, pr) == "dokono-pr-"@ + decimal(pr as nat),
        branch_name(Tool::Tests, pr) == "dokono-test-pr-"@ + decimal(pr as nat),
{
}

/// A pull request is compared at the head of its branch with the commit at which that left the
/// base: what the merge base and the head were found to be is what is compared.
pub proof fn pull_requests_are_compared_with_their_merge_base(
    req: RequestView,
    pr: u32,
    base: Seq<char>,
    head: Seq<char>,
    n: nat,
)
    requires
        req.pr == Some(pr),
    ensures
        ({
            let branch = branch_name(req.tool, pr);
            let start = seq![
                OutcomeView::Done,
                OutcomeView::Commit(base),
                OutcomeView::Commit(head),
            ];
            let first = seq![
                ActionView::FetchPr { local_ref: branch },
                ActionView::MergeBase { local_ref: branch },
                ActionView::ResolveHead { local_ref: branch },
            ];
            &&& answers(req, start)
            &&& req.tool == Tool::Bins ==> course(req, start) == (
                StageView::Diffing { goals: None },
                first.push(ActionView::Diff { base, head }),
            )
            &&& req.tool == Tool::Tests ==> course(req, start.push(OutcomeView::Count(n))) == (
                StageView::Diffing { goals: Some(n > 0) },
                first.push(ActionView::CollectGoals).push(ActionView::Diff { base, head }),
            )
        }),
{
    let branch = branch_name(req.tool, pr);
    let none = Seq::<OutcomeView>::empty();
    let one = seq![OutcomeView::Done];
    let two = seq![OutcomeView::Done, OutcomeView::Commit(base)];
    let three = seq![OutcomeView::Done, OutcomeView::Commit(base), OutcomeView::Commit(head)];
    let four = three.push(OutcomeView::Count(n));
    assert(one.drop_last() =~= none);
    assert(two.drop_last() =~= one);
    assert(three.drop_last() =~= two);
    assert(four.drop_last() =~= three);
    assert(course(req, none).0 is Fetching && answers(req, none));
    assert(course(req, none).1 =~= seq![ActionView::FetchPr { local_ref: branch }]);
    assert(course(req, one).0 is FindingBase && answers(req, one));
    assert(course(req, one).1 =~= seq![
        ActionView::FetchPr { local_ref: branch },
        ActionView::MergeBase { local_ref: branch },
    ]);
    assert(course(req, two).0 == (StageView::ResolvingHead { base }) && answers(req, two));
    let first = seq![
        ActionView::FetchPr { local_ref: branch },
        ActionView::MergeBase { local_ref: branch },
        ActionView::ResolveHead { local_ref: branch },
    ];
    assert(course(req, two).1 =~= first);
    assert(answers(req, three));
    if req.tool == Tool::Bins {
        assert(course(req, three).1 =~= first.push(ActionView::Diff { base, head }));
    } else {
        assert(course(req, three).1 =~= first.push(ActionView::CollectGoals));
        assert(course(req, three).0 == (StageView::Collecting { base, head }));
        assert(course(req, four).1 =~= first.push(ActionView::CollectGoals).push(
            ActionView::Diff { base, head },
        ));
    }
}

/// Without changed files a run ends with a report of that. With some, it is refused where there
/// is nothing to search for, and otherwise the server is started. Without changed symbols that
/// is reported once the server is down, and otherwise the search is made and reported.
pub proof fn how_runs_go_on(req: RequestView, goals: Option<bool>, n: nat, status: Status)
    ensures
        following(req, StageView::Diffing { goals }, OutcomeView::Count(0)) == (
            StageView::Over,
            ActionView::Emit(Status::NoRsChanges),
        ),
        n > 0 ==> following(req, StageView::Diffing { goals: Some(true) }, OutcomeView::Count(n))
            == (StageView::Starting, ActionView::StartServer),
        n > 0 ==> following(req, StageView::Diffing { goals: Some(false) }, OutcomeView::Count(n))
            == (StageView::Over, ActionView::Refuse(Refusal::NoGoals)),
        n > 0 ==> following(req, StageView::Diffing { goals: None }, OutcomeView::Count(n)) == (
            StageView::Loading,
            ActionView::CollectGoals,
        ),
        following(req, StageView::Loading, OutcomeView::Count(0)) == (
            StageView::Over,
            ActionView::Refuse(Refusal::NoGoals),
        ),
        n > 0 ==> following(req, StageView::Loading, OutcomeView::Count(n)) == (
            StageView::Starting,
            ActionView::StartServer,
        ),
        following(req, StageView::Starting, OutcomeView::Done) == (
            StageView::Locating,
            ActionView::Locate,
        ),
        following(req, StageView::Locating, OutcomeView::Count(0)) == (
            StageView::Stopping { status: Status::NoSymbolChanges },
            ActionView::StopServer,
        ),
        n > 0 ==> following(req, StageView::Locating, OutcomeView::Count(n)) == (
            StageView::Tracing,
            ActionView::Trace,
        ),
        following(req, StageView::Tracing, OutcomeView::Done) == (
            StageView::Stopping { status: Status::Traced },
            ActionView::StopServer,
        ),
        following(req, StageView::Stopping { status }, OutcomeView::Done) == (
            StageView::Over,
            ActionView::Emit(status),
        ),
{
}

/// Every file that a change touches is looked into, and the symbols around its changed lines are
/// the places that a search starts from, one file after the other.
pub proof fn every_touched_file_is_located(
    touched: Seq<Touched>,
    outlines: Seq<Seq<DocumentSymbol>>,
    change: Touched,
    outline: Seq<DocumentSymbol>,
)
    requires
        touched.len() == outlines.len(),
    ensures
        ({
            let hits = distinct_hits(innermost_at_lines(outline, change.lines@));
            let before = located(touched, outlines);
            let after = located(touched.push(change), outlines.push(outline));
            &&& after.len() == before.len() + hits.len()
            &&& before.is_prefix_of(after)
            &&& forall|i: int|
                0 <= i < hits.len() ==> #[trigger] after[before.len() + i] == (
                    change.file@,
                    hits[i].position,
                )
        }),
        look_events(touched.push(change), outlines.push(outline)) == look_events(touched, outlines)
            + seq![
            Event::Open { file: change.file@, failure: None },
            Event::Symbols { file: change.file@, answer: Ok(outline) },
        ],
        located(Seq::empty(), Seq::empty()).len() == 0,
        look_events(Seq::empty(), Seq::empty()).len() == 0,
{
    let more = touched.push(change);
    let all = outlines.push(outline);
    assert(more.drop_last() =~= touched);
    assert(all.take(more.len() - 1) =~= outlines);
    assert(all[more.len() - 1] == outline);
    let hits = distinct_hits(innermost_at_lines(outline, change.lines@));
    let row = hit_places(change.file@, hits);
    let before = located(touched, outlines);
    let after = located(more, all);
    assert(after == before + row);
    assert(before =~= after.subrange(0, before.len() as int));
    assert forall|i: int| 0 <= i < hits.len() implies #[trigger] after[before.len() + i] == (
        change.file@,
        hits[i].position,
    ) by {
        assert(after[before.len() + i] == row[i]);
    }
    look_events_by_prefix(touched, all, outlines);
    assert(look_events(more, all) =~= look_events(touched, outlines) + seq![
        Event::Open { file: change.file@, failure: None },
        Event::Symbols { file: change.file@, answer: Ok(outline) },
    ]);
}

proof fn look_events_by_prefix(
    touched: Seq<Touched>,
    a: Seq<Seq<DocumentSymbol>>,
    b: Seq<Seq<DocumentSymbol>>,
)
    requires
        touched.len() <= a.len(),
        touched.len() <= b.len(),
        forall|i: int| 0 <= i < touched.len() ==> a[i] == b[i],
    ensures
        look_events(touched, a) == look_events(touched, b),
    decreases touched.len(),
{
    if touched.len() > 0 {
        look_events_by_prefix(touched.drop_last(), a, b);
    }
}

/// A request, a stage and an action are seen whole.
pub proof fn requests_are_seen_whole(req: Request)
    ensures
        req@.tool == req.tool,
        req@.pr == req.pr,
        req@.base == req.base@,
        req@.head is Some <==> req.head is Some,
        req.head is Some ==> req@.head->0 == req.head->0@,
{
}

} // verus!
