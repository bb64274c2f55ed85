//! What is made of the answers of a language server.

use crate::bfs::{sites, spot, BackendError, Spot};
use crate::path::{Part, PathBuf};
use crate::paths::{contains_path, path_set};
use crate::number::{decimal, push_decimal};
use crate::text::{chars_of, contains_text, has_text, lines, lines_of, occurs_at, string_of};
use crate::types::{DocumentSymbol, Location, Position, Range, Site};
use vstd::prelude::*;

verus! {

// ---------------------------------------------------------------------------------------
// Readiness
// ---------------------------------------------------------------------------------------
/// A report of the server on its state.
#[derive(Debug)]
pub struct ServerStatusParams {
    /// Whether it has nothing left to do.
    pub quiescent: bool,
    pub health: String,
}

/// What is known of the server: its last report, and how many there were.
#[derive(Debug, Clone, Copy, PartialEq, Eq, Structural)]
pub struct QuiescentState {
    pub quiescent: bool,
    pub generation: u64,
}

impl QuiescentState {
    /// Before the first report.
    pub fn new() -> (r: QuiescentState)
        ensures
            r == (QuiescentState { quiescent: false, generation: 0 }),
    {
        QuiescentState { quiescent: false, generation: 0 }
    }

    /// Takes up a report.
    pub fn report(self, params: &ServerStatusParams) -> (r: QuiescentState)
        requires
            self.generation < u64::MAX,
        ensures
            r.quiescent == params.quiescent,
            r.generation == self.generation + 1,
            (r.quiescent, r.generation as int) == after_reports(self, seq![params.quiescent]),
    {
        proof {
            reports_count(self, seq![params.quiescent]);
        }
        QuiescentState { quiescent: params.quiescent, generation: self.generation + 1 }
    }

    /// Whether the server has become ready after the given number of reports.
    pub fn ready_after(self, prev_gen: u64) -> (r: bool)
        ensures
            r == (self.quiescent && self.generation > prev_gen),
    {
        self.quiescent && self.generation > prev_gen
    }
}

/// What is known of the server after further reports, each saying whether it is quiescent.
pub open spec fn after_reports(s: QuiescentState, reports: Seq<bool>) -> (bool, int)
    decreases reports.len(),
{
    if reports.len() == 0 {
        (s.quiescent, s.generation as int)
    } else {
        (reports.last(), after_reports(s, reports.drop_last()).1 + 1)
    }
}

/// The server counts as ready again exactly where a report came in and the last one says so:
/// what it said before does not count.
pub proof fn readiness_needs_a_new_report(s: QuiescentState, reports: Seq<bool>)
    ensures
        ({
            let (quiescent, generation) = after_reports(s, reports);
            (quiescent && generation > s.generation) <==> (reports.len() > 0 && reports.last())
        }),
{
    reports_count(s, reports);
}

proof fn reports_count(s: QuiescentState, reports: Seq<bool>)
    ensures
        after_reports(s, reports).1 == s.generation + reports.len(),
    decreases reports.len(),
{
    if reports.len() > 0 {
        reports_count(s, reports.drop_last());
    }
}

// ---------------------------------------------------------------------------------------
// Requests
// ---------------------------------------------------------------------------------------
/// How long a request that met changed content waits for the server, in seconds.
pub const RETRY_WAIT_SECS: u64 = 30;

/// What came of sending a request.
#[derive(Debug, PartialEq, Eq)]
pub enum Reply {
    /// A value.
    Value,
    /// The content changed under the request.
    ContentModified,
    /// Another error of the server.
    ErrorResponse { code: i32, message: String },
    /// The request did not get through.
    Failure(String),
}

/// What came of waiting for the server.
#[derive(Debug, Clone, Copy, PartialEq, Eq, Structural)]
pub enum Waited {
    Ready,
    TimedOut,
    Closed,
}

/// The next step of a request.
#[derive(Debug, PartialEq, Eq)]
pub enum RequestStep {
    /// Hand the value over.
    Return,
    /// Wait until the server is ready after the given number of reports.
    Wait { after: u64 },
    /// Send the request again.
    Resend,
    /// Give the request up, but not what it was part of.
    Skip(String),
    /// Fail.
    Fail(String),
}

/// A request step, as contracts see it.
pub enum StepView {
    Return,
    Wait { after: u64 },
    Resend,
    Skip(Seq<char>),
    Fail(Seq<char>),
}

impl View for RequestStep {
    type V = StepView;

    open spec fn view(&self) -> StepView {
        match self {
            RequestStep::Return => StepView::Return,
            RequestStep::Wait { after } => StepView::Wait { after: *after },
            RequestStep::Resend => StepView::Resend,
            RequestStep::Skip(m) => StepView::Skip(m@),
            RequestStep::Fail(m) => StepView::Fail(m@),
        }
    }
}

/// The text of a whole number.
pub open spec fn signed_decimal(n: int) -> Seq<char> {
    if n < 0 {
        seq!['-'] + decimal((-n) as nat)
    } else {
        decimal(n as nat)
    }
}

fn push_signed(out: &mut String, n: i32)
    ensures
        final(out)@ == old(out)@ + signed_decimal(n as int),
{
    let ghost start = out@;
    if n < 0 {
        proof {
            reveal_strlit("-");
            assert("-"@ =~= seq!['-']);
        }
        out.append("-");
        push_decimal(out, (-(n as i64)) as u64);
        assert(out@ =~= start + signed_decimal(n as int));
    } else {
        push_decimal(out, n as u64);
    }
}

/// The message on an error of the server.
pub open spec fn response_message(method: Seq<char>, code: i32, message: Seq<char>) -> Seq<char> {
    "LSP error for `"@ + method + "`: code="@ + signed_decimal(code as int) + " message="@ + message
}

/// What follows on a reply. Changed content is no error: the request waits for reports that
/// came after it was sent.
pub fn on_reply(method: &str, gen_before: u64, reply: Reply) -> (r: RequestStep)
    ensures
        r@ == match reply {
            Reply::Value => StepView::Return,
            Reply::ContentModified => StepView::Wait { after: gen_before },
            Reply::ErrorResponse { code, message } => StepView::Fail(
                response_message(method@, code, message@),
            ),
            Reply::Failure(e) => StepView::Fail("LSP request `"@ + method@ + "` failed: "@ + e@),
        },
{
    match reply {
        Reply::Value => RequestStep::Return,
        Reply::ContentModified => RequestStep::Wait { after: gen_before },
        Reply::ErrorResponse { code, message } => {
            let mut out = "LSP error for `".to_owned();
            out.append(method);
            out.append("`: code=");
            push_signed(&mut out, code);
            out.append(" message=");
            out.append(message.as_str());
            RequestStep::Fail(out)
        },
        Reply::Failure(e) => {
            let mut out = "LSP request `".to_owned();
            out.append(method);
            out.append("` failed: ");
            out.append(e.as_str());
            RequestStep::Fail(out)
        },
    }
}

/// What follows on a wait. A server that does not settle in time costs the one request.
pub fn on_wait(method: &str, waited: Waited) -> (r: RequestStep)
    ensures
        r@ == match waited {
            Waited::Ready => StepView::Resend,
            Waited::TimedOut => StepView::Skip(
                "LSP request `"@ + method@ + "` gave up waiting for the server"@,
            ),
            Waited::Closed => StepView::Fail("LSP mainloop closed before quiescent"@),
        },
{
    match waited {
        Waited::Ready => RequestStep::Resend,
        Waited::TimedOut => {
            let mut out = "LSP request `".to_owned();
            out.append(method);
            out.append("` gave up waiting for the server");
            RequestStep::Skip(out)
        },
        Waited::Closed => RequestStep::Fail("LSP mainloop closed before quiescent".to_owned()),
    }
}

/// Why a request gave no value.
#[derive(Debug, PartialEq, Eq)]
pub struct RequestFailure {
    pub message: String,
    /// Whether it was given up for want of time.
    pub gave_up: bool,
}

/// Whether a message tells of an internal error of the server.
pub open spec fn tells_internal_error(message: Seq<char>) -> bool {
    contains_text(message, "code=-32603"@)
}

/// Whether a message tells of an internal error of the server. It fails now and then on
/// complex code; such a request is skipped, and the search goes on.
pub fn is_lsp_internal_error(message: &str) -> (r: bool)
    ensures
        r == tells_internal_error(message@),
{
    has_text(message, "code=-32603")
}

/// Whether a failed request is passed over.
pub open spec fn passed_over(e: RequestFailure) -> bool {
    e.gave_up || tells_internal_error(e.message@)
}

fn is_passed_over(e: &RequestFailure) -> (r: bool)
    ensures
        r == passed_over(*e),
{
    e.gave_up || is_lsp_internal_error(e.message.as_str())
}

/// The first line of a text.
pub open spec fn first_line(s: Seq<char>) -> Seq<char> {
    let rows = lines_of(s);
    if rows.len() == 0 {
        Seq::empty()
    } else {
        rows[0]
    }
}

/// The warning on a request that is passed over.
pub fn skip_warning(method: &str, place: &str, message: &str) -> (r: String)
    ensures
        r@ == "rust-analyzer error on "@ + method@ + "("@ + place@ + "); skipping: "@ + first_line(
            message@,
        ),
{
    let c = chars_of(message);
    let rows = lines(c.as_slice());
    let summary = if rows.len() == 0 {
        String::new()
    } else {
        string_of(rows[0].as_slice())
    };
    assert(summary@ == first_line(message@));
    let mut out = "rust-analyzer error on ".to_owned();
    out.append(method);
    out.append("(");
    out.append(place);
    out.append("); skipping: ");
    out.append(summary.as_str());
    out
}

// ---------------------------------------------------------------------------------------
// Answers
// ---------------------------------------------------------------------------------------
/// A location that the server named. The path is missing where its address is not that of a
/// file.
#[derive(Debug)]
pub struct FoundLocation {
    pub path: Option<PathBuf>,
    pub range: Range,
}

/// An answer to a question for a declaration or a definition.
#[derive(Debug)]
pub enum LocationResponse {
    Scalar(FoundLocation),
    Array(Vec<FoundLocation>),
    /// The range of a link is that of the name it leads to.
    Link(Vec<FoundLocation>),
}

/// An answer to a question for symbols.
#[derive(Debug)]
pub enum SymbolsResponse {
    Nested(Vec<DocumentSymbol>),
    /// Symbols without nesting; only their number matters.
    Flat(usize),
}

/// Whether a location lies below a root.
pub open spec fn lies_below(l: FoundLocation, root: Seq<Part>) -> bool {
    l.path matches Some(p) && root.is_prefix_of(p@)
}

/// The locations below a root, in order.
pub open spec fn sites_below(v: Seq<FoundLocation>, root: Seq<Part>) -> Seq<Site>
    decreases v.len(),
{
    if v.len() == 0 {
        Seq::empty()
    } else if lies_below(v.last(), root) {
        sites_below(v.drop_last(), root).push(
            Site { path: v.last().path->0@, range: v.last().range },
        )
    } else {
        sites_below(v.drop_last(), root)
    }
}

/// The locations below the workspace. Others cannot lead to an entrypoint.
pub fn filter_workspace_locations(locs: &Vec<FoundLocation>, workspace_root: &PathBuf) -> (out: Vec<
    Location,
>)
    ensures
        sites(out@) == sites_below(locs@, workspace_root@),
{
    let mut out: Vec<Location> = Vec::new();
    let mut i: usize = 0;
    assert(locs@.take(0) =~= Seq::<FoundLocation>::empty());
    assert(sites(out@) =~= Seq::<Site>::empty());
    while i < locs.len()
        invariant
            i <= locs@.len(),
            sites(out@) == sites_below(locs@.take(i as int), workspace_root@),
        decreases locs.len() - i,
    {
        proof {
            assert(locs@.take(i + 1).drop_last() =~= locs@.take(i as int));
            assert(locs@.take(i + 1).last() == locs@[i as int]);
        }
        if let Some(p) = &locs[i].path {
            if p.starts_with(workspace_root) {
                let ghost had = out@;
                let loc = Location { path: p.clone(), range: locs[i].range };
                out.push(loc);
                assert(sites(out@) =~= sites(had).push(loc@));
            }
        }
        i = i + 1;
    }
    assert(locs@.take(i as int) =~= locs@);
    out
}

/// The locations below a root are those of the reply whose path begins with the root, all of
/// them and in the same order; nothing else in the reply counts.
pub proof fn sites_below_are_filtered(v: Seq<FoundLocation>, root: Seq<Part>)
    ensures
        sites_below(v, root) == v.filter(
            |l: FoundLocation| l.path is Some && root.is_prefix_of(l.path->0@),
        ).map_values(|l: FoundLocation| Site { path: l.path->0@, range: l.range }),
    decreases v.len(),
{
    reveal(Seq::filter);
    let below = |l: FoundLocation| l.path is Some && root.is_prefix_of(l.path->0@);
    let site = |l: FoundLocation| Site { path: l.path->0@, range: l.range };
    if v.len() == 0 {
        assert(v.filter(below).map_values(site) =~= Seq::<Site>::empty());
    } else {
        let front = v.drop_last();
        sites_below_are_filtered(front, root);
        if below(v.last()) {
            assert(v.filter(below) == front.filter(below).push(v.last()));
            assert(v.filter(below).map_values(site) =~= front.filter(below).map_values(site).push(
                site(v.last()),
            ));
        } else {
            assert(v.filter(below) == front.filter(below));
        }
    }
}

/// Two replies put together give the locations of the one and then those of the other.
pub proof fn sites_below_joined(a: Seq<FoundLocation>, b: Seq<FoundLocation>, root: Seq<Part>)
    ensures
        sites_below(a + b, root) == sites_below(a, root) + sites_below(b, root),
    decreases b.len(),
{
    if b.len() == 0 {
        assert(a + b =~= a);
        assert(sites_below(a, root) + sites_below(b, root) =~= sites_below(a, root));
    } else {
        assert((a + b).drop_last() =~= a + b.drop_last());
        sites_below_joined(a, b.drop_last(), root);
        assert(sites_below(a + b, root) =~= sites_below(a, root) + sites_below(b, root));
    }
}

/// A location is among those below the root exactly where some location of the reply, whatever
/// stands around it, has that range and that path, and the path begins with the root.
pub proof fn every_location_below_is_kept(v: Seq<FoundLocation>, root: Seq<Part>, s: Site)
    ensures
        sites_below(v, root).contains(s) <==> exists|i: int|
            0 <= i < v.len() && (#[trigger] v[i]).range == s.range && v[i].path is Some
                && v[i].path->0@ == s.path && root.is_prefix_of(s.path),
    decreases v.len(),
{
    let row = sites_below(v, root);
    if v.len() > 0 {
        let front = v.drop_last();
        every_location_below_is_kept(front, root, s);
        let before = sites_below(front, root);
        if before.contains(s) {
            let k = choose|k: int| 0 <= k < before.len() && before[k] == s;
            assert(row[k] == s);
            let i = choose|i: int|
                0 <= i < front.len() && (#[trigger] front[i]).range == s.range && front[i].path
                    is Some && front[i].path->0@ == s.path && root.is_prefix_of(s.path);
            assert(v[i] == front[i]);
        }
        if row.contains(s) && !before.contains(s) {
            let k = choose|k: int| 0 <= k < row.len() && row[k] == s;
            if k < before.len() {
                assert(before[k] == s);
            }
            assert(v[v.len() - 1] == v.last());
        }
        if exists|i: int|
            0 <= i < v.len() && (#[trigger] v[i]).range == s.range && v[i].path is Some
                && v[i].path->0@ == s.path && root.is_prefix_of(s.path) {
            let i = choose|i: int|
                0 <= i < v.len() && (#[trigger] v[i]).range == s.range && v[i].path is Some
                    && v[i].path->0@ == s.path && root.is_prefix_of(s.path);
            if i < front.len() {
                assert(front[i] == v[i]);
            } else {
                assert(row.last() == s);
                assert(row[row.len() - 1] == s);
            }
        }
    }
}

/// The location that an answer names first.
pub open spec fn first_location(r: Option<LocationResponse>) -> Option<FoundLocation> {
    match r {
        None => None,
        Some(LocationResponse::Scalar(l)) => Some(l),
        Some(LocationResponse::Array(v)) => if v@.len() > 0 {
            Some(v@[0])
        } else {
            None
        },
        Some(LocationResponse::Link(v)) => if v@.len() > 0 {
            Some(v@[0])
        } else {
            None
        },
    }
}

fn take_first(mut v: Vec<FoundLocation>) -> (r: Option<FoundLocation>)
    ensures
        r == if v@.len() > 0 {
            Some(v@[0])
        } else {
            None
        },
{
    if v.len() == 0 {
        None
    } else {
        Some(v.swap_remove(0))
    }
}

fn first_of(response: Option<LocationResponse>) -> (r: Option<FoundLocation>)
    ensures
        r == first_location(response),
{
    match response {
        None => None,
        Some(LocationResponse::Scalar(l)) => Some(l),
        Some(LocationResponse::Array(v)) => take_first(v),
        Some(LocationResponse::Link(v)) => take_first(v),
    }
}

/// Where a symbol is declared, going by an answer. Without an answer, where the address is not
/// that of a file, and where it leads out of the workspace, it is where it was asked for.
pub open spec fn declared_at(
    r: Option<LocationResponse>,
    file: Seq<Part>,
    pos: Position,
    root: Seq<Part>,
) -> Spot {
    match first_location(r) {
        None => (file, pos),
        Some(l) => match l.path {
            Some(p) => if root.is_prefix_of(p@) {
                (p@, l.range.start)
            } else {
                (file, pos)
            },
            None => (file, pos),
        },
    }
}

/// Where a symbol is declared, going by an answer.
pub fn parse_declaration(
    response: Option<LocationResponse>,
    file: &PathBuf,
    pos: Position,
    workspace_root: &PathBuf,
) -> (r: (PathBuf, Position))
    ensures
        spot(r) == declared_at(response, file@, pos, workspace_root@),
{
    match first_of(response) {
        None => (file.clone(), pos),
        Some(l) => match l.path {
            Some(path) => if path.starts_with(workspace_root) {
                (path, l.range.start)
            } else {
                (file.clone(), pos)
            },
            None => (file.clone(), pos),
        },
    }
}

/// Where a symbol is defined, going by an answer.
pub fn extract_definition_location(response: Option<LocationResponse>) -> (r: Option<
    (PathBuf, Position),
>)
    ensures
        match first_location(response) {
            Some(l) => match l.path {
                Some(p) => r matches Some(n) && n == (p, l.range.start),
                None => r is None,
            },
            None => r is None,
        },
{
    match first_of(response) {
        None => None,
        Some(l) => match l.path {
            Some(p) => Some((p, l.range.start)),
            None => None,
        },
    }
}

/// The symbols of a file, going by an answer. An empty list without nesting is one of no
/// symbols; other lists without nesting are not understood.
pub fn parse_document_symbols(response: Option<SymbolsResponse>, file: &PathBuf) -> (r: Result<
    Vec<DocumentSymbol>,
    BackendError,
>)
    ensures
        match response {
            Some(SymbolsResponse::Nested(v)) => r matches Ok(out) && out@ == v@,
            Some(SymbolsResponse::Flat(n)) => if n == 0 {
                r matches Ok(out) && out@.len() == 0
            } else {
                r matches Err(e) && e.message@
                    == "server returned non-empty flat document symbols for "@ + file.spelling()
                    + " (unsupported)"@
            },
            None => r matches Ok(out) && out@.len() == 0,
        },
{
    match response {
        Some(SymbolsResponse::Nested(v)) => Ok(v),
        Some(SymbolsResponse::Flat(n)) => {
            if n == 0 {
                Ok(Vec::new())
            } else {
                let mut message = "server returned non-empty flat document symbols for ".to_owned();
                message.append(file.display().as_str());
                message.append(" (unsupported)");
                Err(BackendError { message })
            }
        },
        None => Ok(Vec::new()),
    }
}

/// The references that a reply amounts to. A request that is passed over gives none.
pub fn references_answer(
    reply: Result<Option<Vec<FoundLocation>>, RequestFailure>,
    workspace_root: &PathBuf,
) -> (r: Result<Vec<Location>, BackendError>)
    ensures
        match reply {
            Ok(Some(v)) => r matches Ok(out) && sites(out@) == sites_below(v@, workspace_root@),
            Ok(None) => r matches Ok(out) && out@.len() == 0,
            Err(e) => if passed_over(e) {
                r matches Ok(out) && out@.len() == 0
            } else {
                r matches Err(f) && f.message@ == e.message@
            },
        },
{
    match reply {
        Ok(Some(v)) => Ok(filter_workspace_locations(&v, workspace_root)),
        Ok(None) => Ok(Vec::new()),
        Err(e) => {
            if is_passed_over(&e) {
                Ok(Vec::new())
            } else {
                Err(BackendError { message: e.message })
            }
        },
    }
}

/// The declaration that a reply amounts to. A request that is passed over leads nowhere else.
pub fn declaration_answer(
    reply: Result<Option<LocationResponse>, RequestFailure>,
    file: &PathBuf,
    pos: Position,
    workspace_root: &PathBuf,
) -> (r: Result<(PathBuf, Position), BackendError>)
    ensures
        match reply {
            Ok(response) => r matches Ok(n) && spot(n) == declared_at(
                response,
                file@,
                pos,
                workspace_root@,
            ),
            Err(e) => if passed_over(e) {
                r matches Ok(n) && spot(n) == (file@, pos)
            } else {
                r matches Err(f) && f.message@ == e.message@
            },
        },
{
    match reply {
        Ok(response) => Ok(parse_declaration(response, file, pos, workspace_root)),
        Err(e) => {
            if is_passed_over(&e) {
                Ok((file.clone(), pos))
            } else {
                Err(BackendError { message: e.message })
            }
        },
    }
}

/// The symbols that a reply amounts to. A request that is passed over gives none.
pub fn symbols_answer(
    reply: Result<Option<SymbolsResponse>, RequestFailure>,
    file: &PathBuf,
) -> (r: Result<Vec<DocumentSymbol>, BackendError>)
    ensures
        match reply {
            Ok(Some(SymbolsResponse::Nested(v))) => r matches Ok(out) && out@ == v@,
            Ok(Some(SymbolsResponse::Flat(n))) => if n == 0 {
                r matches Ok(out) && out@.len() == 0
            } else {
                r matches Err(e) && e.message@
                    == "server returned non-empty flat document symbols for "@ + file.spelling()
                    + " (unsupported)"@
            },
            Ok(None) => r matches Ok(out) && out@.len() == 0,
            Err(e) => if passed_over(e) {
                r matches Ok(out) && out@.len() == 0
            } else {
                r matches Err(f) && f.message@ == e.message@
            },
        },
{
    match reply {
        Ok(response) => parse_document_symbols(response, file),
        Err(e) => {
            if is_passed_over(&e) {
                Ok(Vec::new())
            } else {
                Err(BackendError { message: e.message })
            }
        },
    }
}

// ---------------------------------------------------------------------------------------
// Batches
// ---------------------------------------------------------------------------------------
/// Whether a reply to a question for references is answered by `out`.
pub open spec fn references_are(
    reply: Result<Option<Vec<FoundLocation>>, RequestFailure>,
    root: Seq<Part>,
    out: Seq<Site>,
) -> bool {
    match reply {
        Ok(Some(v)) => out == sites_below(v@, root),
        Ok(None) => out.len() == 0,
        Err(e) => passed_over(e) && out.len() == 0,
    }
}

/// The message of a reply that ends a batch.
pub open spec fn references_fail(
    reply: Result<Option<Vec<FoundLocation>>, RequestFailure>,
) -> Option<Seq<char>> {
    match reply {
        Err(e) => if passed_over(e) {
            None
        } else {
            Some(e.message@)
        },
        Ok(_) => None,
    }
}

/// The references that a batch of replies amounts to: one answer for each, up to the first
/// that is neither answered nor passed over.
pub fn references_batch(
    replies: Vec<Result<Option<Vec<FoundLocation>>, RequestFailure>>,
    workspace_root: &PathBuf,
) -> (r: Result<Vec<Vec<Location>>, BackendError>)
    ensures
        match r {
            Ok(out) => out@.len() == replies@.len() && forall|i: int|
                0 <= i < replies@.len() ==> references_are(
                    #[trigger] replies@[i],
                    workspace_root@,
                    sites(out@[i]@),
                ),
            Err(e) => exists|i: int|
                0 <= i < replies@.len() && references_fail(#[trigger] replies@[i]) == Some(
                    e.message@,
                ) && forall|j: int| 0 <= j < i ==> references_fail(#[trigger] replies@[j]) is None,
        },
{
    let ghost all = replies@;
    let mut left = replies;
    let mut out: Vec<Vec<Location>> = Vec::new();
    while left.len() > 0
        invariant
            out@.len() + left@.len() == all.len(),
            all == replies@,
            left@ =~= all.skip(out@.len() as int),
            forall|i: int|
                0 <= i < out@.len() ==> references_are(
                    #[trigger] all[i],
                    workspace_root@,
                    sites(out@[i]@),
                ) && references_fail(all[i]) is None,
        decreases left.len(),
    {
        let ghost at = out@.len() as int;
        let reply = left.remove(0);
        assert(reply == all[at]);
        match references_answer(reply, workspace_root) {
            Ok(found) => {
                assert(sites(found@).len() == found@.len());
                out.push(found);
            },
            Err(e) => {
                assert(references_fail(all[at]) == Some(e.message@));
                return Err(e);
            },
        }
    }
    Ok(out)
}

/// The message of a reply to a question for a declaration that ends a batch.
pub open spec fn declaration_fails(
    reply: Result<Option<LocationResponse>, RequestFailure>,
) -> Option<Seq<char>> {
    match reply {
        Err(e) => if passed_over(e) {
            None
        } else {
            Some(e.message@)
        },
        Ok(_) => None,
    }
}

/// Whether a reply to a question for a declaration is answered by `out`.
pub open spec fn declaration_is(
    reply: Result<Option<LocationResponse>, RequestFailure>,
    at: Spot,
    root: Seq<Part>,
    out: Spot,
) -> bool {
    match reply {
        Ok(response) => out == declared_at(response, at.0, at.1, root),
        Err(e) => passed_over(e) && out == at,
    }
}

/// The declarations that a batch of replies amounts to, one for each place asked about.
pub fn declarations_batch(
    items: &Vec<(PathBuf, Position)>,
    replies: Vec<Result<Option<LocationResponse>, RequestFailure>>,
    workspace_root: &PathBuf,
) -> (r: Result<Vec<(PathBuf, Position)>, BackendError>)
    requires
        items@.len() == replies@.len(),
    ensures
        match r {
            Ok(out) => out@.len() == replies@.len() && forall|i: int|
                0 <= i < replies@.len() ==> declaration_is(
                    #[trigger] replies@[i],
                    spot(items@[i]),
                    workspace_root@,
                    spot(out@[i]),
                ),
            Err(e) => exists|i: int|
                0 <= i < replies@.len() && declaration_fails(#[trigger] replies@[i]) == Some(
                    e.message@,
                ) && forall|j: int| 0 <= j < i ==> declaration_fails(#[trigger] replies@[j]) is None,
        },
{
    let ghost all = replies@;
    let mut left = replies;
    let mut out: Vec<(PathBuf, Position)> = Vec::new();
    while left.len() > 0
        invariant
            out@.len() + left@.len() == all.len(),
            items@.len() == all.len(),
            all == replies@,
            left@ =~= all.skip(out@.len() as int),
            forall|i: int|
                0 <= i < out@.len() ==> declaration_is(
                    #[trigger] all[i],
                    spot(items@[i]),
                    workspace_root@,
                    spot(out@[i]),
                ) && declaration_fails(all[i]) is None,
        decreases left.len(),
    {
        let at = out.len();
        let reply = left.remove(0);
        assert(reply == all[at as int]);
        match declaration_answer(reply, &items[at].0, items[at].1, workspace_root) {
            Ok(found) => {
                out.push(found);
            },
            Err(e) => {
                assert(declaration_fails(all[at as int]) == Some(e.message@));
                return Err(e);
            },
        }
    }
    Ok(out)
}

/// What ends a batch of questions for symbols.
pub open spec fn symbols_fail(
    reply: Result<Option<SymbolsResponse>, RequestFailure>,
    file: Seq<char>,
) -> Option<Seq<char>> {
    match reply {
        Err(e) => if passed_over(e) {
            None
        } else {
            Some(e.message@)
        },
        Ok(Some(SymbolsResponse::Flat(n))) => if n == 0 {
            None
        } else {
            Some(
                "server returned non-empty flat document symbols for "@ + file
                    + " (unsupported)"@,
            )
        },
        Ok(_) => None,
    }
}

/// Whether a reply to a question for symbols is answered by `out`.
pub open spec fn symbols_are(
    reply: Result<Option<SymbolsResponse>, RequestFailure>,
    out: Seq<DocumentSymbol>,
) -> bool {
    match reply {
        Ok(Some(SymbolsResponse::Nested(v))) => out == v@,
        _ => out.len() == 0,
    }
}

/// The symbols that a batch of replies amounts to, for each file asked about.
pub fn document_symbols_batch(
    files: &Vec<PathBuf>,
    replies: Vec<Result<Option<SymbolsResponse>, RequestFailure>>,
) -> (r: Result<Vec<Vec<DocumentSymbol>>, BackendError>)
    requires
        files@.len() == replies@.len(),
    ensures
        match r {
            Ok(out) => out@.len() == replies@.len() && forall|i: int|
                0 <= i < replies@.len() ==> symbols_fail(
                    #[trigger] replies@[i],
                    files@[i].spelling(),
                ) is None && symbols_are(replies@[i], out@[i]@),
            Err(e) => exists|i: int|
                0 <= i < replies@.len() && symbols_fail(
                    #[trigger] replies@[i],
                    files@[i].spelling(),
                ) == Some(e.message@) && forall|j: int|
                    0 <= j < i ==> symbols_fail(
                        #[trigger] replies@[j],
                        files@[j].spelling(),
                    ) is None,
        },
{
    let ghost all = replies@;
    let mut left = replies;
    let mut out: Vec<Vec<DocumentSymbol>> = Vec::new();
    while left.len() > 0
        invariant
            out@.len() + left@.len() == all.len(),
            files@.len() == all.len(),
            all == replies@,
            left@ =~= all.skip(out@.len() as int),
            forall|i: int|
                0 <= i < out@.len() ==> symbols_fail(
                    #[trigger] all[i],
                    files@[i].spelling(),
                ) is None && symbols_are(all[i], out@[i]@),
        decreases left.len(),
    {
        let at = out.len();
        let reply = left.remove(0);
        assert(reply == all[at as int]);
        match symbols_answer(reply, &files[at]) {
            Ok(found) => {
                out.push(found);
            },
            Err(e) => {
                assert(symbols_fail(all[at as int], files@[at as int].spelling()) == Some(
                    e.message@,
                ));
                return Err(e);
            },
        }
    }
    Ok(out)
}

// ---------------------------------------------------------------------------------------
// Open files
// ---------------------------------------------------------------------------------------
/// The files that the server was told of.
#[derive(Debug)]
pub struct OpenedFiles {
    files: Vec<PathBuf>,
}

impl View for OpenedFiles {
    type V = Set<Seq<Part>>;

    closed spec fn view(&self) -> Set<Seq<Part>> {
        path_set(self.files@)
    }
}

impl OpenedFiles {
    /// None yet.
    pub fn new() -> (r: OpenedFiles)
        ensures
            r@ == Set::<Seq<Part>>::empty(),
    {
        let r = OpenedFiles { files: Vec::new() };
        assert(r@ =~= Set::<Seq<Part>>::empty());
        r
    }

    /// Notes that a file is open. Whether the server has yet to be told of it.
    pub fn note(&mut self, file: &PathBuf) -> (r: bool)
        ensures
            r == !old(self)@.contains(file@),
            final(self)@ == old(self)@.insert(file@),
    {
        if contains_path(&self.files, file) {
            assert(self@ =~= old(self)@.insert(file@));
            return false;
        }
        let ghost had = self.files@;
        self.files.push(file.clone());
        proof {
            let now = self.files@;
            assert forall|p: Seq<Part>| path_set(now).contains(p) <==> path_set(had).insert(
                file@,
            ).contains(p) by {
                let a = crate::paths::paths_view(had);
                let b = crate::paths::paths_view(now);
                assert(b =~= a.push(file@));
                if a.contains(p) {
                    let i = choose|i: int| 0 <= i < a.len() && a[i] == p;
                    assert(b[i] == p);
                }
                if p == file@ {
                    assert(b[a.len() as int] == p);
                }
            }
            assert(self@ =~= old(self)@.insert(file@));
        }
        true
    }
}

/// Of a row of locations the first counts, whether they are links or not; a row without any is
/// like no answer.
pub proof fn the_first_location_counts(v: Vec<FoundLocation>, l: FoundLocation)
    ensures
        first_location(Some(LocationResponse::Scalar(l))) == Some(l),
        v@.len() > 0 ==> first_location(Some(LocationResponse::Array(v))) == Some(v@[0])
            && first_location(Some(LocationResponse::Link(v))) == Some(v@[0]),
        v@.len() == 0 ==> first_location(Some(LocationResponse::Array(v))) is None
            && first_location(Some(LocationResponse::Link(v))) is None,
        first_location(None) is None,
{
}

/// A declaration is where the first location of an answer begins, if that lies in a file below
/// the workspace; otherwise a symbol is taken to be declared where it was asked about.
pub proof fn declarations_stay_in_the_workspace(
    r: Option<LocationResponse>,
    file: Seq<Part>,
    pos: Position,
    root: Seq<Part>,
)
    ensures
        match first_location(r) {
            Some(l) => l.path is Some && root.is_prefix_of(l.path->0@) ==> declared_at(
                r,
                file,
                pos,
                root,
            ) == (l.path->0@, l.range.start),
            None => declared_at(r, file, pos, root) == (file, pos),
        },
        declared_at(r, file, pos, root) != (file, pos) ==> root.is_prefix_of(
            declared_at(r, file, pos, root).0,
        ),
        first_location(r) matches Some(l) ==> l.path is None ==> declared_at(r, file, pos, root)
            == (file, pos),
        first_location(r) matches Some(l) ==> l.path is Some && !root.is_prefix_of(l.path->0@)
            ==> declared_at(r, file, pos, root) == (file, pos),
{
}

/// A request is passed over exactly where the wait for the server was given up or the message
/// tells of an internal error by its code.
pub proof fn what_is_passed_over(e: RequestFailure)
    ensures
        passed_over(e) <==> e.gave_up || exists|i: int|
            0 <= i && i + "code=-32603"@.len() <= e.message@.len() && #[trigger] e.message@.subrange(
                i,
                i + "code=-32603"@.len(),
            ) == "code=-32603"@,
{
    let pat = "code=-32603"@;
    if contains_text(e.message@, pat) {
        let i = choose|i: int| occurs_at(e.message@, pat, i);
        assert(e.message@.subrange(i, i + pat.len()) == pat);
    }
    if exists|i: int|
        0 <= i && i + pat.len() <= e.message@.len() && #[trigger] e.message@.subrange(
            i,
            i + pat.len(),
        ) == pat {
        let i = choose|i: int|
            0 <= i && i + pat.len() <= e.message@.len() && #[trigger] e.message@.subrange(
                i,
                i + pat.len(),
            ) == pat;
        assert(occurs_at(e.message@, pat, i));
    }
}

/// An error response with the code of an internal error is one whose message tells so.
pub proof fn internal_errors_are_told_by_their_message(method: Seq<char>, message: Seq<char>)
    ensures
        tells_internal_error(response_message(method, -32603i32, message)),
{
    reveal_strlit("code=-32603");
    reveal_strlit("LSP error for `");
    reveal_strlit("`: code=");
    reveal_strlit(" message=");
    let pat = "code=-32603"@;
    assert(decimal(3) == seq!['3']);
    assert(decimal(32) == decimal(3).push('2'));
    assert(decimal(326) == decimal(32).push('6'));
    assert(decimal(3260) == decimal(326).push('0'));
    assert(decimal(32603) == decimal(3260).push('3'));
    let code = signed_decimal(-32603);
    assert(code =~= seq!['-', '3', '2', '6', '0', '3']);
    let s = response_message(method, -32603i32, message);
    let i = "LSP error for `"@.len() + method.len() + 3;
    assert(s.subrange(i as int, i as int + pat.len()) =~= pat);
    assert(occurs_at(s, pat, i as int));
}

/// Each report counts one up, and the last one says whether the server is at rest.
pub proof fn reports_are_counted(s: QuiescentState, reports: Seq<bool>, last: bool)
    ensures
        after_reports(s, reports.push(last)).0 == last,
        after_reports(s, reports).1 == s.generation + reports.len(),
        after_reports(s, Seq::empty()).0 == s.quiescent,
    decreases reports.len(),
{
    if reports.len() > 0 {
        reports_are_counted(s, reports.drop_last(), last);
    }
}

/// What a batch of references asks of each reply: the locations below the workspace, and none
/// where there is no answer or the request is passed over.
pub proof fn references_of_replies(
    reply: Result<Option<Vec<FoundLocation>>, RequestFailure>,
    root: Seq<Part>,
    out: Seq<Site>,
)
    ensures
        reply matches Ok(Some(v)) ==> (references_are(reply, root, out) <==> out == v@.filter(
            |l: FoundLocation| l.path is Some && root.is_prefix_of(l.path->0@),
        ).map_values(|l: FoundLocation| Site { path: l.path->0@, range: l.range })),
        reply matches Ok(None) ==> (references_are(reply, root, out) <==> out.len() == 0),
        reply matches Err(e) ==> (references_are(reply, root, out) <==> passed_over(e) && out.len()
            == 0),
        reply matches Err(e) ==> (references_fail(reply) == if passed_over(e) {
            None
        } else {
            Some(e.message@)
        }),
        reply is Ok ==> references_fail(reply) is None,
{
    if let Ok(Some(v)) = reply {
        sites_below_are_filtered(v@, root);
    }
}

/// What a batch of declarations asks of each reply.
pub proof fn declarations_of_replies(
    reply: Result<Option<LocationResponse>, RequestFailure>,
    at: Spot,
    root: Seq<Part>,
    out: Spot,
)
    ensures
        reply matches Ok(r) ==> (declaration_is(reply, at, root, out) <==> out == declared_at(
            r,
            at.0,
            at.1,
            root,
        )),
        reply matches Err(e) ==> (declaration_is(reply, at, root, out) <==> passed_over(e) && out
            == at),
        reply matches Err(e) ==> (declaration_fails(reply) == if passed_over(e) {
            None
        } else {
            Some(e.message@)
        }),
        reply is Ok ==> declaration_fails(reply) is None,
{
}

/// What a batch of outlines asks of each reply: all symbols of a nested answer, none of an empty
/// one, and a failure for symbols without nesting.
pub proof fn symbols_of_replies(
    reply: Result<Option<SymbolsResponse>, RequestFailure>,
    file: Seq<char>,
    out: Seq<DocumentSymbol>,
)
    ensures
        reply matches Ok(Some(SymbolsResponse::Nested(v))) ==> symbols_fail(reply, file) is None
            && (symbols_are(reply, out) <==> out == v@),
        reply matches Ok(Some(SymbolsResponse::Flat(n))) ==> (symbols_fail(reply, file) is None
            <==> n == 0) && (symbols_are(reply, out) <==> out.len() == 0),
        reply matches Ok(None) ==> symbols_fail(reply, file) is None && (symbols_are(reply, out)
            <==> out.len() == 0),
        reply matches Err(e) ==> (symbols_fail(reply, file) == if passed_over(e) {
            None
        } else {
            Some(e.message@)
        }) && (symbols_are(reply, out) <==> out.len() == 0),
{
}

} // verus!
