use dokono::bfs::{BackendError, LspBackend, Recorder};
use dokono::cli::{progress_for, Cli, Command, DebugCmd, OutputFormat, Progress};
use dokono::path::PathBuf;
use dokono::session::{
    advance, begin, local_ref, locate, pr_note, refusal_message, Action, Outcome, Refusal, Request,
    Stage, Status, Tool, Touched,
};
use dokono::types::{DocumentSymbol, Location, Position, Range};

fn request(tool: Tool, pr: Option<u32>, head: Option<&str>) -> Request {
    Request { tool, pr, base: "main".to_string(), head: head.map(|h| h.to_string()) }
}

/// Feeds outcomes to a run, and gives the actions that it asked for.
fn course(req: &Request, outcomes: Vec<Outcome>) -> Vec<Action> {
    let (mut stage, action) = begin(req);
    let mut actions = vec![action];
    for outcome in outcomes {
        let (next, action) = advance(req, stage, outcome);
        stage = next;
        actions.push(action);
    }
    assert_eq!(stage, Stage::Over);
    actions
}

#[test]
fn a_run_for_binaries_goes_from_diff_to_report() {
    let req = request(Tool::Bins, None, Some("topic"));
    let actions = course(
        &req,
        vec![
            Outcome::Count(2),
            Outcome::Count(1),
            Outcome::Done,
            Outcome::Count(3),
            Outcome::Done,
            Outcome::Done,
        ],
    );
    assert_eq!(
        actions,
        vec![
            Action::Diff { base: "main".to_string(), head: "topic".to_string() },
            Action::CollectGoals,
            Action::StartServer,
            Action::Locate,
            Action::Trace,
            Action::StopServer,
            Action::Emit(Status::Traced),
        ]
    );
}

#[test]
fn a_run_for_tests_collects_them_first() {
    let req = request(Tool::Tests, None, Some("topic"));
    let actions = course(&req, vec![Outcome::Count(7), Outcome::Count(0)]);
    assert_eq!(
        actions,
        vec![
            Action::CollectGoals,
            Action::Diff { base: "main".to_string(), head: "topic".to_string() },
            Action::Emit(Status::NoRsChanges),
        ]
    );
}

#[test]
fn a_pull_request_is_fetched_and_resolved() {
    let req = request(Tool::Tests, Some(12), None);
    let actions = course(
        &req,
        vec![
            Outcome::Done,
            Outcome::Commit("b".to_string()),
            Outcome::Commit("h".to_string()),
            Outcome::Count(0),
            Outcome::Count(1),
        ],
    );
    let branch = "dokono-test-pr-12".to_string();
    assert_eq!(
        actions,
        vec![
            Action::FetchPr { local_ref: branch.clone() },
            Action::MergeBase { local_ref: branch.clone() },
            Action::ResolveHead { local_ref: branch },
            Action::CollectGoals,
            Action::Diff { base: "b".to_string(), head: "h".to_string() },
            Action::Refuse(Refusal::NoGoals),
        ]
    );
}

#[test]
fn changes_without_symbols_stop_the_server() {
    let req = request(Tool::Bins, None, Some("topic"));
    let actions = course(
        &req,
        vec![
            Outcome::Count(2),
            Outcome::Count(1),
            Outcome::Done,
            Outcome::Count(0),
            Outcome::Done,
        ],
    );
    assert_eq!(actions[4], Action::StopServer);
    assert_eq!(actions[5], Action::Emit(Status::NoSymbolChanges));
}

#[test]
fn a_head_or_a_pull_request_is_needed() {
    let req = request(Tool::Bins, None, None);
    assert_eq!(course(&req, vec![]), vec![Action::Refuse(Refusal::HeadRequired)]);
    assert_eq!(
        refusal_message(Tool::Bins, Refusal::HeadRequired, "/w"),
        "--head or --pr is required"
    );
    assert_eq!(
        refusal_message(Tool::Bins, Refusal::NoGoals, "/w"),
        "no binary entrypoints found in /w"
    );
    assert_eq!(
        refusal_message(Tool::Tests, Refusal::NoGoals, "/w"),
        "no test functions found in /w"
    );
}

#[test]
fn branches_and_notes_name_the_pull_request() {
    assert_eq!(local_ref(Tool::Bins, 7), "dokono-pr-7");
    assert_eq!(local_ref(Tool::Tests, 4294967295), "dokono-test-pr-4294967295");
    assert_eq!(
        pr_note(7, "abc", "def", "main"),
        "pr #7: head=abc base=def (merge-base of main)"
    );
}

#[test]
fn command_lines_become_requests() {
    let cli: Cli<DebugCmd> = Cli {
        workspace: PathBuf::parse("/w"),
        base: "main".to_string(),
        head: Some("topic".to_string()),
        pr: Some(3),
        format: OutputFormat::Text,
        explain: true,
        command: Some(Command::Debug { cmd: DebugCmd::Index }),
    };
    let req = cli.request(Tool::Bins);
    assert_eq!(req.base, "main");
    assert_eq!(req.head.as_deref(), Some("topic"));
    assert_eq!(req.pr, Some(3));
    assert_eq!(req.tool, Tool::Bins);
    assert!(cli.explains());
    let silent: Cli<DebugCmd> = Cli { format: OutputFormat::Json, command: None, ..cli };
    assert!(!silent.explains());
}

#[test]
fn progress_follows_the_output() {
    assert_eq!(progress_for(OutputFormat::Json, true), Progress::Silent);
    assert_eq!(progress_for(OutputFormat::Json, false), Progress::Silent);
    assert_eq!(progress_for(OutputFormat::Text, true), Progress::Spinner);
    assert_eq!(progress_for(OutputFormat::Text, false), Progress::Plain);
}

/// A server that knows one function in each file, and counts the requests.
struct OneFunction {
    opened: Vec<PathBuf>,
    fail_on: Option<PathBuf>,
}

impl LspBackend for OneFunction {
    fn open(&mut self, file: &PathBuf) -> Result<(), BackendError> {
        self.opened.push(file.clone());
        Ok(())
    }
    fn declaration(
        &mut self,
        file: &PathBuf,
        pos: Position,
    ) -> Result<(PathBuf, Position), BackendError> {
        Ok((file.clone(), pos))
    }
    fn references(&mut self, _: &PathBuf, _: Position) -> Result<Vec<Location>, BackendError> {
        Ok(Vec::new())
    }
    fn document_symbols(&mut self, file: &PathBuf) -> Result<Vec<DocumentSymbol>, BackendError> {
        if self.fail_on.as_ref() == Some(file) {
            return Err(BackendError { message: "no symbols".to_string() });
        }
        let at = |line: u32, character: u32| Position { line, character };
        Ok(vec![DocumentSymbol {
            name: "f".to_string(),
            range: Range { start: at(2, 0), end: at(9, 1) },
            selection_range: Range { start: at(3, 7), end: at(3, 8) },
            children: Vec::new(),
        }])
    }
}

#[test]
fn changed_lines_lead_to_symbols() {
    let a = PathBuf::parse("/w/a.rs");
    let b = PathBuf::parse("/w/b.rs");
    let touched = vec![
        Touched { file: a.clone(), lines: vec![5, 6] },
        Touched { file: b.clone(), lines: vec![40] },
    ];
    let mut server = Recorder::new(OneFunction { opened: Vec::new(), fail_on: None });
    let starts = locate(&mut server, &touched).unwrap();
    assert_eq!(starts, vec![(a.clone(), Position { line: 3, character: 7 })]);
    assert_eq!(server.into_backend().opened, vec![a, b.clone()]);

    let mut failing = Recorder::new(OneFunction { opened: Vec::new(), fail_on: Some(b) });
    assert_eq!(locate(&mut failing, &touched).unwrap_err().message, "no symbols");
}
