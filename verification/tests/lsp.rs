use dokono::lsp::{
    declaration_answer, declarations_batch, document_symbols_batch, extract_definition_location,
    filter_workspace_locations, is_lsp_internal_error, on_reply, on_wait, parse_declaration,
    parse_document_symbols, references_answer, references_batch, skip_warning, symbols_answer,
    FoundLocation, LocationResponse, OpenedFiles, QuiescentState, Reply, RequestFailure,
    RequestStep, ServerStatusParams, SymbolsResponse, Waited,
};
use dokono::path::PathBuf;
use dokono::types::{DocumentSymbol, Position, Range};

fn pos(line: u32, character: u32) -> Position {
    Position { line, character }
}

fn range(line: u32) -> Range {
    Range { start: pos(line, 1), end: pos(line, 5) }
}

fn found(path: &str, line: u32) -> FoundLocation {
    FoundLocation { path: Some(PathBuf::parse(path)), range: range(line) }
}

fn nowhere(line: u32) -> FoundLocation {
    FoundLocation { path: None, range: range(line) }
}

fn failure(message: &str) -> RequestFailure {
    RequestFailure { message: message.to_string(), gave_up: false }
}

fn status(quiescent: bool) -> ServerStatusParams {
    ServerStatusParams { quiescent, health: "ok".to_string() }
}

const INTERNAL: &str = "LSP error for `m`: code=-32603 message=oops\nmore";

#[test]
fn the_server_is_ready_after_a_new_quiescent_report() {
    let s = QuiescentState::new();
    assert!(!s.ready_after(0));
    let s = s.report(&status(false));
    assert!(!s.ready_after(0));
    let s = s.report(&status(true));
    assert!(s.ready_after(0));
    assert!(s.ready_after(1));
    assert!(!s.ready_after(2));
    assert!(!s.report(&status(false)).ready_after(2));
}

#[test]
fn changed_content_is_waited_out() {
    assert_eq!(on_reply("m", 5, Reply::Value), RequestStep::Return);
    assert_eq!(on_reply("m", 5, Reply::ContentModified), RequestStep::Wait { after: 5 });
    assert_eq!(
        on_reply("m", 5, Reply::ErrorResponse { code: -32603, message: "oops".to_string() }),
        RequestStep::Fail("LSP error for `m`: code=-32603 message=oops".to_string())
    );
    assert_eq!(
        on_reply("m", 5, Reply::Failure("gone".to_string())),
        RequestStep::Fail("LSP request `m` failed: gone".to_string())
    );
    assert_eq!(on_wait("m", Waited::Ready), RequestStep::Resend);
    assert_eq!(
        on_wait("m", Waited::TimedOut),
        RequestStep::Skip("LSP request `m` gave up waiting for the server".to_string())
    );
    assert_eq!(
        on_wait("m", Waited::Closed),
        RequestStep::Fail("LSP mainloop closed before quiescent".to_string())
    );
}

#[test]
fn internal_errors_are_told_by_their_code() {
    assert!(is_lsp_internal_error(INTERNAL));
    assert!(!is_lsp_internal_error("code=-32602"));
    assert_eq!(
        skip_warning("references", "/w/a.rs:1:2", INTERNAL),
        "rust-analyzer error on references(/w/a.rs:1:2); skipping: LSP error for `m`: code=-32603 message=oops"
    );
    assert_eq!(skip_warning("m", "p", ""), "rust-analyzer error on m(p); skipping: ");
}

#[test]
fn locations_outside_the_workspace_are_left_out() {
    let root = PathBuf::parse("/w");
    let locs = vec![found("/w/a.rs", 1), found("/x/b.rs", 2), nowhere(3), found("/wide/c.rs", 4)];
    let kept = filter_workspace_locations(&locs, &root);
    assert_eq!(kept.len(), 1);
    assert_eq!(kept[0].path, PathBuf::parse("/w/a.rs"));
    assert_eq!(kept[0].range, range(1));
}

#[test]
fn declarations_stay_in_the_workspace() {
    let root = PathBuf::parse("/w");
    let file = PathBuf::parse("/w/here.rs");
    let here = (file.clone(), pos(9, 9));
    let declared = |r| parse_declaration(r, &file, pos(9, 9), &root);
    assert_eq!(declared(None), here.clone());
    assert_eq!(
        declared(Some(LocationResponse::Scalar(found("/w/t.rs", 3)))),
        (PathBuf::parse("/w/t.rs"), pos(3, 1))
    );
    assert_eq!(declared(Some(LocationResponse::Scalar(found("/x/t.rs", 3)))), here.clone());
    assert_eq!(
        declared(Some(LocationResponse::Array(vec![found("/w/u.rs", 4), found("/w/v.rs", 5)]))),
        (PathBuf::parse("/w/u.rs"), pos(4, 1))
    );
    assert_eq!(declared(Some(LocationResponse::Link(vec![]))), here.clone());
    assert_eq!(declared(Some(LocationResponse::Link(vec![nowhere(6)]))), here);
}

#[test]
fn definitions_may_lie_anywhere() {
    assert_eq!(
        extract_definition_location(Some(LocationResponse::Array(vec![found("/x/t.rs", 3)]))),
        Some((PathBuf::parse("/x/t.rs"), pos(3, 1)))
    );
    assert_eq!(extract_definition_location(Some(LocationResponse::Link(vec![nowhere(1)]))), None);
    assert_eq!(extract_definition_location(Some(LocationResponse::Array(vec![]))), None);
    assert_eq!(extract_definition_location(None), None);
}

fn symbol() -> DocumentSymbol {
    DocumentSymbol {
        name: "f".to_string(),
        range: range(1),
        selection_range: range(1),
        children: Vec::new(),
    }
}

#[test]
fn flat_symbols_are_refused() {
    let file = PathBuf::parse("/w/a.rs");
    assert_eq!(
        parse_document_symbols(Some(SymbolsResponse::Nested(vec![symbol()])), &file).unwrap(),
        vec![symbol()]
    );
    assert!(parse_document_symbols(None, &file).unwrap().is_empty());
    assert!(parse_document_symbols(Some(SymbolsResponse::Flat(0)), &file).unwrap().is_empty());
    let e = parse_document_symbols(Some(SymbolsResponse::Flat(2)), &file).unwrap_err();
    assert!(e.message.contains("/w/a.rs"), "{}", e.message);
}

#[test]
fn failed_requests_are_passed_over_or_reported() {
    let root = PathBuf::parse("/w");
    let file = PathBuf::parse("/w/a.rs");
    let gave_up = || RequestFailure { message: "late".to_string(), gave_up: true };

    assert!(references_answer(Err(failure(INTERNAL)), &root).unwrap().is_empty());
    assert!(references_answer(Err(gave_up()), &root).unwrap().is_empty());
    assert!(references_answer(Ok(None), &root).unwrap().is_empty());
    assert_eq!(references_answer(Err(failure("broken")), &root).unwrap_err().message, "broken");

    let here = (file.clone(), pos(2, 3));
    assert_eq!(declaration_answer(Err(gave_up()), &file, pos(2, 3), &root).unwrap(), here);
    assert_eq!(
        declaration_answer(Err(failure("broken")), &file, pos(2, 3), &root)
            .unwrap_err()
            .message,
        "broken"
    );

    assert!(symbols_answer(Err(failure(INTERNAL)), &file).unwrap().is_empty());
    assert_eq!(symbols_answer(Err(failure("broken")), &file).unwrap_err().message, "broken");
}

#[test]
fn batches_keep_their_order_and_end_with_the_first_failure() {
    let root = PathBuf::parse("/w");
    let refs = references_batch(
        vec![
            Ok(Some(vec![found("/w/a.rs", 1)])),
            Err(failure(INTERNAL)),
            Ok(Some(vec![found("/w/b.rs", 2)])),
        ],
        &root,
    )
    .unwrap();
    assert_eq!(refs.iter().map(|v| v.len()).collect::<Vec<_>>(), vec![1, 0, 1]);
    let e = references_batch(
        vec![Ok(None), Err(failure("first")), Err(failure("second"))],
        &root,
    );
    assert_eq!(e.unwrap_err().message, "first");

    let items = vec![(PathBuf::parse("/w/a.rs"), pos(0, 0)), (PathBuf::parse("/w/b.rs"), pos(1, 1))];
    let declared = declarations_batch(
        &items,
        vec![Ok(Some(LocationResponse::Scalar(found("/w/t.rs", 3)))), Ok(None)],
        &root,
    )
    .unwrap();
    assert_eq!(declared, vec![(PathBuf::parse("/w/t.rs"), pos(3, 1)), items[1].clone()]);

    let files = vec![PathBuf::parse("/w/a.rs"), PathBuf::parse("/w/b.rs")];
    let symbols = document_symbols_batch(
        &files,
        vec![Ok(Some(SymbolsResponse::Nested(vec![symbol()]))), Err(failure(INTERNAL))],
    )
    .unwrap();
    assert_eq!(symbols, vec![vec![symbol()], vec![]]);
}

#[test]
fn files_are_opened_once() {
    let mut opened = OpenedFiles::new();
    assert!(opened.note(&PathBuf::parse("/w/a.rs")));
    assert!(opened.note(&PathBuf::parse("/w/b.rs")));
    assert!(!opened.note(&PathBuf::parse("/w/a.rs")));
}
