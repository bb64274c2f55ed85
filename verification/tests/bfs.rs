use dokono::bfs::{run, run_with_parents, BackendError, LspBackend, Recorder};
use dokono::chain::walk_parents;
use dokono::path::PathBuf;
use dokono::types::{DocumentSymbol, Location, Position, Range};
use std::collections::HashMap;

/// Stubbed `LspBackend` for unit tests. `declaration` defaults to no-jump unless
/// a mapping is registered with `add_declaration`.
struct FakeBackend {
    refs: HashMap<(PathBuf, u32, u32), Vec<Location>>,
    symbols: HashMap<PathBuf, Vec<DocumentSymbol>>,
    declarations: HashMap<(PathBuf, u32, u32), (PathBuf, Position)>,
    ref_calls: usize,
}

impl FakeBackend {
    fn new() -> Self {
        Self {
            refs: HashMap::new(),
            symbols: HashMap::new(),
            declarations: HashMap::new(),
            ref_calls: 0,
        }
    }
    fn add_refs(&mut self, file: &PathBuf, pos: Position, refs: Vec<Location>) {
        self.refs
            .insert((file.clone(), pos.line, pos.character), refs);
    }
    fn add_symbols(&mut self, file: &PathBuf, symbols: Vec<DocumentSymbol>) {
        self.symbols.insert(file.clone(), symbols);
    }
    fn add_declaration(
        &mut self,
        from_file: &PathBuf,
        from_pos: Position,
        to: (PathBuf, Position),
    ) {
        self.declarations.insert(
            (from_file.clone(), from_pos.line, from_pos.character),
            to,
        );
    }
}

impl LspBackend for FakeBackend {
    fn open(&mut self, _file: &PathBuf) -> Result<(), BackendError> {
        Ok(())
    }
    fn declaration(&mut self, file: &PathBuf, pos: Position) -> Result<(PathBuf, Position), BackendError> {
        Ok(self
            .declarations
            .get(&(file.clone(), pos.line, pos.character))
            .cloned()
            .unwrap_or_else(|| (file.clone(), pos)))
    }
    fn references(&mut self, file: &PathBuf, pos: Position) -> Result<Vec<Location>, BackendError> {
        self.ref_calls += 1;
        Ok(self
            .refs
            .get(&(file.clone(), pos.line, pos.character))
            .cloned()
            .unwrap_or_default())
    }
    fn document_symbols(&mut self, file: &PathBuf) -> Result<Vec<DocumentSymbol>, BackendError> {
        Ok(self.symbols.get(file).cloned().unwrap_or_default())
    }
}

fn fn_symbol(name: &str, body: (u32, u32), sel: (u32, u32)) -> DocumentSymbol {
    DocumentSymbol {
        name: name.into(),
        range: Range {
            start: Position {
                line: body.0,
                character: 0,
            },
            end: Position {
                line: body.1,
                character: 0,
            },
        },
        selection_range: Range {
            start: Position {
                line: sel.0,
                character: sel.1,
            },
            end: Position {
                line: sel.0,
                character: sel.1 + 1,
            },
        },
        children: Vec::new(),
    }
}

fn pos(line: u32, character: u32) -> Position {
    Position { line, character }
}

fn loc(file: &PathBuf, line: u32, character: u32) -> Location {
    Location {
        path: file.clone(),
        range: Range {
            start: pos(line, character),
            end: pos(line, character + 1),
        },
    }
}

/// `domain::Foo` (changed) ← `usecase::use_foo` ← `bin/main` — should reach `bin`.
#[test]
fn finds_entrypoint_via_chain() {
    let domain = PathBuf::parse("/test/domain.rs");
    let usecase = PathBuf::parse("/test/usecase.rs");
    let bin = PathBuf::parse("/test/bin/main.rs");
    let entrypoints: Vec<PathBuf> = vec![bin.clone()];

    let mut be = FakeBackend::new();

    be.add_refs(&domain, pos(0, 11), vec![loc(&usecase, 4, 13)]);
    be.add_symbols(&usecase, vec![fn_symbol("use_foo", (3, 5), (3, 7))]);
    be.add_refs(&usecase, pos(3, 7), vec![loc(&bin, 1, 14)]);

    let starts = vec![(domain.clone(), pos(0, 11))];
    let mut be = Recorder::new(be);
    let affected = run(&mut be, starts, &entrypoints).unwrap();
    assert_eq!(affected, vec![bin]);
}

/// Cycle A→B→A must terminate via `visited` and not flag any entrypoint.
#[test]
fn cycle_terminates() {
    let a = PathBuf::parse("/test/a.rs");
    let b = PathBuf::parse("/test/b.rs");
    let entrypoints: Vec<PathBuf> = Vec::new();

    let mut be = FakeBackend::new();
    be.add_symbols(&a, vec![fn_symbol("a_fn", (0, 5), (0, 3))]);
    be.add_symbols(&b, vec![fn_symbol("b_fn", (0, 5), (0, 3))]);
    be.add_refs(&a, pos(0, 3), vec![loc(&b, 2, 4)]);
    be.add_refs(&b, pos(0, 3), vec![loc(&a, 2, 4)]);

    let starts = vec![(a.clone(), pos(0, 3))];
    let mut be = Recorder::new(be);
    let affected = run(&mut be, starts, &entrypoints).unwrap();
    assert!(affected.is_empty());
    // Each node visited exactly once.
    assert_eq!(be.into_backend().ref_calls, 2);
}

#[test]
fn direct_reference_to_entrypoint() {
    let domain = PathBuf::parse("/test/domain.rs");
    let bin = PathBuf::parse("/test/bin/main.rs");
    let entrypoints: Vec<PathBuf> = vec![bin.clone()];

    let mut be = FakeBackend::new();
    be.add_refs(&domain, pos(0, 11), vec![loc(&bin, 1, 14)]);

    let starts = vec![(domain, pos(0, 11))];
    let mut be = Recorder::new(be);
    let affected = run(&mut be, starts, &entrypoints).unwrap();
    assert_eq!(affected, vec![bin]);
}

#[test]
fn multiple_paths_to_same_entrypoint_dedup() {
    let domain = PathBuf::parse("/test/domain.rs");
    let bin = PathBuf::parse("/test/bin/main.rs");
    let entrypoints: Vec<PathBuf> = vec![bin.clone()];

    let mut be = FakeBackend::new();
    be.add_refs(
        &domain,
        pos(0, 11),
        vec![loc(&bin, 1, 14), loc(&bin, 5, 20)],
    );

    let starts = vec![(domain, pos(0, 11))];
    let mut be = Recorder::new(be);
    let affected = run(&mut be, starts, &entrypoints).unwrap();
    assert_eq!(affected.len(), 1);
    assert!(affected.contains(&bin));
}

/// Without `declaration` normalizing impl→trait, `dyn Trait` callers are missed.
#[test]
fn impl_method_normalized_to_trait_method() {
    let domain = PathBuf::parse("/test/domain.rs");
    let usecase = PathBuf::parse("/test/usecase.rs");
    let bin = PathBuf::parse("/test/bin/main.rs");
    let entrypoints: Vec<PathBuf> = vec![bin.clone()];

    let mut be = FakeBackend::new();

    // Foo's reference lives inside the impl method's body in usecase.rs.
    be.add_refs(&domain, pos(0, 11), vec![loc(&usecase, 4, 13)]);
    be.add_symbols(&usecase, vec![fn_symbol("use_foo_impl", (3, 5), (3, 7))]);
    // declaration: impl method (3,7) → trait method (1,7).
    let trait_pos = Position {
        line: 1,
        character: 7,
    };
    be.add_declaration(&usecase, pos(3, 7), (usecase.clone(), trait_pos));
    // The trait method's references reach bin/main.rs.
    be.add_refs(&usecase, trait_pos, vec![loc(&bin, 5, 4)]);

    let starts = vec![(domain, pos(0, 11))];
    let mut be = Recorder::new(be);
    let affected = run(&mut be, starts, &entrypoints).unwrap();
    assert_eq!(affected, vec![bin]);
}

/// References landing on module-level lines (e.g. `use` statements) have no
/// enclosing function and must be silently dropped from the queue.
#[test]
fn reference_with_no_enclosing_symbol_skipped() {
    let domain = PathBuf::parse("/test/domain.rs");
    let other = PathBuf::parse("/test/other.rs");
    let bin = PathBuf::parse("/test/bin/main.rs");
    let entrypoints: Vec<PathBuf> = vec![bin];

    let mut be = FakeBackend::new();
    be.add_refs(&domain, pos(0, 11), vec![loc(&other, 0, 5)]);
    be.add_symbols(&other, vec![fn_symbol("some_fn", (10, 20), (10, 7))]);

    let starts = vec![(domain, pos(0, 11))];
    let mut be = Recorder::new(be);
    let affected = run(&mut be, starts, &entrypoints).unwrap();
    assert!(affected.is_empty());
}

#[test]
fn each_place_leads_back_to_the_start() {
    let domain = PathBuf::parse("/test/domain.rs");
    let usecase = PathBuf::parse("/test/usecase.rs");
    let bin = PathBuf::parse("/test/bin/main.rs");

    let mut be = FakeBackend::new();
    be.add_refs(&domain, pos(0, 11), vec![loc(&usecase, 4, 13)]);
    be.add_symbols(&usecase, vec![fn_symbol("use_foo_impl", (3, 5), (3, 7))]);
    be.add_declaration(&usecase, pos(3, 7), (usecase.clone(), pos(1, 7)));
    be.add_refs(&usecase, pos(1, 7), vec![loc(&bin, 5, 4), loc(&bin, 9, 2)]);

    let mut be = Recorder::new(be);
    let found =
        run_with_parents(&mut be, vec![(domain.clone(), pos(0, 11))], &vec![bin.clone()]).unwrap();
    assert_eq!(found.affected, vec![bin.clone()]);
    assert_eq!(found.entry_hits, vec![(bin.clone(), vec![pos(5, 4), pos(9, 2)])]);
    assert_eq!(
        walk_parents(&found.parents, (bin, pos(9, 2))),
        vec![
            (usecase.clone(), pos(1, 7)),
            (usecase, pos(3, 7)),
            (domain.clone(), pos(0, 11)),
        ]
    );
    assert!(walk_parents(&found.parents, (domain, pos(0, 11))).is_empty());
}

#[test]
fn a_chain_is_cut_at_its_limit() {
    let f = PathBuf::parse("/f.rs");
    let mut parents = vec![((f.clone(), pos(0, 0)), None)];
    for i in 1..300 {
        parents.push(((f.clone(), pos(i, 0)), Some((f.clone(), pos(i - 1, 0)))));
    }
    let chain = walk_parents(&parents, (f.clone(), pos(200, 0)));
    assert_eq!(chain.len(), 101);
    assert_eq!(chain[0], (f.clone(), pos(199, 0)));
    assert_eq!(chain[100], (f, pos(99, 0)));
}

struct FailingBackend {
    inner: FakeBackend,
    failing: &'static str,
}

impl FailingBackend {
    fn check(&self, method: &'static str) -> Result<(), BackendError> {
        if self.failing == method {
            Err(BackendError { message: format!("{method} failed") })
        } else {
            Ok(())
        }
    }
}

impl LspBackend for FailingBackend {
    fn open(&mut self, file: &PathBuf) -> Result<(), BackendError> {
        self.check("open")?;
        self.inner.open(file)
    }
    fn declaration(
        &mut self,
        file: &PathBuf,
        pos: Position,
    ) -> Result<(PathBuf, Position), BackendError> {
        self.check("declaration")?;
        self.inner.declaration(file, pos)
    }
    fn references(
        &mut self,
        file: &PathBuf,
        pos: Position,
    ) -> Result<Vec<Location>, BackendError> {
        self.check("references")?;
        self.inner.references(file, pos)
    }
    fn document_symbols(&mut self, file: &PathBuf) -> Result<Vec<DocumentSymbol>, BackendError> {
        self.check("symbols")?;
        self.inner.document_symbols(file)
    }
}

#[test]
fn the_first_failure_ends_the_search() {
    let a = PathBuf::parse("/a.rs");
    let b = PathBuf::parse("/b.rs");
    for method in ["open", "declaration", "references", "symbols"] {
        let mut inner = FakeBackend::new();
        inner.add_refs(&a, pos(0, 0), vec![loc(&b, 1, 1)]);
        let mut be = Recorder::new(FailingBackend { inner, failing: method });
        let e = run(&mut be, vec![(a.clone(), pos(0, 0))], &Vec::new()).unwrap_err();
        assert_eq!(e.message, format!("{method} failed"));
    }
}

#[test]
fn affected_entrypoints_come_in_order() {
    let domain = PathBuf::parse("/w/domain.rs");
    let a = PathBuf::parse("/w/a/main.rs");
    let ab = PathBuf::parse("/w/a-b/main.rs");
    let mut be = FakeBackend::new();
    be.add_refs(&domain, pos(0, 0), vec![loc(&ab, 1, 1), loc(&a, 1, 1)]);
    let mut be = Recorder::new(be);
    let got = run(&mut be, vec![(domain, pos(0, 0))], &vec![ab.clone(), a.clone()]).unwrap();
    assert_eq!(got, vec![a, ab]);
}

#[test]
fn a_place_keeps_what_led_to_it_first() {
    let domain = PathBuf::parse("/w/domain.rs");
    let m = PathBuf::parse("/w/m.rs");
    let bin = PathBuf::parse("/w/bin/main.rs");
    let mut be = FakeBackend::new();
    // `one` and `two` both use the changed symbol, `user` uses both, and the changed symbol
    // uses `user`. Both `two` and `user` are mentioned at one place of the binary.
    be.add_symbols(
        &m,
        vec![
            fn_symbol("one", (0, 4), (0, 3)),
            fn_symbol("two", (5, 9), (5, 3)),
            fn_symbol("user", (10, 19), (10, 3)),
        ],
    );
    be.add_symbols(&domain, vec![fn_symbol("changed", (0, 9), (0, 3))]);
    be.add_refs(&domain, pos(0, 3), vec![loc(&m, 6, 0), loc(&m, 1, 0)]);
    be.add_refs(&m, pos(0, 3), vec![loc(&m, 11, 0)]);
    be.add_refs(&m, pos(5, 3), vec![loc(&bin, 2, 0), loc(&m, 12, 0)]);
    be.add_refs(&m, pos(10, 3), vec![loc(&bin, 2, 0), loc(&domain, 4, 0)]);

    let mut be = Recorder::new(be);
    let found =
        run_with_parents(&mut be, vec![(domain.clone(), pos(0, 3))], &vec![bin.clone()]).unwrap();
    let two = (m.clone(), pos(5, 3));
    let start = (domain, pos(0, 3));
    assert_eq!(
        found.parents,
        vec![
            (start.clone(), None),
            (two.clone(), Some(start.clone())),
            ((m.clone(), pos(0, 3)), Some(start)),
            ((bin, pos(2, 0)), Some(two.clone())),
            ((m, pos(10, 3)), Some(two)),
        ]
    );
}
