//! Walks over an index in memory: what depends on a file, how one symbol
//! reaches another, and which tests reach a change.
use std::cell::RefCell;
use std::mem::size_of;

use codesage_graph::call_path::{
    begin, call_sites, callees_of, is_call_edge, step_of, CallPathReport, Start,
};
use codesage_graph::history::answer::{take_inputs, IndexedPath};
use codesage_graph::history::reach::{
    input_share, settle, ReachStep, ReachabilityOptions, REACH_FRONTIER,
    REACH_MIN_INPUT_BUDGET_DEFAULT,
};
use codesage_graph::history::recommend::{
    recommend_tests, CoupledInput, CoupledRow, KnownInput, TestRecommendations,
};
use codesage_graph::history::recommending::{recommend_tests_with_reachability, Opening};
use codesage_graph::history::siblings::PHPT_LIST_CAP;
use codesage_graph::impact::{
    admit_cheapest, check_unambiguous, finish, is_qualified_symbol_name,
    resolution_cost, resolve_references_to_symbol, FileSymbols, Priced, Walk, WalkBudget,
    WalkOutcome, MAX_FRONTIER,
};
use codesage_graph::impact_report::{
    build_impact_summary, collect_sibling_symbols, impact_analysis_report, impact_target_files,
    ImpactOptions,
};
use codesage_graph::model::{FileCategory, Notes, Reference, ReferenceKind, Symbol};
use codesage_graph::resolution::{import_refs_for_file, resolve_callee_definitions, OutgoingRef};
use codesage_graph::walk_cache::{
    definition_key, entry_price, file_key, WalkCache, MAX_CACHED_BYTES,
};
use codesage_graph::walk_run::{refuse_walk, Ask, WalkRun, POLL_STRIDE};

/// An index in memory.
#[derive(Default)]
struct Index {
    files: RefCell<Vec<String>>,
    symbols: RefCell<Vec<Symbol>>,
    references: RefCell<Vec<Reference>>,
    co_changes: RefCell<Vec<(String, String, u32)>>,
}

impl Index {
    fn symbols_named(&self, name: &str) -> Vec<Symbol> {
        self.symbols.borrow().iter().filter(|s| s.name == name).cloned().collect()
    }

    fn symbols_in(&self, path: &str) -> Vec<Symbol> {
        self.symbols.borrow().iter().filter(|s| s.file_path == path).cloned().collect()
    }

    fn references_to(&self, name: &str) -> Vec<Reference> {
        self.references.borrow().iter().filter(|r| r.to_name == name).cloned().collect()
    }

    fn references_from(&self, path: &str) -> Vec<Reference> {
        self.references.borrow().iter().filter(|r| r.from_file == path).cloned().collect()
    }

    fn imports(&self) -> Vec<Reference> {
        self.references
            .borrow()
            .iter()
            .filter(|r| matches!(r.kind, ReferenceKind::Import | ReferenceKind::Include))
            .cloned()
            .collect()
    }

    fn has(&self, path: &str) -> bool {
        self.files.borrow().iter().any(|f| f == path)
    }

    fn resolve(&self, from: &str, name: &str) -> Vec<Symbol> {
        let outgoing: Vec<OutgoingRef> = self
            .references_from(from)
            .into_iter()
            .map(|r| OutgoingRef { to_name: r.to_name, kind: r.kind })
            .collect();
        resolve_callee_definitions(
            self.symbols_named(name),
            from,
            name,
            &import_refs_for_file(&outgoing),
        )
    }

    fn rows_for(&self, sym: &Symbol) -> Vec<Reference> {
        let rows = self.references_to(&sym.name);
        let resolved: Vec<Vec<Symbol>> =
            rows.iter().map(|r| self.resolve(&r.from_file, &r.to_name)).collect();
        resolve_references_to_symbol(sym, &rows, &resolved)
    }
}

fn classify(path: &str) -> FileCategory {
    if path.starts_with("tests/") || path.contains("/tests/") || path.ends_with("Test.php") {
        FileCategory::Test
    } else {
        FileCategory::Source
    }
}

fn parsed(path: &str) -> bool {
    [".php", ".c", ".rs", ".py"].iter().any(|e| path.ends_with(e))
}

/// Answers what a run asks for until it is over.
fn walk_through(
    db: &Index,
    walk: Walk,
    budget: Option<WalkBudget>,
    passed: bool,
) -> (WalkOutcome, Option<WalkBudget>) {
    walk_with(db, walk, budget, passed, None)
}

/// A cache that walks share, with counts of what it knew. Every list of
/// references takes `bytes`.
struct Shared {
    cache: WalkCache,
    bytes: usize,
    hits: usize,
    import_hits: usize,
}

impl Shared {
    fn new(bytes: usize) -> Self {
        Shared { cache: WalkCache::new(), bytes, hits: 0, import_hits: 0 }
    }

    fn rows_for(&mut self, db: &Index, sym: &Symbol) -> Vec<Reference> {
        if let Some(known) = self.cache.references.get(&definition_key(sym)) {
            self.hits += 1;
            return known.clone();
        }
        let rows = db.rows_for(sym);
        self.cache.remember_references(sym, rows.clone(), self.bytes);
        rows
    }

    fn recall_imports(&mut self, file: &str) -> Option<Vec<usize>> {
        let known = self.cache.recall_imports(file);
        self.import_hits += usize::from(known.is_some());
        known
    }

    fn keep_imports(&mut self, file: &str, matches: Vec<usize>) {
        let bytes = entry_price(matches.capacity(), size_of::<usize>(), &vec![file.len()]);
        self.cache.remember_imports(file, matches, bytes);
    }
}

fn walk_with(
    db: &Index,
    walk: Walk,
    budget: Option<WalkBudget>,
    passed: bool,
    mut shared: Option<&mut Shared>,
) -> (WalkOutcome, Option<WalkBudget>) {
    let imports = db.imports();
    let mut run = WalkRun::begin(walk, budget, imports.len());
    loop {
        match run.next(passed) {
            Ask::Nothing => {},
            Ask::Price(i) => {
                let name = run.walk.frontier[i].name.clone();
                let mut callers: Vec<String> =
                    db.references_to(&name).into_iter().map(|r| r.from_file).collect();
                callers.sort();
                callers.dedup();
                run.take_price(callers.len(), db.symbols_named(&name).len());
            },
            Ask::Rows(i) => {
                let sym = &run.walk.frontier[i];
                let rows = match shared.as_deref_mut() {
                    Some(shared) => shared.rows_for(db, sym),
                    None => db.rows_for(sym),
                };
                run.take_rows(&rows);
            },
            Ask::Remembered(i) => {
                let file = run.walk.file_frontier[i].clone();
                let known = shared.as_deref_mut().and_then(|shared| shared.recall_imports(&file));
                run.take_remembered(known);
            },
            Ask::Matched(i) => {
                if let Some(shared) = shared.as_deref_mut() {
                    let file = run.walk.file_frontier[i].clone();
                    shared.keep_imports(&file, run.take_matches());
                }
            },
            Ask::Imports(_, _, _) => run.take_imports(&imports),
            Ask::Definitions => {
                let mut paths: Vec<String> =
                    run.walk.pending.iter().map(|r| r.from_file.clone()).collect();
                paths.sort();
                paths.dedup();
                let by_file: Vec<FileSymbols> = paths
                    .into_iter()
                    .map(|path| FileSymbols { symbols: db.symbols_in(&path), path })
                    .collect();
                run.take_definitions(&by_file);
            },
            Ask::Over => break,
        }
    }
    let categories = run.walk.reached.iter().map(|r| classify(&r.path)).collect();
    let budget = run.budget;
    (finish(run.walk, &categories, false), budget)
}

fn file_walk(
    db: &Index,
    path: &str,
    depth: u32,
    frontier: usize,
    budget: Option<WalkBudget>,
    passed: bool,
) -> (WalkOutcome, Option<WalkBudget>) {
    let mut budget = budget;
    if let Some(b) = &mut budget {
        if let Some(refused) = refuse_walk(b, passed) {
            return (refused, budget);
        }
    }
    let walk = Walk::for_file(path, db.has(path), db.symbols_in(path), depth, frontier);
    walk_through(db, walk, budget, passed)
}

fn coupled_inputs(db: &Index, paths: &[String]) -> Vec<CoupledInput> {
    paths
        .iter()
        .map(|path| CoupledInput {
            path: path.clone(),
            rows: db
                .co_changes
                .borrow()
                .iter()
                .filter(|c| c.0 == *path || c.1 == *path)
                .map(|c| {
                    let file = if c.0 == *path { c.1.clone() } else { c.0.clone() };
                    CoupledRow {
                        rank: 1,
                        count: c.2,
                        is_test: classify(&file) == FileCategory::Test,
                        file,
                    }
                })
                .collect(),
        })
        .collect()
}

fn recommend(db: &Index, given: &[String], opts: &ReachabilityOptions) -> TestRecommendations {
    let inputs = take_inputs(&given.to_vec(), opts.project_root.as_deref());
    let index: Vec<IndexedPath> = db
        .files
        .borrow()
        .iter()
        .map(|p| IndexedPath { path: p.clone(), is_test: classify(p) == FileCategory::Test })
        .collect();
    let rows = coupled_inputs(db, &inputs.paths);
    let known: Vec<KnownInput> = inputs
        .paths
        .iter()
        .map(|path| KnownInput {
            parsed: parsed(path),
            is_test: classify(path) == FileCategory::Test,
            indexed: db.has(path),
            path: path.clone(),
        })
        .collect();
    let mut walks = match recommend_tests_with_reachability(inputs, &index, &rows, &known, opts) {
        Opening::Answer(answer) => return answer,
        Opening::Walk(walks) => walks,
    };
    let passed = opts.deadline_ms == 0;
    loop {
        match walks.run.next(passed) {
            ReachStep::Finished => break,
            ReachStep::Skipped => {},
            ReachStep::Walk(i) => {
                let path = walks.run.walkable[i].clone();
                let (out, budget) =
                    file_walk(db, &path, opts.depth, REACH_FRONTIER, Some(walks.run.budget), passed);
                walks.run.take_walk(&out, budget.unwrap());
            },
        }
    }
    walks.finish(opts)
}

fn add_file(db: &Index, path: &str) {
    db.files.borrow_mut().push(path.to_string());
}

fn add_symbols(db: &Index, symbols: &[Symbol]) {
    db.symbols.borrow_mut().extend(symbols.iter().cloned());
}

fn symbol(name: &str, file_path: &str) -> Symbol {
    Symbol {
        name: name.to_string(),
        qualified_name: name.to_string(),
        kind: "function".to_string(),
        file_path: file_path.to_string(),
        line_start: 1,
        line_end: 10,
        col_start: 0,
        col_end: 0,
        rationale: Notes::End,
    }
}

fn call(from_file: &str, from_symbol: Option<&str>, to_name: &str, line: u32) -> Reference {
    Reference {
        from_file: from_file.to_string(),
        from_symbol: from_symbol.map(str::to_string),
        to_name: to_name.to_string(),
        kind: ReferenceKind::Call,
        line,
        col: 4,
    }
}

/// `Repository.php` defines `find`; `Service.php::run` calls it. Tests
/// hang off these two as each case needs.
fn graph() -> Index {
    let db = Index::default();
    add_file(&db, "Repository.php");
    add_symbols(&db, &[symbol("find", "Repository.php")]);
    add_file(&db, "Service.php");
    add_symbols(&db, &[symbol("run", "Service.php")]);
    db.references.borrow_mut().push(call("Service.php", Some("run"), "find", 5));
    db
}

/// [`graph`] plus one test per hop: with both tests present, walking
/// Repository.php costs 3 steps (`find`: 2 caller files, then `run`: 1)
/// and walking Service.php costs 1.
fn graph_with_hop_tests() -> Index {
    let db = graph();
    add_test_calling(&db, "tests/RepositoryFindTest.php", &["find"]);
    add_test_calling(&db, "tests/ServiceRunTest.php", &["run"]);
    db
}

fn add_test_calling(db: &Index, path: &str, to_names: &[&str]) {
    add_file(db, path);
    for (i, name) in to_names.iter().enumerate() {
        db.references.borrow_mut().push(call(path, None, name, 5 + i as u32));
    }
}

/// Unlimited walk: no budget, no floor, no deadline pressure.
fn unlimited() -> ReachabilityOptions {
    ReachabilityOptions {
        depth: 2,
        list_cap: 50,
        work_budget: usize::MAX,
        min_input_budget: 0,
        deadline_ms: 60_000,
        project_root: None,
    }
}

fn recs(db: &Index, inputs: &[&str]) -> TestRecommendations {
    recs_with(db, inputs, &unlimited())
}

fn recs_with(db: &Index, inputs: &[&str], opts: &ReachabilityOptions) -> TestRecommendations {
    let inputs: Vec<String> = inputs.iter().map(|s| s.to_string()).collect();
    recommend(db, &inputs, opts)
}

fn shape(r: &TestRecommendations) -> Vec<(&str, u32, u32, &str)> {
    r.reachable
        .iter()
        .map(|e| (e.path.as_str(), e.distance, e.edge_count, e.input.as_str()))
        .collect()
}

fn no_files() -> Vec<String> {
    Vec::new()
}

fn files(paths: &[&str]) -> Vec<String> {
    paths.iter().map(|p| p.to_string()).collect()
}

fn reach_note(r: &TestRecommendations) -> &str {
    r.notes
        .iter()
        .find(|n| n.contains("reachable test file(s)"))
        .unwrap_or_else(|| panic!("no reach note in {:?}", r.notes))
}

#[test]
fn dot_slash_and_absolute_inputs_resolve_against_the_index() {
    let db = graph();
    add_test_calling(&db, "tests/RepositoryFindTest.php", &["find"]);

    let r = recs(&db, &["./Repository.php"]);
    assert_eq!(
        shape(&r),
        vec![("tests/RepositoryFindTest.php", 1, 1, "Repository.php")]
    );
    assert_eq!(r.unindexed_files, no_files());
    assert!(!r.reach_walk_capped);

    let opts = ReachabilityOptions {
        project_root: Some("/proj".to_string()),
        ..unlimited()
    };
    let r = recs_with(&db, &["/proj/Repository.php"], &opts);
    assert_eq!(
        shape(&r),
        vec![("tests/RepositoryFindTest.php", 1, 1, "Repository.php")]
    );
    assert_eq!(r.unindexed_files, no_files());
    assert!(!r.reach_walk_capped);
}

#[test]
fn cheap_variant_skips_the_walk_and_leaves_reachability_fields_default() {
    let db = graph();
    add_test_calling(&db, "tests/RepositoryFindTest.php", &["find"]);
    add_file(&db, "tests/UnrelatedTest.php");

    let r = recommend_tests(
        &db.files.borrow(),
        &coupled_inputs(&db, &["Repository.php".to_string()]),
    );
    assert!(r.primary.is_empty());
    assert!(r.reachable.is_empty());
    assert_eq!(r.reachable_total, 0);
    assert!(!r.reachable_capped);
    assert!(!r.reach_walk_capped);
    assert_eq!(r.unwalked_files, no_files());
    assert_eq!(r.partial_files, no_files());
    assert_eq!(r.unindexed_files, no_files());
    assert_eq!(r.no_symbol_files, no_files());
    assert_eq!(r.unsupported_files, no_files());
    assert_eq!(r.unmodelled, 0);
    assert_eq!(r.indexed_test_files, 0);
    assert!(
        r.notes.iter().any(|n| n.contains("no test files found")),
        "notes: {:?}",
        r.notes
    );
}

#[test]
fn reachable_lists_test_that_calls_input_directly() {
    let db = graph();
    add_test_calling(&db, "tests/RepositoryFindTest.php", &["find"]);

    let r = recs(&db, &["Repository.php"]);
    assert!(r.primary.is_empty());
    assert_eq!(
        shape(&r),
        vec![("tests/RepositoryFindTest.php", 1, 1, "Repository.php")]
    );
    assert_eq!(r.reachable_total, 1);
    assert!(!r.reachable_capped);
    assert!(!r.reach_walk_capped);
    assert_eq!(r.unwalked_files, no_files());
    assert_eq!(r.partial_files, no_files());
    assert_eq!(r.unindexed_files, no_files());
    assert_eq!(r.no_symbol_files, no_files());
    assert_eq!(r.unmodelled, 0);
    assert_eq!(r.indexed_test_files, 1);
    let note = reach_note(&r);
    assert!(
        note.starts_with("1 reachable test file(s)") && note.contains("0 of 1 indexed"),
        "{note}"
    );
}

#[test]
fn reachable_reports_distance_two_through_intermediate_source() {
    let db = graph();
    add_test_calling(&db, "tests/ServiceRunTest.php", &["run"]);

    let r = recs(&db, &["Repository.php"]);
    assert_eq!(
        shape(&r),
        vec![("tests/ServiceRunTest.php", 2, 1, "Repository.php")]
    );
}

#[test]
fn reachable_keeps_shortest_distance_across_inputs_and_sorts_by_distance() {
    let db = graph();
    add_test_calling(&db, "tests/ServiceRunTest.php", &["run"]);
    add_test_calling(&db, "tests/ZRepositoryTest.php", &["find"]);

    let r = recs(&db, &["Repository.php", "Service.php"]);
    assert_eq!(
        shape(&r),
        vec![
            ("tests/ServiceRunTest.php", 1, 1, "Service.php"),
            ("tests/ZRepositoryTest.php", 1, 1, "Repository.php"),
        ]
    );
}

#[test]
fn equal_distance_tie_attributes_via_to_the_earlier_input() {
    let db = graph();
    add_test_calling(&db, "tests/BothTest.php", &["find", "run"]);

    // Walking from Repository.php records two edges for BothTest (`find`
    // at depth 1, `run` via Service.php at depth 2); from Service.php it
    // records one. The first input to reach the test at the shortest
    // distance owns the entry, edge count included.
    let r = recs(&db, &["Repository.php", "Service.php"]);
    assert_eq!(
        shape(&r),
        vec![("tests/BothTest.php", 1, 2, "Repository.php")]
    );
    let r = recs(&db, &["Service.php", "Repository.php"]);
    assert_eq!(shape(&r), vec![("tests/BothTest.php", 1, 1, "Service.php")]);
}

#[test]
fn reachable_excludes_tests_already_in_primary() {
    let db = graph();
    // Sibling by convention *and* a direct caller: primary wins.
    add_test_calling(&db, "RepositoryTest.php", &["find"]);

    let r = recs(&db, &["Repository.php"]);
    assert_eq!(r.primary, vec!["RepositoryTest.php".to_string()]);
    assert!(r.reachable.is_empty(), "reachable: {:?}", r.reachable);
    assert_eq!(r.reachable_total, 0);
    assert_eq!(r.unmodelled, 0);
}

#[test]
fn fixture_callers_and_fixture_co_changes_are_not_recommendations() {
    let db = graph();
    // A fixture that calls `find` is reachable by the graph but is not a
    // test to run; a real test with no edges makes the index non-empty.
    add_test_calling(&db, "tests/fixtures/FixtureCaller.php", &["find"]);
    add_file(&db, "tests/OtherTest.php");
    // A fixture that co-changes with the input is not a coupled test.
    db.co_changes.borrow_mut().push(("Repository.php".to_string(), "tests/fixtures/data.php".to_string(), 8));

    let r = recs(&db, &["Repository.php"]);
    assert!(r.reachable.is_empty(), "reachable: {:?}", r.reachable);
    assert_eq!(r.reachable_total, 0);
    assert!(r.coupled.is_empty(), "coupled: {:?}", r.coupled);
    assert!(!r.reach_walk_capped);
    assert_eq!(r.indexed_test_files, 1);
    assert_eq!(r.unmodelled, 1);
    // Nothing vouched for anything: the absence advice stands.
    assert!(
        r.notes.iter().any(|n| n.contains("no test files found")),
        "notes: {:?}",
        r.notes
    );
}

#[test]
fn reachable_caps_at_fifty_and_discloses_it() {
    let db = graph();
    for i in 0..60 {
        add_test_calling(&db, &format!("tests/Fan{i:02}Test.php"), &["find"]);
    }

    let r = recs(&db, &["Repository.php"]);
    assert_eq!(r.reachable.len(), 50);
    assert_eq!(r.reachable_total, 60);
    assert!(r.reachable_capped);
    assert!(!r.reach_walk_capped);
    assert_eq!(r.reachable[0].path, "tests/Fan00Test.php");
    assert_eq!(r.reachable[49].path, "tests/Fan49Test.php");
    // The ten dropped by the cap are still reachable, not unmodelled.
    assert_eq!(r.unmodelled, 0);
    assert_eq!(r.indexed_test_files, 60);
    let note = reach_note(&r);
    assert!(
        note.contains("60 reachable") && note.contains("capped at 50"),
        "{note}"
    );
}

#[test]
fn list_cap_keeps_the_most_connected_tests_within_a_distance() {
    let db = graph();
        add_symbols(&db, &[symbol("save", "Repository.php")]);
    add_test_calling(&db, "tests/AThinTest.php", &["find"]);
    add_test_calling(&db, "tests/ZWideTest.php", &["find", "save"]);

    let opts = ReachabilityOptions {
        list_cap: 1,
        ..unlimited()
    };
    let r = recs_with(&db, &["Repository.php"], &opts);
    assert_eq!(
        shape(&r),
        vec![("tests/ZWideTest.php", 1, 2, "Repository.php")]
    );
    assert_eq!(r.reachable_total, 2);
    assert!(r.reachable_capped);
}

#[test]
fn edge_count_is_uncapped_so_twelve_edges_outrank_eleven() {
    let db = graph();
        let names: Vec<String> = (1..=12).map(|i| format!("op{i:02}")).collect();
    let syms: Vec<Symbol> = names.iter().map(|n| symbol(n, "Repository.php")).collect();
    add_symbols(&db, &syms);
    let all: Vec<&str> = names.iter().map(String::as_str).collect();
    // Alphabetically first but one edge short: must lose the single slot.
    add_test_calling(&db, "tests/AElevenTest.php", &all[..11]);
    add_test_calling(&db, "tests/ZTwelveTest.php", &all);

    let opts = ReachabilityOptions {
        list_cap: 1,
        ..unlimited()
    };
    let r = recs_with(&db, &["Repository.php"], &opts);
    assert_eq!(
        shape(&r),
        vec![("tests/ZTwelveTest.php", 1, 12, "Repository.php")]
    );
    let full = recs(&db, &["Repository.php"]);
    assert_eq!(
        shape(&full),
        vec![
            ("tests/ZTwelveTest.php", 1, 12, "Repository.php"),
            ("tests/AElevenTest.php", 1, 11, "Repository.php"),
        ]
    );
}

#[test]
fn work_budget_stops_the_walk_and_downgrades_the_note_to_a_lower_bound() {
    let db = graph_with_hop_tests();
    add_file(&db, "tests/UnrelatedTest.php");

    // `find` costs 2 steps and spends the budget, so the depth-2 hop to
    // ServiceRunTest is never taken.
    let opts = ReachabilityOptions {
        work_budget: 2,
        ..unlimited()
    };
    let r = recs_with(&db, &["Repository.php"], &opts);
    assert_eq!(
        shape(&r),
        vec![("tests/RepositoryFindTest.php", 1, 1, "Repository.php")]
    );
    assert!(r.reach_walk_capped);
    assert_eq!(r.unwalked_files, no_files());
    assert_eq!(r.partial_files, files(&["Repository.php"]));
    assert!(!r.reachable_capped);
    assert_eq!(r.indexed_test_files, 3);
    let note = reach_note(&r);
    assert!(
        note.contains("lower bound (cut short: Repository.php)"),
        "{note}"
    );
    assert!(!note.contains("no resolved edge"), "{note}");
}

#[test]
fn pool_never_spends_past_the_budget_and_the_floor_serves_the_first_inputs() {
    let db = graph_with_hop_tests();

    // Budget 3, floor 3. Repository.php: pool 3 minus the 3 reserved for
    // Service.php is 0, so it draws the floor, 3, and spends all of it;
    // Service.php finds the pool empty and gets no walk. ⌊3 / 3⌋ = 1
    // input served, Σ spent = 3 = budget.
    let opts = ReachabilityOptions {
        work_budget: 3,
        min_input_budget: 3,
        ..unlimited()
    };
    let r = recs_with(&db, &["Repository.php", "Service.php"], &opts);
    assert_eq!(
        shape(&r),
        vec![
            ("tests/RepositoryFindTest.php", 1, 1, "Repository.php"),
            ("tests/ServiceRunTest.php", 2, 1, "Repository.php"),
        ]
    );
    assert_eq!(r.partial_files, no_files());
    assert_eq!(r.unwalked_files, files(&["Service.php"]));
    assert!(r.reach_walk_capped);
}

#[test]
fn pool_lets_a_cheap_inputs_leftover_finish_a_later_input() {
    let db = graph_with_hop_tests();

    // Budget 4 over 2 inputs, floor 3. Service.php may draw
    // max(4 - 3, min(3, 4)) = 3, the floor; it spends 1 of it and
    // completes; Repository.php, last in line with nothing
    // reserved behind it, draws the whole remaining 3 and finishes. A
    // fixed half-share of 2 would have cut Repository.php short.
    let opts = ReachabilityOptions {
        work_budget: 4,
        min_input_budget: 3,
        ..unlimited()
    };
    let r = recs_with(&db, &["Service.php", "Repository.php"], &opts);
    assert!(!r.reach_walk_capped, "partial: {:?}", r.partial_files);
    assert_eq!(r.partial_files, no_files());
    assert_eq!(r.reachable_total, 2);

    // Budget 3, floor 0: Service.php may draw all 3, spends 1, and
    // Repository.php still gets the remaining 2: `find` (2 caller
    // files) resolves, `run` behind it does not.
    let tight = ReachabilityOptions {
        work_budget: 3,
        min_input_budget: 0,
        ..unlimited()
    };
    let r = recs_with(&db, &["Service.php", "Repository.php"], &tight);
    assert_eq!(
        shape(&r),
        vec![
            ("tests/RepositoryFindTest.php", 1, 1, "Repository.php"),
            ("tests/ServiceRunTest.php", 1, 1, "Service.php"),
        ]
    );
    assert_eq!(r.partial_files, files(&["Repository.php"]));
    assert_eq!(r.unwalked_files, no_files());
}

#[test]
fn a_complete_input_stays_complete_when_a_cheap_input_is_appended() {
    let db = graph_with_hop_tests();
    add_file(&db, "tests/TestCase.php");
    add_symbols(&db, &[symbol("TestCase", "tests/TestCase.php")]);
    add_test_calling(&db, "tests/Unit/AlphaTest.php", &["TestCase"]);

    // Repository.php costs 3, TestCase.php costs 1. Budget 4, floor 1:
    // alone, Repository.php draws 4 and finishes. With the changed test
    // appended it draws 4 - 1 = 3 and still finishes; a cap of
    // budget / inputs = 2 would have flipped the same file to "cut
    // short" with byte-identical content.
    let opts = ReachabilityOptions {
        work_budget: 4,
        min_input_budget: 1,
        ..unlimited()
    };
    let alone = recs_with(&db, &["Repository.php"], &opts);
    assert!(!alone.reach_walk_capped, "{:?}", alone.notes);
    assert_eq!(
        shape(&alone),
        vec![
            ("tests/RepositoryFindTest.php", 1, 1, "Repository.php"),
            ("tests/ServiceRunTest.php", 2, 1, "Repository.php"),
        ]
    );

    let both = recs_with(&db, &["Repository.php", "tests/TestCase.php"], &opts);
    assert!(!both.reach_walk_capped, "{:?}", both.notes);
    assert_eq!(both.partial_files, no_files());
    assert_eq!(both.unwalked_files, no_files());
    assert_eq!(both.primary, files(&["tests/TestCase.php"]));
    assert_eq!(
        shape(&both),
        vec![
            ("tests/RepositoryFindTest.php", 1, 1, "Repository.php"),
            ("tests/Unit/AlphaTest.php", 1, 1, "tests/TestCase.php"),
            ("tests/ServiceRunTest.php", 2, 1, "Repository.php"),
        ]
    );
}

#[test]
fn the_floor_reserved_for_later_inputs_keeps_the_first_from_starving_them() {
    let db = graph_with_hop_tests();

    // Budget 4, floor 2. Repository.php may draw 4 - 2 = 2, spends it on
    // `find` and is cut short before depth 2; Service.php draws the
    // reserved 2, and `run` costs 1 and completes. With no floor the
    // first input would take all 4 and the second would still get 1
    // here, but a first input costing 4 would leave it nothing.
    let opts = ReachabilityOptions {
        work_budget: 4,
        min_input_budget: 2,
        ..unlimited()
    };
    let r = recs_with(&db, &["Repository.php", "Service.php"], &opts);
    assert_eq!(
        shape(&r),
        vec![
            ("tests/RepositoryFindTest.php", 1, 1, "Repository.php"),
            ("tests/ServiceRunTest.php", 1, 1, "Service.php"),
        ]
    );
    assert!(r.reach_walk_capped);
    assert_eq!(r.unwalked_files, no_files());
    assert_eq!(r.partial_files, files(&["Repository.php"]));
}

#[test]
fn passed_deadline_skips_every_input_and_names_them() {
    let db = graph();
    add_test_calling(&db, "tests/RepositoryFindTest.php", &["find"]);

    let opts = ReachabilityOptions {
        deadline_ms: 0,
        ..unlimited()
    };
    let r = recs_with(&db, &["Repository.php", "Service.php"], &opts);
    assert!(r.reachable.is_empty());
    assert!(r.reach_walk_capped);
    assert_eq!(r.unwalked_files, files(&["Repository.php", "Service.php"]));
    assert_eq!(r.partial_files, no_files());
    assert!(
        reach_note(&r).contains("not walked: Repository.php, Service.php"),
        "notes: {:?}",
        r.notes
    );
}

#[test]
fn capped_note_abbreviates_long_input_lists() {
    let db = graph();
    add_test_calling(&db, "tests/RepositoryFindTest.php", &["find"]);
    for i in 0..7 {
        add_file(&db, &format!("Other{i}.php"));
    }
    let inputs: Vec<String> = (0..7).map(|i| format!("Other{i}.php")).collect();
    let refs: Vec<&str> = inputs.iter().map(String::as_str).collect();

    let opts = ReachabilityOptions {
        deadline_ms: 0,
        ..unlimited()
    };
    let r = recs_with(&db, &refs, &opts);
    assert_eq!(r.unwalked_files.len(), 7);
    assert!(
        reach_note(&r).contains(
            "not walked: Other0.php, Other1.php, Other2.php, Other3.php, Other4.php and 2 more"
        ),
        "notes: {:?}",
        r.notes
    );
}

#[test]
fn unindexed_input_is_disclosed_and_blocks_the_unmodelled_claim() {
    let db = graph();
    add_test_calling(&db, "tests/RepositoryFindTest.php", &["find"]);
    add_file(&db, "tests/UnrelatedTest.php");

    // src/New.php has a parser but was never indexed: no edges, so no
    // test can be shown to reach it, and nothing can be called
    // unvouched-for.
    let r = recs(&db, &["Repository.php", "src/New.php"]);
    assert_eq!(
        shape(&r),
        vec![("tests/RepositoryFindTest.php", 1, 1, "Repository.php")]
    );
    assert_eq!(r.unindexed_files, files(&["src/New.php"]));
    assert_eq!(r.unsupported_files, no_files());
    assert_eq!(r.unwalked_files, no_files());
    assert_eq!(r.partial_files, no_files());
    assert!(r.reach_walk_capped);
    let note = reach_note(&r);
    assert!(note.contains("not indexed: src/New.php"), "{note}");
    assert!(!note.contains("indexed test files have"), "{note}");
}

#[test]
fn unsupported_input_is_skipped_without_capping_the_answer() {
    let db = graph();
    add_test_calling(&db, "tests/RepositoryFindTest.php", &["find"]);
    add_file(&db, "tests/UnrelatedTest.php");

    // CHANGELOG.md has no parser: it is never in the index, and that
    // says nothing about the walk over Repository.php.
    let r = recs(&db, &["CHANGELOG.md", "Repository.php"]);
    assert_eq!(r.unsupported_files, files(&["CHANGELOG.md"]));
    assert_eq!(r.unindexed_files, no_files());
    assert!(!r.reach_walk_capped);
    assert_eq!(
        shape(&r),
        vec![("tests/RepositoryFindTest.php", 1, 1, "Repository.php")]
    );
    let note = reach_note(&r);
    assert!(
        note.contains("1 of 2 indexed test files have no resolved edge"),
        "{note}"
    );
    assert!(
        r.notes
            .iter()
            .any(|n| n.contains("1 file(s) skipped, no parser for their type: CHANGELOG.md")),
        "notes: {:?}",
        r.notes
    );
}

#[test]
fn indexed_input_without_symbols_is_disclosed_without_a_reindex_remedy() {
    let db = graph();
    add_test_calling(&db, "tests/RepositoryFindTest.php", &["find"]);
    add_file(&db, "tests/UnrelatedTest.php");
    add_file(&db, "src/Empty.php");

    let r = recs(&db, &["Repository.php", "src/Empty.php"]);
    assert_eq!(r.no_symbol_files, files(&["src/Empty.php"]));
    assert_eq!(r.unindexed_files, no_files());
    assert_eq!(r.partial_files, no_files());
    assert!(r.reach_walk_capped);
    let note = reach_note(&r);
    assert!(note.contains("no symbols indexed: src/Empty.php"), "{note}");
    assert!(!note.contains("not indexed:"), "{note}");
    assert!(!note.contains("indexed test files have"), "{note}");
}

#[test]
fn a_list_of_only_new_test_files_is_still_disclosed() {
    let db = graph();

    // The index holds no test files, so the walk is skipped — but the
    // caller still learns that its one input is unknown to the index. A
    // changed test is walked like any input, so one the index has not
    // seen caps the answer like any unindexed input; it is still the
    // recommendation.
    let r = recs(&db, &["tests/NewTest.php"]);
    assert_eq!(r.primary, files(&["tests/NewTest.php"]));
    assert_eq!(r.indexed_test_files, 0);
    assert_eq!(r.unindexed_files, files(&["tests/NewTest.php"]));
    assert!(r.reach_walk_capped);
    assert!(
        r.notes.iter().any(|n| n.contains("contains no test files")),
        "notes: {:?}",
        r.notes
    );
    assert!(
        r.notes
            .iter()
            .any(|n| n == "1 changed file(s) are tests themselves; listed in `primary`"),
        "notes: {:?}",
        r.notes
    );
    let note = reach_note(&r);
    assert!(note.contains("not indexed: tests/NewTest.php"), "{note}");
    assert!(!note.contains("not yet indexed"), "{note}");
}

#[test]
fn changed_base_test_class_reaches_its_subclasses() {
    let db = graph();
    add_file(&db, "tests/TestCase.php");
    add_symbols(&db, &[symbol("TestCase", "tests/TestCase.php")]);
    add_test_calling(&db, "tests/Unit/AlphaTest.php", &["TestCase"]);
    add_test_calling(&db, "tests/Unit/BetaTest.php", &["TestCase"]);

    let r = recs(&db, &["tests/TestCase.php"]);
    assert_eq!(r.primary, files(&["tests/TestCase.php"]));
    assert_eq!(
        shape(&r),
        vec![
            ("tests/Unit/AlphaTest.php", 1, 1, "tests/TestCase.php"),
            ("tests/Unit/BetaTest.php", 1, 1, "tests/TestCase.php"),
        ]
    );
    assert_eq!(r.reachable_total, 2);
    assert!(!r.reach_walk_capped, "{:?}", r.notes);
    assert_eq!(r.unindexed_files, no_files());
    assert_eq!(r.no_symbol_files, no_files());
    assert_eq!(r.indexed_test_files, 3);
    assert_eq!(r.unmodelled, 0);
    assert!(
        reach_note(&r).contains("2 reachable test file(s)"),
        "notes: {:?}",
        r.notes
    );
}

#[test]
fn changed_tests_draw_from_the_pool_in_request_order() {
    let db = graph_with_hop_tests();
    add_file(&db, "tests/TestCase.php");
    add_symbols(&db, &[symbol("TestCase", "tests/TestCase.php")]);
    add_test_calling(&db, "tests/Unit/AlphaTest.php", &["TestCase"]);

    // Repository.php costs 3 steps, TestCase.php costs 1 (one caller
    // file, unique name). A pool of 3 with a floor of 3 lets the first
    // input spend everything; the changed test after it finds the pool
    // empty and lands in `unwalked_files` like any later input.
    let opts = ReachabilityOptions {
        work_budget: 3,
        min_input_budget: 3,
        ..unlimited()
    };
    let r = recs_with(&db, &["Repository.php", "tests/TestCase.php"], &opts);
    assert_eq!(r.primary, files(&["tests/TestCase.php"]));
    assert_eq!(
        shape(&r),
        vec![
            ("tests/RepositoryFindTest.php", 1, 1, "Repository.php"),
            ("tests/ServiceRunTest.php", 2, 1, "Repository.php"),
        ]
    );
    assert_eq!(r.partial_files, no_files());
    assert_eq!(r.unwalked_files, files(&["tests/TestCase.php"]));
    assert!(r.reach_walk_capped);

    // In the other order the changed test spends 1, and Repository.php
    // gets the remaining 2: enough for `find` (2 caller files), not for
    // `run` behind it.
    let r = recs_with(&db, &["tests/TestCase.php", "Repository.php"], &opts);
    assert_eq!(
        shape(&r),
        vec![
            ("tests/RepositoryFindTest.php", 1, 1, "Repository.php"),
            ("tests/Unit/AlphaTest.php", 1, 1, "tests/TestCase.php"),
        ]
    );
    assert_eq!(r.unwalked_files, no_files());
    assert_eq!(r.partial_files, files(&["Repository.php"]));
    assert!(r.reach_walk_capped);
}

#[test]
fn skipped_inputs_are_reported_as_the_caller_wrote_them() {
    let db = graph();
    add_test_calling(&db, "tests/RepositoryFindTest.php", &["find"]);
    let opts = ReachabilityOptions {
        project_root: Some("/proj".to_string()),
        ..unlimited()
    };

    // `/proj/..` normalizes to `..`, which no caller would recognise;
    // `./src/New.php` is looked up as `src/New.php` but named as given.
    let r = recs_with(
        &db,
        &["/proj/..", "./src/New.php", "./Repository.php"],
        &opts,
    );
    assert_eq!(r.unsupported_files, files(&["/proj/.."]));
    assert_eq!(r.unindexed_files, files(&["./src/New.php"]));
    assert_eq!(
        shape(&r),
        vec![("tests/RepositoryFindTest.php", 1, 1, "Repository.php")]
    );
    let note = reach_note(&r);
    assert!(note.contains("not indexed: ./src/New.php"), "{note}");
    assert!(
        r.notes
            .iter()
            .any(|n| n.contains("no parser for their type: /proj/..")),
        "notes: {:?}",
        r.notes
    );
}

#[test]
fn blank_input_is_ignored_and_never_called_the_project_root() {
    let db = graph();
    add_test_calling(&db, "tests/RepositoryFindTest.php", &["find"]);

    let r = recs(&db, &["", "  ", "Repository.php"]);
    assert_eq!(
        shape(&r),
        vec![("tests/RepositoryFindTest.php", 1, 1, "Repository.php")]
    );
    assert_eq!(r.unsupported_files, no_files());
    assert_eq!(r.unindexed_files, no_files());
    assert!(!r.reach_walk_capped);
    assert!(
        r.notes.iter().any(|n| n == "2 empty input(s) ignored"),
        "notes: {:?}",
        r.notes
    );
    assert!(
        !r.notes.iter().any(|n| n.contains("project root")),
        "notes: {:?}",
        r.notes
    );
}

#[test]
fn a_request_of_only_ignored_inputs_returns_just_that_note() {
    let db = graph();
    add_test_calling(&db, "tests/RepositoryFindTest.php", &["find"]);
    let opts = ReachabilityOptions {
        project_root: Some("/proj".to_string()),
        ..unlimited()
    };

    for (inputs, expected) in [
        (
            vec!["./"],
            vec!["1 input(s) ignored: the project root names no file"],
        ),
        (vec![""], vec!["1 empty input(s) ignored"]),
        (
            vec!["", ".", "/proj/"],
            vec![
                "1 empty input(s) ignored",
                "2 input(s) ignored: the project root names no file",
            ],
        ),
    ] {
        let r = recs_with(&db, &inputs, &opts);
        assert_eq!(r.notes, files(&expected), "{inputs:?}");
        assert!(r.primary.is_empty(), "{inputs:?}");
        assert!(r.reachable.is_empty(), "{inputs:?}");
        assert_eq!(r.reachable_total, 0, "{inputs:?}");
        assert!(!r.reach_walk_capped, "{inputs:?}");
        assert_eq!(r.unmodelled, 0, "{inputs:?}");
        assert_eq!(r.indexed_test_files, 0, "{inputs:?}");
    }
}

#[test]
fn test_shaped_data_files_are_unsupported_not_tests() {
    let db = graph();
    add_test_calling(&db, "tests/RepositoryFindTest.php", &["find"]);
    add_file(&db, "tests/UnrelatedTest.php");

    // `tests/` in the path does not make a JSON fixture a test to run,
    // and its absence from the index says nothing about the walk.
    let r = recs(
        &db,
        &[
            "tests/Integration/Translation/lang/en.json",
            "Repository.php",
        ],
    );
    assert_eq!(
        r.unsupported_files,
        files(&["tests/Integration/Translation/lang/en.json"])
    );
    assert_eq!(r.primary, no_files());
    assert_eq!(r.unindexed_files, no_files());
    assert!(!r.reach_walk_capped);
    assert!(
        reach_note(&r).contains("1 of 2 indexed test files have no resolved edge"),
        "notes: {:?}",
        r.notes
    );
    assert!(
        !r.notes.iter().any(|n| n.contains("tests themselves")),
        "notes: {:?}",
        r.notes
    );
}

#[test]
fn phpt_is_a_runnable_test_without_a_grammar() {
    let db = graph();
    add_file(&db, "ext/foo/tests/bar.phpt");

    // Indexed or not, a `.phpt` has no grammar: nothing to walk, and
    // its absence from the index is permanent, not pending.
    for db in [&db, &graph()] {
        let r = recs(db, &["ext/foo/tests/bar.phpt", "Repository.php"]);
        assert_eq!(r.primary, files(&["ext/foo/tests/bar.phpt"]));
        assert_eq!(r.unsupported_files, no_files());
        assert_eq!(r.unindexed_files, no_files());
        assert_eq!(r.unwalked_files, no_files());
        assert_eq!(r.no_symbol_files, no_files());
        assert!(!r.reach_walk_capped, "{:?}", r.notes);
        assert!(
            r.notes.iter().any(|n| n
                == "1 changed file(s) are tests themselves; listed in `primary` \
                    (not parsed by the indexer: ext/foo/tests/bar.phpt)"),
            "notes: {:?}",
            r.notes
        );
    }
}

#[test]
fn the_project_root_itself_is_dropped_with_a_note() {
    let db = graph();
    add_test_calling(&db, "tests/RepositoryFindTest.php", &["find"]);
    let opts = ReachabilityOptions {
        project_root: Some("/proj".to_string()),
        ..unlimited()
    };

    for root_form in ["./", ".", "/proj", "/proj/"] {
        let r = recs_with(&db, &[root_form, "Repository.php"], &opts);
        assert_eq!(r.unsupported_files, no_files(), "{root_form}");
        assert_eq!(r.unindexed_files, no_files(), "{root_form}");
        assert!(!r.reach_walk_capped, "{root_form}");
        assert_eq!(
            shape(&r),
            vec![("tests/RepositoryFindTest.php", 1, 1, "Repository.php")],
            "{root_form}"
        );
        assert!(
            r.notes
                .iter()
                .any(|n| n.contains("1 input(s) ignored: the project root names no file")),
            "{root_form}: {:?}",
            r.notes
        );
    }
}

#[test]
fn root_with_trailing_slash_and_subdirectory_root_behave_as_documented() {
    let db = graph();
    add_test_calling(&db, "tests/RepositoryFindTest.php", &["find"]);

    // Trailing slash on the root is irrelevant.
    let slashed = ReachabilityOptions {
        project_root: Some("/proj/".to_string()),
        ..unlimited()
    };
    let r = recs_with(&db, &["/proj/Repository.php"], &slashed);
    assert_eq!(
        shape(&r),
        vec![("tests/RepositoryFindTest.php", 1, 1, "Repository.php")]
    );
    assert!(!r.reach_walk_capped);

    // A root that is a subdirectory of the index root cannot relativize
    // an absolute path outside it; the path stays absolute and is
    // reported as unindexed. The MCP layer resolves the true root
    // before calling, so this only reaches a caller that passed the
    // wrong root directly.
    let subdir = ReachabilityOptions {
        project_root: Some("/proj/src".to_string()),
        ..unlimited()
    };
    let r = recs_with(&db, &["/proj/Repository.php"], &subdir);
    assert_eq!(r.unindexed_files, files(&["/proj/Repository.php"]));
    assert!(r.reach_walk_capped);
    assert!(r.reachable.is_empty());
}

#[test]
fn capped_walk_never_emits_the_add_tests_absence_note() {
    let db = graph();
    add_file(&db, "tests/UnrelatedTest.php");

    // A zero budget means an empty pool: the input is never walked.
    let opts = ReachabilityOptions {
        work_budget: 0,
        ..unlimited()
    };
    let r = recs_with(&db, &["Repository.php"], &opts);
    assert!(r.primary.is_empty() && r.coupled.is_empty() && r.reachable.is_empty());
    assert!(r.reach_walk_capped);
    assert_eq!(r.unwalked_files, files(&["Repository.php"]));
    assert_eq!(r.partial_files, no_files());
    assert!(
        !r.notes.iter().any(|n| n.contains("no test files found")),
        "an incomplete search must not claim absence: {:?}",
        r.notes
    );
    assert!(
        r.notes.iter().any(|n| n.contains("lower bound")),
        "notes: {:?}",
        r.notes
    );
}

#[test]
fn unmodelled_counts_indexed_tests_with_no_edge_into_the_changed_set() {
    let db = graph();
    add_test_calling(&db, "tests/RepositoryFindTest.php", &["find"]);
    add_file(&db, "tests/UnrelatedTest.php");
    add_file(&db, "tests/OtherTest.php");
    add_file(&db, "Helper.php");

    let r = recs(&db, &["Repository.php"]);
    assert_eq!(r.reachable.len(), 1);
    assert_eq!(r.unmodelled, 2);
    assert_eq!(r.indexed_test_files, 3);
    assert!(
        reach_note(&r).contains("2 of 3 indexed test files have no resolved edge"),
        "notes: {:?}",
        r.notes
    );
}

#[test]
fn index_without_test_files_skips_the_walk_and_blames_the_index() {
    let db = graph();
    let opts = ReachabilityOptions {
        work_budget: 0,
        ..unlimited()
    };
    // A zero budget would cap any walk that ran; none runs.
    let r = recs_with(&db, &["Repository.php"], &opts);
    assert_eq!(r.indexed_test_files, 0);
    assert!(!r.reach_walk_capped);
    assert_eq!(r.unwalked_files, no_files());
    assert_eq!(r.partial_files, no_files());
    assert!(
        r.notes.iter().any(|n| n
            .contains("the index contains no test files (check `[index] exclude_patterns`)")),
        "notes: {:?}",
        r.notes
    );
    assert!(
        !r.notes
            .iter()
            .any(|n| n.contains("add tests for these files")),
        "absence advice is misdirected when the index has no tests: {:?}",
        r.notes
    );
}

#[test]
fn c_sibling_counts_as_an_indexed_test_even_though_classify_says_source() {
    let db = Index::default();
    add_file(&db, "src/foo.c");
    add_symbols(&db, &[symbol("foo", "src/foo.c")]);
    add_file(&db, "src/foo_test.c");
    assert_eq!(
        classify("src/foo_test.c"),
        FileCategory::Source,
        "premise: the category rule does not know the C affix"
    );

    let r = recs(&db, &["src/foo.c"]);
    assert_eq!(r.primary, files(&["src/foo_test.c"]));
    assert_eq!(r.indexed_test_files, 1);
    assert_eq!(r.unmodelled, 0);
    assert!(!r.reach_walk_capped, "{:?}", r.notes);
    assert!(
        r.notes.iter().any(|n| n.contains("1 sibling test file(s)")),
        "notes: {:?}",
        r.notes
    );
    assert!(
        !r.notes.iter().any(|n| n.contains("contains no test files")),
        "a resolved sibling contradicts 'no test files': {:?}",
        r.notes
    );
}

#[test]
fn fixture_paths_are_neither_primary_nor_counted() {
    let db = graph();
    add_test_calling(&db, "tests/RepositoryFindTest.php", &["find"]);
    add_file(&db, "crates/parser/tests/fixtures/sample.php");
    add_file(&db, "tests/fixtures/other.php");

    let r = recs(
        &db,
        &["Repository.php", "crates/parser/tests/fixtures/sample.php"],
    );
    assert!(r.primary.is_empty(), "primary: {:?}", r.primary);
    assert!(
        !r.notes.iter().any(|n| n.contains("tests themselves")),
        "notes: {:?}",
        r.notes
    );
    // Neither fixture counts toward the denominator. The fixture input is
    // an ordinary indexed file to the walk, and it defines nothing.
    assert_eq!(r.indexed_test_files, 1);
    assert_eq!(r.unmodelled, 0);
    assert_eq!(
        r.no_symbol_files,
        files(&["crates/parser/tests/fixtures/sample.php"])
    );
}

#[test]
fn withheld_phpt_siblings_are_vouched_not_unmodelled() {
    let db = Index::default();
    add_file(&db, "ext/foo/foo.c");
    for i in 0..(PHPT_LIST_CAP + 1) {
        add_file(&db, &format!("ext/foo/tests/case{i:03}.phpt"));
    }
    add_file(&db, "ext/bar/tests/other.phpt");

    let r = recs(&db, &["ext/foo/foo.c"]);
    assert!(r.primary.is_empty(), "primary: {:?}", r.primary);
    assert_eq!(r.indexed_test_files, PHPT_LIST_CAP + 2);
    assert_eq!(r.unmodelled, 1);
    assert!(
        r.notes.iter().any(|n| n.contains("holds more than")),
        "notes: {:?}",
        r.notes
    );
}

#[test]
fn changed_test_file_lands_in_primary_and_nowhere_else() {
    let db = graph();
    add_test_calling(&db, "tests/RepositoryFindTest.php", &["find"]);
    add_symbols(&db, &[symbol("RepositoryFindTest", "tests/RepositoryFindTest.php")]);

    // The changed test is walked like any input: its class is reached
    // by nothing, which is a complete answer, and it never lists itself.
    let r = recs(&db, &["Repository.php", "tests/RepositoryFindTest.php"]);
    assert_eq!(r.primary, files(&["tests/RepositoryFindTest.php"]));
    assert!(r.reachable.is_empty(), "reachable: {:?}", r.reachable);
    assert!(!r.reach_walk_capped, "{:?}", r.notes);
    assert_eq!(r.no_symbol_files, no_files());
    assert_eq!(r.unmodelled, 0);
    assert_eq!(r.indexed_test_files, 1);
    assert!(
        r.notes
            .iter()
            .any(|n| n.contains("1 changed file(s) are tests themselves")),
        "notes: {:?}",
        r.notes
    );
    assert!(
        !r.notes.iter().any(|n| n.contains("sibling test file(s)")),
        "changed tests are not sibling matches: {:?}",
        r.notes
    );
}

#[test]
fn a_request_of_only_unsupported_inputs_emits_just_the_skip_note() {
    let db = graph();
    add_test_calling(&db, "tests/RepositoryFindTest.php", &["find"]);
    add_file(&db, "tests/UnrelatedTest.php");

    // Nothing was walked and nothing could have been: no absence advice,
    // no unmodelled count, no cap. The two indexed tests are not
    // "not vouched for"; they were never asked about.
    let r = recs(&db, &["CHANGELOG.md", "composer.json"]);
    assert_eq!(
        r.notes,
        files(&["2 file(s) skipped, no parser for their type: CHANGELOG.md, composer.json"])
    );
    assert_eq!(
        r.unsupported_files,
        files(&["CHANGELOG.md", "composer.json"])
    );
    assert!(r.primary.is_empty() && r.coupled.is_empty() && r.reachable.is_empty());
    assert!(!r.reach_walk_capped);
    assert_eq!(r.unmodelled, 0);
    assert_eq!(r.indexed_test_files, 0);

    // An unindexed input alongside keeps the lower-bound disclosure: its
    // absence from the index is a finding about the walk, not a skip.
    let r = recs(&db, &["CHANGELOG.md", "src/New.php"]);
    assert_eq!(r.unindexed_files, files(&["src/New.php"]));
    assert!(r.reach_walk_capped);
    assert!(
        reach_note(&r).contains("not indexed: src/New.php"),
        "notes: {:?}",
        r.notes
    );
}

#[test]
fn two_spellings_of_one_path_are_one_input() {
    let db = graph();
    add_test_calling(&db, "tests/RepositoryFindTest.php", &["find"]);

    // Budget 3 covers exactly one walk of Repository.php; a second walk
    // would find the pool empty and land in `unwalked_files`.
    let opts = ReachabilityOptions {
        work_budget: 3,
        min_input_budget: 3,
        ..unlimited()
    };
    let r = recs_with(&db, &["./Repository.php", "Repository.php"], &opts);
    assert_eq!(
        shape(&r),
        vec![("tests/RepositoryFindTest.php", 1, 1, "Repository.php")]
    );
    assert!(!r.reach_walk_capped, "{:?}", r.notes);
    assert_eq!(r.unwalked_files, no_files());
    assert!(
        r.notes
            .iter()
            .any(|n| n == "1 duplicate input(s) ignored: another spelling of the same path"),
        "notes: {:?}",
        r.notes
    );

    // The first spelling is the one reported; a duplicate is listed once.
    let r = recs_with(&db, &["./src/New.php", "src/New.php"], &opts);
    assert_eq!(r.unindexed_files, files(&["./src/New.php"]));
}

#[test]
fn a_changed_test_without_symbols_is_walked_and_disclosed_as_no_symbol() {
    let db = graph();
    add_test_calling(&db, "tests/RepositoryFindTest.php", &["find"]);
    add_file(&db, "tests/EmptyTest.php");

    // The chosen trade-off: an indexed test that defines nothing is
    // still listed in `primary` (it is runnable), but its walk has no
    // seed, so it lands in `no_symbol_files` and caps the answer like
    // any other symbol-free input. Nothing can be said about what
    // extends or calls it.
    let r = recs(&db, &["tests/EmptyTest.php"]);
    assert_eq!(r.primary, files(&["tests/EmptyTest.php"]));
    assert_eq!(r.no_symbol_files, files(&["tests/EmptyTest.php"]));
    assert!(r.reach_walk_capped);
    assert_eq!(r.unwalked_files, no_files());
    assert_eq!(r.partial_files, no_files());
    assert_eq!(r.unindexed_files, no_files());
    assert!(r.reachable.is_empty());
    assert!(
        reach_note(&r).contains("lower bound (no symbols indexed: tests/EmptyTest.php)"),
        "notes: {:?}",
        r.notes
    );
}

#[test]
fn defaults_come_from_constants_and_env_overrides_parse() {
    let d = ReachabilityOptions::default();
    assert_eq!(d.depth, 2);
    assert_eq!(d.list_cap, 50);
    assert_eq!(d.min_input_budget, REACH_MIN_INPUT_BUDGET_DEFAULT);
    assert!(d.project_root.is_none());
    let o = ReachabilityOptions::with_overrides(Some("7"), Some("x"));
    assert_eq!(o.work_budget, 7);
    assert_eq!(o.deadline_ms, d.deadline_ms);
}

#[test]
fn shares_are_bounded_by_the_pool_and_the_floor() {
    assert_eq!(input_share(10, 3, 2), 4);
    assert_eq!(input_share(10, 4, 5), 4);
    assert_eq!(input_share(2, 3, 0), 2);
    assert_eq!(input_share(0, 3, 4), 0);
    assert_eq!(settle(10, 4, 1), 7);
    assert_eq!(settle(10, 4, 4), 10);
}

fn setup_project() -> Index {
    let db = Index::default();
    add_file(&db, "Repository.php");
    add_symbols(&db, &[symbol("Repository", "Repository.php"), symbol("find", "Repository.php")]);
    for (file, class, method) in
        [("Controller.php", "Controller", "show"), ("Service.php", "Service", "run")]
    {
        add_file(&db, file);
        add_symbols(&db, &[symbol(class, file), Symbol { line_start: 5, line_end: 5, ..symbol(method, file) }]);
        db.references.borrow_mut().push(call(file, Some(method), "find", 5));
    }
    db
}

#[test]
fn walk_reports_frontier_cap_and_keeps_shallow_entries() {
    let db = setup_project();
    let (out, _) = file_walk(&db, "Repository.php", 2, 1, None, false);
    assert!(out.capped, "two depth-1 callers with a frontier cap of 1 must report capped");
    let files: Vec<&str> = out.entries.iter().map(|e| e.file_path.as_str()).collect();
    assert!(files.contains(&"Controller.php"), "entries: {files:?}");
    assert!(files.contains(&"Service.php"), "entries: {files:?}");
}

#[test]
fn walk_reports_no_cap_under_the_default_frontier() {
    let db = setup_project();
    let (out, _) = file_walk(&db, "Repository.php", 2, MAX_FRONTIER, None, false);
    assert!(!out.capped, "two callers must not trip the default cap");
    assert_eq!(out.entries.len(), 2, "entries: {:?}", out.entries);
}

#[test]
fn report_discloses_that_counts_are_a_floor() {
    let db = setup_project();
    let (out, _) = file_walk(&db, "Repository.php", 2, MAX_FRONTIER, None, false);
    let opts = ImpactOptions {
        include_forward: false,
        include_siblings: true,
        limit: Some(1),
        summary_only: false,
    };
    let report = impact_analysis_report(
        out.entries,
        &opts,
        None,
        &files(&["Repository.php"]),
        &vec![],
        &db.symbols_in("Repository.php"),
    );
    assert!(report.counts_floor, "report: {report:?}");
    assert_eq!(report.results.len(), 1);
    assert!(report.truncated);
    assert_eq!(report.sibling_symbols.len(), 2);
    assert_eq!(
        collect_sibling_symbols(&db.symbols_in("Repository.php"), Some("find")).len(),
        1
    );
    assert_eq!(
        impact_target_files(&db.symbols_in("Repository.php")),
        files(&["Repository.php"])
    );
}

#[test]
fn a_summary_counts_by_distance_and_by_category() {
    let db = graph_with_hop_tests();
    let (out, _) = file_walk(&db, "Repository.php", 2, MAX_FRONTIER, None, false);
    let summary = build_impact_summary(&out.entries);
    assert_eq!(summary.total_affected, 3);
    let at: Vec<(u32, usize)> = summary.by_distance.iter().map(|d| (d.distance, d.count)).collect();
    assert_eq!(at, vec![(1, 2), (2, 1)]);
    assert!(summary.by_category.iter().any(|c| c.category == FileCategory::Test && c.count == 2));
}

#[test]
fn walk_on_file_with_no_symbols_is_empty_and_uncapped() {
    let db = setup_project();
    let (out, _) = file_walk(&db, "no-symbols.yaml", 2, MAX_FRONTIER, None, false);
    assert!(out.entries.is_empty());
    assert!(!out.capped);
    assert_eq!(out.seed_count, 0);
}

#[test]
fn file_only_walk_discloses_budget_and_frontier_limits() {
    let db = Index::default();
    for path in ["api.js", "a.js", "b.js", "outer.js"] {
        add_file(&db, path);
    }
    for (from, to) in
        [("a.js", "./api"), ("b.js", "./api"), ("outer.js", "./a"), ("outer.js", "./b")]
    {
        db.references.borrow_mut().push(Reference {
            kind: ReferenceKind::Import,
            ..call(from, None, to, 1)
        });
    }
    let (complete, _) = file_walk(&db, "api.js", 2, MAX_FRONTIER, None, false);
    assert!(!complete.capped);
    assert_eq!(complete.entries.len(), 3);
    assert_eq!(complete.seed_count, 1);
    let (limited, _) = file_walk(&db, "api.js", 2, 1, None, false);
    assert!(limited.capped);
    assert_eq!(limited.entries.iter().filter(|entry| entry.distance == 1).count(), 2);
    let (limited, _) =
        file_walk(&db, "api.js", 2, MAX_FRONTIER, Some(WalkBudget::new(1)), false);
    assert!(limited.capped);
    assert!(limited.entries.is_empty());
}

#[test]
fn budgeted_walk_that_skips_nothing_matches_the_unbudgeted_walk() {
    let db = setup_project();
    let (plain, _) = file_walk(&db, "Repository.php", 2, MAX_FRONTIER, None, false);
    let budget = Some(WalkBudget::new(usize::MAX));
    let (out, _) = file_walk(&db, "Repository.php", 2, MAX_FRONTIER, budget, false);
    assert!(!plain.capped);
    assert!(!out.capped, "unlimited budget must not cap");
    assert_eq!(format!("{:?}", plain.entries), format!("{:?}", out.entries));
    assert_eq!(out.edge_counts.len(), plain.entries.len());
    for entry in &plain.entries {
        let edges = out.edge_counts.iter().find(|e| e.path == entry.file_path).unwrap();
        assert_eq!(edges.count as usize, entry.reasons.len());
    }
}

#[test]
fn a_walk_on_a_spent_budget_is_refused_and_looks_nothing_up() {
    let mut spent = WalkBudget::new(0);
    let out = refuse_walk(&mut spent, false).unwrap();
    assert!(out.capped && out.entries.is_empty() && out.edge_counts.is_empty());
    assert_eq!(out.seed_count, 0);
    assert_eq!(spent, WalkBudget::new(0));
    let mut late = WalkBudget::new(5);
    assert!(refuse_walk(&mut late, true).is_some());
    assert!(late.exhausted && late.deadline_hit);
    let mut fresh = WalkBudget::new(5);
    assert!(refuse_walk(&mut fresh, false).is_none());
    assert_eq!(fresh, WalkBudget::new(5));

    let db = setup_project();
    for seeds in [Vec::new(), db.symbols_in("Repository.php")] {
        let walk = Walk::for_file("Repository.php", true, seeds, 2, MAX_FRONTIER);
        let mut run = WalkRun::begin(walk, Some(WalkBudget::new(0)), 0);
        assert_eq!(run.next(false), Ask::Over);
        let out = finish(run.walk, &Vec::new(), false);
        assert!(out.capped && out.entries.is_empty() && out.edge_counts.is_empty());
        assert_eq!(out.seed_count, 0);
    }
}

#[test]
fn budgeted_walk_reports_deadline_and_zero_budget_as_capped() {
    let db = setup_project();
    let (out, _) =
        file_walk(&db, "Repository.php", 2, MAX_FRONTIER, Some(WalkBudget::new(0)), false);
    assert!(out.capped);
    assert!(out.entries.is_empty());
    let late = Some(WalkBudget::new(usize::MAX));
    let (out, late) = file_walk(&db, "Repository.php", 2, MAX_FRONTIER, late, true);
    assert!(out.capped);
    let mut late = late.unwrap();
    assert!(late.deadline_hit);
    late.reset(usize::MAX);
    assert!(late.exhausted, "a passed deadline survives reset");
}

#[test]
fn a_deadline_that_passes_under_way_caps_the_walk() {
    let db = graph_with_hop_tests();
    let walk = Walk::for_file(
        "Repository.php",
        true,
        db.symbols_in("Repository.php"),
        2,
        MAX_FRONTIER,
    );
    let (out, budget) = walk_through(&db, walk, Some(WalkBudget::new(100)), true);
    assert!(out.capped);
    assert!(out.entries.is_empty());
    assert!(budget.unwrap().exhausted);
}

fn setup_project_with_uneven_costs() -> Index {
    let db = setup_project();
    add_symbols(&db, &[symbol("save", "Repository.php")]);
    add_file(&db, "Job.php");
    add_symbols(&db, &[symbol("go", "Job.php")]);
    db.references.borrow_mut().push(call("Job.php", Some("go"), "save", 5));
    db.references.borrow_mut().push(call("Job.php", Some("go"), "find", 6));
    db
}

fn cost(db: &Index, name: &str) -> usize {
    let mut callers: Vec<String> =
        db.references_to(name).into_iter().map(|r| r.from_file).collect();
    callers.sort();
    callers.dedup();
    resolution_cost(callers.len(), db.symbols_named(name).len())
}

#[test]
fn budgeted_walk_with_uneven_costs_still_matches_the_unbudgeted_walk() {
    let db = setup_project_with_uneven_costs();
    assert!(cost(&db, "save") < cost(&db, "find"), "the symbols must be priced unevenly");
    let (plain, _) = file_walk(&db, "Repository.php", 2, MAX_FRONTIER, None, false);
    let budget = Some(WalkBudget::new(usize::MAX));
    let (out, _) = file_walk(&db, "Repository.php", 2, MAX_FRONTIER, budget, false);
    assert!(!plain.capped && !out.capped);
    assert_eq!(plain.entries.len(), 3, "entries: {:?}", plain.entries);
    assert_eq!(format!("{:?}", plain.entries), format!("{:?}", out.entries));
}

/// A walk that looks in a cache first.
fn shared_walk(
    db: &Index,
    frontier: usize,
    budget: Option<WalkBudget>,
    passed: bool,
    shared: &mut Shared,
) -> (WalkOutcome, Option<WalkBudget>) {
    let mut budget = budget;
    if let Some(b) = &mut budget {
        if let Some(refused) = refuse_walk(b, passed) {
            return (refused, budget);
        }
    }
    let path = "Repository.php";
    let walk = Walk::for_file(path, db.has(path), db.symbols_in(path), 2, frontier);
    walk_with(db, walk, budget, passed, Some(shared))
}

fn assert_same_walk(left: &WalkOutcome, right: &WalkOutcome) {
    assert_eq!(format!("{:?}", left.entries), format!("{:?}", right.entries));
    assert_eq!(left.capped, right.capped);
    assert_eq!(left.seed_count, right.seed_count);
    assert_eq!(format!("{:?}", left.edge_counts), format!("{:?}", right.edge_counts));
}

#[test]
fn shared_reverse_edges_preserve_frontiers_and_budget_admission() {
    let db = setup_project_with_uneven_costs();
    let mut warm = Shared::new(100);
    for frontier in [1, MAX_FRONTIER, 8192] {
        let (plain, _) = file_walk(&db, "Repository.php", 2, frontier, None, false);
        let (shared, _) = shared_walk(&db, frontier, None, false, &mut warm);
        assert_same_walk(&plain, &shared);
        for steps in [0, 1, 3, 10, usize::MAX] {
            let budget = Some(WalkBudget::new(steps));
            let (plain, left) = file_walk(&db, "Repository.php", 2, frontier, budget, false);
            let (shared, right) = shared_walk(&db, frontier, budget, false, &mut warm);
            assert_same_walk(&plain, &shared);
            assert_eq!(left.unwrap().remaining, right.unwrap().remaining);
            assert_eq!(left.unwrap().exhausted, right.unwrap().exhausted);
        }
    }
    assert!(warm.hits > 0, "the walks must actually reuse resolved edges");
    assert!(warm.import_hits > 0, "the walks must actually reuse matched imports");
    let before = (warm.hits, warm.import_hits);
    let late = Some(WalkBudget::new(usize::MAX));
    let (expired, _) = shared_walk(&db, 8192, late, true, &mut warm);
    assert!(expired.capped);
    assert!(expired.entries.is_empty());
    assert_eq!((warm.hits, warm.import_hits), before, "a warm cache cannot bypass an expired deadline");
    let mut full = Shared::new(100);
    assert!(full.cache.remember_caller_imports("full", vec![], MAX_CACHED_BYTES));
    let (plain, _) = file_walk(&db, "Repository.php", 2, 8192, None, false);
    let (uncached, _) = shared_walk(&db, 8192, None, false, &mut full);
    assert_same_walk(&plain, &uncached);
    assert_eq!(full.cache.references.len(), 0);
    assert_eq!(full.cache.import_matches.len(), 0);
}

fn import(from_file: &str, to_name: &str, line: u32) -> Reference {
    Reference { kind: ReferenceKind::Import, ..call(from_file, None, to_name, line) }
}

/// Asks for the import rows of one file until it is matched; gives the stretches
/// that were asked for, and what may be remembered.
fn match_one_file(
    run: &mut WalkRun,
    rows: &Vec<Reference>,
    known: Option<Vec<usize>>,
) -> (Vec<(usize, usize)>, Option<Vec<usize>>) {
    let mut known = known;
    let mut stretches = vec![];
    loop {
        match run.next(false) {
            Ask::Nothing => {},
            Ask::Remembered(0) => run.take_remembered(known.take()),
            Ask::Imports(0, from, to) => {
                stretches.push((from, to));
                run.take_imports(rows);
            },
            Ask::Matched(0) => return (stretches, Some(run.take_matches())),
            Ask::Definitions | Ask::Over => return (stretches, None),
            other => panic!("{other:?}"),
        }
    }
}

#[test]
fn remembered_import_rows_are_recorded_without_matching_all_rows_again() {
    let mut rows: Vec<Reference> = (0..600).map(|i| import("noise.ts", "./elsewhere", i)).collect();
    rows[3] = import("near.ts", "./base", 1);
    rows[500] = import("far.ts", "./base", 1);
    let walk = || Walk::for_file("base.ts", true, vec![], 2, MAX_FRONTIER);
    let budget = || Some(WalkBudget::new(1000));
    let mut cold = WalkRun::begin(walk(), budget(), rows.len());
    let (stretches, found) = match_one_file(&mut cold, &rows, None);
    assert_eq!(stretches, [(0, POLL_STRIDE), (POLL_STRIDE, 2 * POLL_STRIDE), (512, 600)]);
    assert_eq!(found, Some(vec![3, 500]));
    let mut warm = WalkRun::begin(walk(), budget(), rows.len());
    let (stretches, again) = match_one_file(&mut warm, &rows, found);
    assert_eq!(stretches, [(0, 2)]);
    assert_eq!(again, None, "what was remembered is not handed out again");
    assert_eq!(cold.budget.unwrap().remaining, 400);
    assert_eq!(warm.budget.unwrap().remaining, 400, "a remembered file costs as much");
    assert_eq!(format!("{:?}", cold.walk.reached), format!("{:?}", warm.walk.reached));
    assert_eq!(format!("{:?}", cold.walk.pending), format!("{:?}", warm.walk.pending));
    let reached: Vec<&str> = warm.walk.reached.iter().map(|r| r.path.as_str()).collect();
    assert_eq!(reached, ["near.ts", "far.ts"]);
    assert_eq!((cold.walk.seed_count, warm.walk.seed_count), (1, 1));
}

#[test]
fn a_file_that_no_row_names_is_remembered_too() {
    let rows = vec![import("noise.ts", "./elsewhere", 1)];
    let mut run =
        WalkRun::begin(Walk::for_file("base.ts", true, vec![], 2, MAX_FRONTIER), None, rows.len());
    let (stretches, found) = match_one_file(&mut run, &rows, None);
    assert_eq!((stretches, found), (vec![(0, 1)], Some(vec![])));
    let mut shared = Shared::new(0);
    shared.keep_imports("base.ts", vec![]);
    assert_eq!(shared.recall_imports("base.ts"), Some(vec![]));
    assert_eq!(shared.cache.room.bytes, "base.ts".len());
    assert!(shared.cache.import_matches.get(&file_key("base.ts")).is_some());
}

#[test]
fn edge_count_dedupes_reasons_beyond_the_ten_kept() {
    let db = Index::default();
    add_file(&db, "Repository.php");
    let names: Vec<String> = (1..=15).map(|i| format!("op{i:02}")).collect();
    for n in &names {
        add_symbols(&db, &[symbol(n, "Repository.php")]);
    }
    add_file(&db, "Caller.php");
    for (i, n) in names.iter().enumerate() {
        db.references.borrow_mut().push(call("Caller.php", None, n, 10 + i as u32));
    }
    for (i, n) in names.iter().enumerate().take(5) {
        let row = call("Caller.php", None, n, 10 + i as u32);
        db.references.borrow_mut().push(Reference { col: 8, ..row });
    }
    let (out, _) = file_walk(&db, "Repository.php", 2, MAX_FRONTIER, None, false);
    assert_eq!(out.entries.len(), 1);
    assert_eq!(out.entries[0].file_path, "Caller.php");
    assert_eq!(out.entries[0].reasons.len(), 10, "wire projection stays capped");
    assert_eq!(out.edge_counts[0].count, 15, "15 distinct, 5 repeats");
}

#[test]
fn admission_takes_the_cheapest_first_and_stops_at_the_first_that_does_not_fit() {
    let priced = |costs: &[usize]| -> Vec<Priced> {
        costs.iter().enumerate().map(|(index, cost)| Priced { cost: *cost, index }).collect()
    };
    let mut budget = WalkBudget::new(5);
    assert_eq!(admit_cheapest(priced(&[4, 1, 3]), 3, &mut budget), vec![false, true, true]);
    assert_eq!(budget.remaining, 1);
    assert!(budget.exhausted);
    let mut exact = WalkBudget::new(4);
    assert_eq!(admit_cheapest(priced(&[1, 3]), 2, &mut exact), vec![true, true]);
    assert_eq!(exact.remaining, 0);
    assert!(!exact.exhausted, "spending to zero skips nothing");
    assert_eq!(resolution_cost(3, 0), 3);
    assert_eq!(resolution_cost(3, 2), 6);
    assert_eq!(resolution_cost(usize::MAX, 2), usize::MAX);
}

#[test]
fn a_plain_name_with_several_definitions_is_ambiguous() {
    let a = Symbol { qualified_name: "A::f".to_string(), ..symbol("f", "a.rs") };
    let b = Symbol { qualified_name: "B::f".to_string(), ..symbol("f", "b.rs") };
    let error = check_unambiguous("f", &vec![a.clone(), b.clone()]).unwrap_err();
    assert!(error.contains("A::f") && error.contains("B::f"), "{error}");
    assert!(check_unambiguous("A::f", &vec![a.clone(), b]).is_ok());
    assert!(check_unambiguous("f", &vec![a]).is_ok());
    assert!(is_qualified_symbol_name("A::f") && !is_qualified_symbol_name("f"));
}

/// Follows calls from one symbol to another.
fn trace(db: &Index, from: &str, to: &str, max_depth: usize) -> CallPathReport {
    let start = begin(from, to, &db.symbols_named(from), db.symbols_named(to), max_depth);
    let mut search = match start {
        Start::Answer(report) => return report,
        Start::Search(search) => search,
    };
    while let Some(i) = search.next_node() {
        let sym = search.nodes[i].symbol.clone();
        let rows = db.references_from(&sym.file_path);
        let sites = call_sites(&sym, &rows);
        let resolved: Vec<Vec<Symbol>> =
            sites.iter().map(|k| db.resolve(&rows[*k].from_file, &rows[*k].to_name)).collect();
        let found = callees_of(&sym, &rows, &sites, &resolved);
        if let Some(report) = search.expand(i, &found) {
            return report;
        }
    }
    search.give_up(from, to)
}

#[test]
fn not_found_reads_as_floor_over_name_based_edges() {
    let db = Index::default();
    add_symbols(&db, &[symbol("entry", "entry.rs"), symbol("sink", "sink.rs")]);
    let report = trace(&db, "entry", "sink", 6);
    assert!(!report.found);
    assert!(!report.bounded);
    assert!(report.counts_floor);
    let note = report.note.as_deref().expect("unfound path carries a note");
    assert!(note.contains("name-based"), "{note}");
}

#[test]
fn the_shortest_chain_of_calls_is_found() {
    let db = Index::default();
    add_symbols(
        &db,
        &[symbol("a", "a.rs"), symbol("b", "b.rs"), symbol("c", "c.rs"), symbol("d", "d.rs")],
    );
    for (from, sym, to) in
        [("a.rs", "a", "b"), ("b.rs", "b", "c"), ("c.rs", "c", "d"), ("a.rs", "a", "c")]
    {
        db.references.borrow_mut().push(call(from, Some(sym), to, 5));
    }
    let report = trace(&db, "a", "d", 6);
    assert!(report.found);
    let names: Vec<&str> = report.steps.iter().map(|s| s.name.as_str()).collect();
    assert_eq!(names, ["a", "c", "d"]);
    assert_eq!(report.length, 2);
    assert!(report.counts_floor && report.note.is_none());
    let short = trace(&db, "a", "d", 1);
    assert!(!short.found && short.bounded, "{short:?}");
    for (from, to, missing) in [("nowhere", "d", "nowhere"), ("a", "nowhere", "nowhere")] {
        let report = trace(&db, from, to, 6);
        assert!(!report.found && !report.bounded && report.steps.is_empty());
        assert_eq!((report.length, report.counts_floor), (0, true));
        assert_eq!(report.note, Some(format!("symbol '{missing}' not found")));
    }
    let same = trace(&db, "a", "a", 6);
    assert_eq!((same.found, same.length, same.steps.len(), same.counts_floor), (true, 0, 1, true));
    assert!(is_call_edge(ReferenceKind::Call) && !is_call_edge(ReferenceKind::Import));
    assert_eq!(step_of(&symbol("a", "a.rs"), Some(3)).call_line, Some(3));
}

#[test]
fn qualified_symbol_without_exact_refs_does_not_fallback_to_bare_tail() {
    let db = Index::default();
    for path in ["app/repo_controller.py", "app/cache_controller.py"] {
        add_file(&db, path);
        db.references.borrow_mut().push(call(path, None, "find", 5));
    }
    let method = Symbol {
        qualified_name: "Repository.find".to_string(),
        ..symbol("find", "app/models.py")
    };
    let refs = db.rows_for(&method);
    assert!(
        refs.is_empty(),
        "qualified method without exact refs must not fall back to all bare `find` references: {refs:?}"
    );
}
