//! Briefs before an edit, and passes of the structural index.
use codesage_graph::brief::{
    build_edit_brief, stem_names_source, strip_one_test_affix, test_names_source, BriefHistory,
};
use codesage_graph::index::{
    batches, dedupe_refs, plan_index, populate_from_symbol, purged_paths, BatchWrite, FileRow,
    IndexStats, IndexStrategy, ParsedFile, WriteAction,
};
use codesage_graph::model::{Notes, Reference, ReferenceKind, Symbol};
use codesage_graph::symbols::innermost;
use codesage_graph::text::{decimal_of, parse_up_to};

#[test]
fn only_tests_named_after_the_source_count_as_siblings() {
    for (test, src) in [
        ("tests/RepositoryTest.php", "app/Repository.php"),
        ("src/foo.test.ts", "src/foo.ts"),
        ("tests/test_parser.py", "app/parser.py"),
        ("pkg/server_test.go", "pkg/server.go"),
    ] {
        assert!(test_names_source(test, src), "{test} should match {src}");
    }

    for test in [
        "crates/graph/tests/impact_test.rs",
        "crates/graph/tests/risk_test.rs",
    ] {
        assert!(
            !test_names_source(test, "crates/graph/src/search.rs"),
            "{test} must not read as a sibling of search.rs"
        );
    }

    assert!(!test_names_source("tests/db_helper_test.rs", "src/db.rs"));

    assert!(!test_names_source(
        "tests/test_superuser_auth.py",
        "app/user.py"
    ));
    assert!(test_names_source("tests/user_test.py", "app/user.py"));
}

#[test]
fn dedupe_refs_collapses_rows_sharing_the_unique_key() {
    let r = |to_name: &str, kind, line, col| Reference {
        from_file: "a.c".to_string(),
        from_symbol: None,
        to_name: to_name.to_string(),
        kind,
        line,
        col,
    };
    let mut refs = vec![
        r("foo", ReferenceKind::Call, 3, 4),
        r("foo", ReferenceKind::Call, 3, 4),
        r("foo", ReferenceKind::Call, 3, 9),
        r("foo", ReferenceKind::Import, 3, 4),
    ];

    dedupe_refs(&mut refs);

    assert_eq!(refs.len(), 3, "{refs:?}");
    assert_eq!(refs[0].col, 4);
    assert_eq!(refs[1].col, 9);
    assert_eq!(refs[2].kind, ReferenceKind::Import);
}

#[test]
fn one_test_marker_is_taken_off() {
    assert_eq!(strip_one_test_affix("test_user"), Some("user"));
    assert_eq!(strip_one_test_affix("user_test"), Some("user"));
    assert_eq!(strip_one_test_affix("user-spec"), Some("user"));
    assert_eq!(strip_one_test_affix("usertests"), Some("user"));
    assert_eq!(strip_one_test_affix("user"), None);
    assert!(stem_names_source("test_user", "user"));
    assert!(stem_names_source("user", "user"));
    assert!(!stem_names_source("test_user_test", "user"));
    assert!(!stem_names_source("db", "db"), "a short stem names nothing");
    assert!(test_names_source("tests/USERTest.php", "app/User.php"));
}

#[test]
fn a_brief_says_only_what_it_knows() {
    let none: Vec<String> = vec![];
    let empty = build_edit_brief("src/user.rs", None, none.clone(), &none, &None, &None);
    assert!(empty.empty && !empty.stale && !empty.hotspot);
    let history = BriefHistory { fix_count: 2, commits: 5, churn_notable: true };
    let coupled: Vec<String> = (0..7).map(|i| format!("c{i}.rs")).collect();
    let tests: Vec<String> = (0..7)
        .map(|i| format!("t{i}/user_test.rs"))
        .chain(["tests/other_test.rs".to_string()])
        .collect();
    let full = build_edit_brief(
        "src/user.rs",
        Some(history),
        coupled,
        &tests,
        &Some("a".to_string()),
        &Some("b".to_string()),
    );
    assert_eq!(full.coupled.len(), 5);
    assert_eq!(full.tests.len(), 5);
    assert!(full.stale && full.hotspot && !full.empty);
    assert_eq!((full.fix_count, full.commits), (Some(2), Some(5)));
    let few = BriefHistory { commits: 4, ..history };
    let quiet = build_edit_brief(
        "src/user.rs",
        Some(few),
        none.clone(),
        &vec!["tests/other_test.rs".to_string()],
        &Some("a".to_string()),
        &Some("a".to_string()),
    );
    assert!(!quiet.hotspot && quiet.empty && !quiet.stale);
}

fn def(name: &str, start: u32, end: u32) -> Symbol {
    Symbol {
        name: name.to_string(),
        qualified_name: format!("m::{name}"),
        kind: "function".to_string(),
        file_path: "a.rs".to_string(),
        line_start: start,
        line_end: end,
        col_start: 0,
        col_end: 0,
        rationale: Notes::End,
    }
}

#[test]
fn a_reference_belongs_to_the_innermost_definition() {
    let mut refs = vec![
        Reference {
            from_file: "a.rs".to_string(),
            from_symbol: None,
            to_name: "f".to_string(),
            kind: ReferenceKind::Call,
            line: 5,
            col: 1,
        },
        Reference {
            from_file: "a.rs".to_string(),
            from_symbol: Some("kept".to_string()),
            to_name: "g".to_string(),
            kind: ReferenceKind::Call,
            line: 99,
            col: 1,
        },
    ];
    populate_from_symbol(&vec![def("outer", 1, 20), def("inner", 4, 6)], &mut refs);
    assert_eq!(refs[0].from_symbol.as_deref(), Some("m::inner"));
    assert_eq!(refs[1].from_symbol.as_deref(), Some("kept"));
}

fn row(path: &str, hash: &str) -> FileRow {
    FileRow { path: path.to_string(), content_hash: hash.to_string() }
}

#[test]
fn a_pass_reads_what_changed_and_drops_what_is_gone() {
    let files = vec![row("a.rs", "1"), row("b.rs", "2"), row("c.rs", "3")];
    let existing = vec!["gone.rs".to_string(), "a.rs".to_string(), "b.rs".to_string()];
    let stored = vec![row("a.rs", "1"), row("b.rs", "old"), row("gone.rs", "9")];
    let plan = plan_index(&files, &existing, &stored, IndexStrategy::Incremental);
    assert_eq!(plan.orphans, vec!["gone.rs".to_string()]);
    assert_eq!(plan.to_parse, vec![1, 2]);
    assert_eq!(plan.skipped, 1);
    let full = plan_index(&files, &existing, &stored, IndexStrategy::Full);
    assert_eq!(full.to_parse, vec![0, 1, 2]);
    assert_eq!(full.skipped, 0);
}

#[test]
fn batches_hold_every_file_in_order() {
    let all: Vec<usize> = (0..120).collect();
    let parts = batches(&all);
    assert_eq!(parts.iter().map(|p| p.len()).collect::<Vec<usize>>(), vec![50, 50, 20]);
    assert_eq!(parts.concat(), all);
    assert!(batches(&vec![]).is_empty());
    assert_eq!(batches(&(0..50).collect()).len(), 1);
}

fn parsed(path: &str, symbols: usize, references: usize, degraded: bool) -> ParsedFile {
    ParsedFile { path: path.to_string(), symbols, references, degraded }
}

#[test]
fn write_fallback_fails_the_offending_file_and_commits_the_rest() {
    let mut w = BatchWrite::begin(
        vec![parsed("a.c", 1, 2, false), parsed("b.c", 2, 0, false)],
        IndexStats::none(),
    );
    assert_eq!(w.action, WriteAction::Batch);
    w.batch_failed();
    assert_eq!(w.action, WriteAction::One(0));
    w.file_written();
    assert_eq!(w.action, WriteAction::One(1));
    assert_eq!(w.file_rejected(true), None);
    assert_eq!(w.action, WriteAction::Finished);
    assert_eq!(w.stats.files_indexed, 1);
    assert_eq!(w.stats.files_failed, 1);
    assert_eq!(w.stats.failed_paths, vec!["b.c".to_string()]);
    assert_eq!(w.stats.symbols_found, 1);
    assert_eq!(w.stats.references_found, 2);
    assert_eq!(purged_paths(IndexStrategy::Full, &w.stats), vec!["b.c".to_string()]);
    assert!(purged_paths(IndexStrategy::Incremental, &w.stats).is_empty());
}

#[test]
fn non_constraint_write_error_aborts_the_batch_without_failing_files() {
    let mut w = BatchWrite::begin(
        vec![parsed("a.c", 1, 0, false), parsed("b.c", 1, 0, false)],
        IndexStats::none(),
    );
    w.batch_failed();
    let error = w.file_rejected(false).unwrap();
    assert_eq!(error, "writing structural rows for a.c: database error, aborting the pass");
    assert_eq!(w.action, WriteAction::Aborted);
    assert_eq!(w.stats.files_failed, 0);
    assert!(w.stats.failed_paths.is_empty());
    assert_eq!(w.stats.files_indexed, 0);
}

#[test]
fn degraded_parse_is_indexed_and_counted_not_failed() {
    let mut stats = IndexStats::none();
    stats.count_failed("gone.c");
    let mut w = BatchWrite::begin(
        vec![parsed("ext.c", 1, 0, true), parsed("ok.c", 2, 3, false)],
        stats,
    );
    w.batch_written();
    assert_eq!(w.action, WriteAction::Finished);
    assert_eq!(w.stats.files_indexed, 2);
    assert_eq!(w.stats.files_degraded, 1);
    assert_eq!(w.stats.symbols_found, 3);
    assert_eq!(w.stats.failed_paths, vec!["gone.c".to_string()]);
    assert_eq!(BatchWrite::begin(vec![], IndexStats::none()).action, WriteAction::Finished);
}

/// An index in memory: the hash and the symbols of each file.
#[derive(Clone, Default)]
struct Tables {
    files: Vec<(String, String, Vec<String>)>,
    /// Every write fails, through no file's fault.
    broken: bool,
}

/// A file on disk, or one that cannot be read.
struct Source {
    row: FileRow,
    symbols: Option<Vec<String>>,
    degraded: bool,
}

impl Tables {
    fn symbols(&self, path: &str) -> Vec<String> {
        self.files.iter().find(|f| f.0 == path).map_or(vec![], |f| f.2.clone())
    }

    fn has(&self, path: &str) -> bool {
        self.files.iter().any(|f| f.0 == path)
    }

    fn seed(&mut self, row: &FileRow, symbol: &str) {
        self.files.push((row.path.clone(), row.content_hash.clone(), vec![symbol.to_string()]));
    }

    /// Writes a file; its rows must not repeat a key.
    fn write(&mut self, row: &FileRow, symbols: &[String]) -> Result<(), bool> {
        if self.broken {
            return Err(false);
        }
        let mut keys = symbols.to_vec();
        keys.sort();
        keys.dedup();
        if keys.len() < symbols.len() {
            return Err(true);
        }
        self.files.retain(|f| f.0 != row.path);
        self.files.push((row.path.clone(), row.content_hash.clone(), symbols.to_vec()));
        Ok(())
    }
}

fn readable(path: &str, symbols: &[&str]) -> Source {
    Source {
        row: row(path, &symbols.join("+")),
        symbols: Some(symbols.iter().map(|s| s.to_string()).collect()),
        degraded: false,
    }
}

fn unreadable(path: &str) -> Source {
    Source { row: row(path, "gone"), symbols: None, degraded: false }
}

fn index_discovered(
    db: &mut Tables,
    sources: &[Source],
    strategy: IndexStrategy,
) -> Result<IndexStats, String> {
    let files: Vec<FileRow> =
        sources.iter().map(|s| row(&s.row.path, &s.row.content_hash)).collect();
    let existing: Vec<String> = db.files.iter().map(|f| f.0.clone()).collect();
    let stored: Vec<FileRow> = db.files.iter().map(|f| row(&f.0, &f.1)).collect();
    let plan = plan_index(&files, &existing, &stored, strategy);
    db.files.retain(|f| !plan.orphans.contains(&f.0));
    let mut stats = IndexStats::opening(&plan);
    for batch in batches(&plan.to_parse) {
        let mut found: Vec<&Source> = vec![];
        let mut unread: Vec<String> = vec![];
        for i in batch {
            match sources[i].symbols {
                Some(_) => found.push(&sources[i]),
                None => unread.push(files[i].path.clone()),
            }
        }
        stats.count_unread(&unread);
        let lists: Vec<Vec<String>> = found.iter().map(|s| s.symbols.clone().unwrap()).collect();
        let list =
            found.iter().zip(&lists).map(|(s, l)| parsed(&s.row.path, l.len(), 0, s.degraded));
        let mut w = BatchWrite::begin(list.collect(), stats);
        loop {
            match w.action {
                WriteAction::Finished | WriteAction::Aborted => break,
                WriteAction::Batch => {
                    let mut copy = db.clone();
                    let whole = found.iter().zip(&lists).all(|(s, l)| copy.write(&s.row, l).is_ok());
                    if whole {
                        *db = copy;
                        w.batch_written();
                    } else {
                        w.batch_failed();
                    }
                },
                WriteAction::One(i) => match db.write(&found[i].row, &lists[i]) {
                    Ok(()) => w.file_written(),
                    Err(unique) => {
                        if let Some(message) = w.file_rejected(unique) {
                            return Err(message);
                        }
                    },
                },
            }
        }
        stats = w.stats;
    }
    let purged = purged_paths(strategy, &stats);
    db.files.retain(|f| !purged.contains(&f.0));
    assert_eq!(stats.files_indexed + stats.files_failed + stats.files_skipped, files.len());
    Ok(stats)
}

#[test]
fn clean_parse_is_not_counted_as_degraded() {
    let mut db = Tables::default();
    let stats =
        index_discovered(&mut db, &[readable("a.c", &["add"])], IndexStrategy::Full).unwrap();
    assert_eq!(stats.files_degraded, 0, "{stats:?}");
    assert_eq!(stats.files_indexed, 1, "{stats:?}");
}

#[test]
fn failed_file_is_named_and_the_rest_of_the_batch_is_written() {
    let mut db = Tables::default();
    let files = [readable("a.c", &["a"]), unreadable("b.c"), readable("c.c", &["c"])];
    let stats = index_discovered(&mut db, &files, IndexStrategy::Full).unwrap();
    assert_eq!(stats.files_failed, 1, "{stats:?}");
    assert_eq!(stats.failed_paths, vec!["b.c".to_string()], "{stats:?}");
    assert_eq!(stats.files_indexed, 2, "{stats:?}");
    assert_eq!(db.symbols("a.c").len(), 1);
    assert_eq!(db.symbols("c.c").len(), 1);
}

#[test]
fn write_fallback_covers_duplicate_fingerprint_rows() {
    let mut db = Tables::default();
    let files = [readable("b.c", &["dup", "dup"]), readable("a.c", &["a"])];
    let stats = index_discovered(&mut db, &files, IndexStrategy::Incremental).unwrap();
    assert_eq!(stats.files_indexed, 1, "{stats:?}");
    assert_eq!(stats.failed_paths, vec!["b.c".to_string()], "{stats:?}");
    assert_eq!(db.symbols("a.c").len(), 1);
    assert!(!db.has("b.c"));
}

#[test]
fn full_pass_aborts_on_database_fault_and_keeps_existing_rows() {
    let mut db = Tables::default();
    let stale = readable("b.c", &["b"]);
    db.seed(&stale.row, "old_b");
    db.broken = true;
    let error =
        index_discovered(&mut db, &[readable("a.c", &["a"]), stale], IndexStrategy::Full)
            .unwrap_err();
    assert!(error.contains("database error, aborting the pass"), "{error}");
    assert_eq!(
        db.symbols("b.c").len(),
        1,
        "a database fault must abort the pass before the purge, not delete committed rows"
    );
    assert!(db.has("b.c"), "the stored hash survives too");
    assert!(db.symbols("a.c").is_empty());
}

#[test]
fn full_pass_purges_structural_rows_of_a_file_it_cannot_read() {
    let mut db = Tables::default();
    let stale = unreadable("b.c");
    db.seed(&stale.row, "old_b");
    let stats =
        index_discovered(&mut db, &[readable("a.c", &["a"]), stale], IndexStrategy::Full).unwrap();
    assert_eq!(stats.failed_paths, vec!["b.c".to_string()], "{stats:?}");
    assert!(
        db.symbols("b.c").is_empty(),
        "rows this pass could not rewrite must not survive a full pass"
    );
    assert!(
        !db.has("b.c"),
        "the stored hash must go too, so the next incremental pass retries b.c"
    );
    assert_eq!(db.symbols("a.c").len(), 1);
}

#[test]
fn incremental_pass_keeps_structural_rows_of_a_file_it_cannot_read() {
    let mut db = Tables::default();
    let stale = unreadable("b.c");
    db.seed(&stale.row, "old_b");
    // A different hash than the seeded row, so the pass selects b.c.
    let changed = Source { row: row("b.c", "changed"), ..stale };
    let stats = index_discovered(&mut db, &[changed], IndexStrategy::Incremental).unwrap();
    assert_eq!(stats.failed_paths, vec!["b.c".to_string()], "{stats:?}");
    assert_eq!(
        db.symbols("b.c").len(),
        1,
        "an incremental pass never saw the whole table and keeps the old rows"
    );
}

#[test]
fn a_line_inside_a_definition_has_an_innermost_one() {
    let all = vec![def("outer", 1, 20), def("inner", 4, 6), def("other", 30, 31)];
    assert_eq!(innermost(&all, 5), Some(1));
    assert_eq!(innermost(&all, 7), Some(0));
    assert_eq!(innermost(&all, 25), None);
}

#[test]
fn a_written_number_reads_back() {
    for n in [0u64, 7, 10, 4096, u64::MAX] {
        assert_eq!(decimal_of(n), n.to_string());
        assert_eq!(parse_up_to(&decimal_of(n), u64::MAX), Some(n));
    }
    assert_eq!(parse_up_to("4097", 4096), None);
}
