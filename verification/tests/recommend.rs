//! Tests to run for a change, and what makes it risky.
use codesage_graph::history::coupling::{
    days_between, find_coupling_ranked, is_recurring, to_co_change_entry, CoChangeRow, TableFacts,
};
use codesage_graph::history::patch::{
    assess_risk_batch, assess_risk_diff, cluster_by_directory, legend_for,
};
use codesage_graph::history::recommend::abbreviate_paths;
use codesage_graph::history::risk::{
    assess_risk, cycle_break_note, cycle_membership, is_fix_heavy, not_indexed, test_gap_note,
    CycleEdge, CycleEntry, FileHistory, RiskAssessment, RiskSignals, TEST_GAP_NOTE,
};
use codesage_graph::history::risk_diff::{
    files_with, find_cycle_containing_file, find_cycles_touching, pick_max_churn, riskiest,
    Component, Finding,
};
use codesage_graph::history::siblings::{
    is_fixture, is_fixture_lowered, test_sibling_exists, test_sibling_paths,
};
use codesage_graph::history::top_symbols::top_symbols;
use codesage_graph::model::{Notes, Symbol};
use codesage_graph::paths::{normalize_input_path, stem_of};

fn files(names: &[&str]) -> Vec<String> {
    names.iter().map(|n| n.to_string()).collect()
}

#[test]
fn abbreviate_paths_names_five_then_counts() {
    let five = files(&["a", "b", "c", "d", "e"]);
    assert_eq!(abbreviate_paths(&five), "a, b, c, d, e");
    let seven = files(&["a", "b", "c", "d", "e", "f", "g"]);
    assert_eq!(abbreviate_paths(&seven), "a, b, c, d, e and 2 more");
    assert_eq!(abbreviate_paths(&vec![]), "");
}

#[test]
fn fixture_detection_is_segment_anchored_and_case_insensitive() {
    assert!(is_fixture("tests/Fixtures/CapitalTest.php"));
    assert!(is_fixture("tests/Database/stubs/X.php"));
    assert!(is_fixture("fixtures/a.php"));
    assert!(is_fixture("crates/parser/tests/fixtures/sample.php"));
    assert!(is_fixture("tests/__snapshots__/a.test.ts.snap"));
    assert!(is_fixture("pkg/testdata/in.go"));
    assert!(!is_fixture("tests/RepositoryTest.php"));
    assert!(!is_fixture("src/fixturesx/a.php"));
    assert!(!is_fixture("src/myfixtures/a.php"));
}

#[test]
fn normalize_input_path_strips_dot_slash_and_root_prefix() {
    let root = "/proj";
    assert_eq!(normalize_input_path(None, "./src/x.php"), "src/x.php");
    assert_eq!(normalize_input_path(None, "././src/x.php"), "src/x.php");
    assert_eq!(
        normalize_input_path(Some(root), "/proj/src/x.php"),
        "src/x.php"
    );
    // Outside the root or without a root: left alone.
    assert_eq!(
        normalize_input_path(Some(root), "/elsewhere/x.php"),
        "/elsewhere/x.php"
    );
    assert_eq!(
        normalize_input_path(None, "/proj/src/x.php"),
        "/proj/src/x.php"
    );
    assert_eq!(normalize_input_path(None, "src/x.php"), "src/x.php");
    // Repeated separators and `.` components anywhere.
    assert_eq!(normalize_input_path(None, ".//src/x.php"), "src/x.php");
    assert_eq!(normalize_input_path(None, "src/./x.php"), "src/x.php");
    assert_eq!(normalize_input_path(None, "src//x.php"), "src/x.php");
    // Trailing slash on the root is irrelevant.
    assert_eq!(
        normalize_input_path(Some("/proj/"), "/proj/src/x.php"),
        "src/x.php"
    );
    // The root itself, in every spelling, is the empty path.
    assert_eq!(normalize_input_path(Some(root), "/proj"), "");
    assert_eq!(normalize_input_path(Some(root), "/proj/"), "");
    assert_eq!(normalize_input_path(None, "./"), "");
    assert_eq!(normalize_input_path(None, "."), "");
    // Interior `..` is not resolved; the path is left as given.
    assert_eq!(
        normalize_input_path(Some(root), "/proj/src/../x.php"),
        "src/../x.php"
    );
}

#[test]
fn test_gap_note_variants_claim_only_what_ran() {
    let full = test_gap_note(false, false);
    assert_eq!(full, TEST_GAP_NOTE);
    assert!(full.contains("within 2 dependency hops"));

    let capped = test_gap_note(false, true);
    assert!(capped.contains("truncated"), "got {capped:?}");
    assert!(
        !capped.contains("within 2 dependency hops"),
        "a truncated walk must not claim full hop coverage: {capped:?}"
    );

    let no_symbols = test_gap_note(true, false);
    assert!(no_symbols.contains("could not run"), "got {no_symbols:?}");
    assert!(
        !no_symbols.contains("within 2 dependency hops"),
        "a walk that never ran must not claim hop coverage: {no_symbols:?}"
    );
}

fn row(file: &str, count: u32, first: Option<i64>, last: Option<i64>) -> CoChangeRow {
    CoChangeRow {
        file: file.to_string(),
        count,
        windows: 2,
        first_observed_at: first,
        last_observed_at: last,
        is_test: false,
    }
}

#[test]
fn coupling_recurs_when_it_spans_long_enough() {
    let day = 86_400;
    assert_eq!(days_between(Some(0), Some(3 * day + 5)), 3);
    assert_eq!(days_between(None, Some(3 * day)), 0);
    let long = to_co_change_entry(&row("a.rs", 4, Some(0), Some(400 * day)));
    assert!(long.recurring && long.span_known);
    assert_eq!(long.span_days, 400);
    let unknown = to_co_change_entry(&row("a.rs", 4, None, Some(0)));
    assert!(!unknown.recurring && !unknown.span_known);
    assert!(is_recurring(long.span_days) && !is_recurring(0));
    let table = TableFacts { any_recurring: false, any_span_missing: false, history: Some((0, 500 * day)) };
    let report = find_coupling_ranked(&vec![row("a.rs", 4, Some(0), Some(400 * day))], Some(9), table);
    assert!(report.found && report.file_indexed);
    assert_eq!(report.file_commits, 9);
    assert_eq!(report.coupled[0].file, "a.rs");
    let none = find_coupling_ranked(&vec![], None, table);
    assert!(!none.found && !none.file_indexed && none.note.is_some());
}

fn signals(file: &str) -> RiskSignals {
    RiskSignals {
        file: file.to_string(),
        history: Some(FileHistory { total_commits: 10, fix_count: 6 }),
        hotspot_percent: Some(90),
        fix_percent: 60,
        coupled: vec![],
        ranked: vec![],
        dependents: vec![],
        walk_capped: false,
        has_symbols: true,
        has_sibling_test: false,
        cycles: vec![],
        cycle_failed: false,
        cycle_edges: None,
        trust_boundaries: vec![],
        author_note: "author concentration unavailable".to_string(),
    }
}

#[test]
fn capped_walk_emits_lower_bound_and_truncated_gap_notes() {
    let full = assess_risk(&signals("a.rs"));
    assert!(full.found && full.test_gap && full.fix_heavy);
    assert!(full.notes.iter().any(|n| n == TEST_GAP_NOTE), "{:?}", full.notes);
    assert!(!full.gap_check_partial);
    let capped = assess_risk(&RiskSignals { walk_capped: true, ..signals("a.rs") });
    assert!(capped.gap_check_partial);
    assert!(!capped.notes.iter().any(|n| n == TEST_GAP_NOTE));
    assert!(capped.notes.iter().any(|n| n.contains("truncated")), "{:?}", capped.notes);
    let tested = assess_risk(&RiskSignals { has_sibling_test: true, ..signals("a.rs") });
    assert!(!tested.test_gap);
    let unknown = not_indexed("gone.rs");
    assert!(!unknown.found);
    assert!(is_fix_heavy(&Some(FileHistory { total_commits: 10, fix_count: 6 })));
    assert!(!is_fix_heavy(&None));
}

#[test]
fn a_cycle_is_named_by_its_other_files() {
    let cycle = CycleEntry {
        members: files(&["a.rs", "b.rs", "c.rs"]),
        size: 3,
        max_churn_file: Some("b.rs".to_string()),
    };
    let (within, size, others) = cycle_membership(&vec![cycle], "a.rs");
    assert!(within);
    assert_eq!(size, 3);
    assert!(!others.contains(&"a.rs".to_string()) || others.len() == 3);
    assert!(!cycle_membership(&vec![], "a.rs").0);
    let edge = |from: &str, to: &str, rank: u64| CycleEdge {
        from: from.to_string(),
        to: to.to_string(),
        rank,
        positive: true,
        shown: "0.5".to_string(),
    };
    let note = cycle_break_note(&vec![edge("a.rs", "b.rs", 2), edge("b.rs", "a.rs", 1)], 1);
    assert!(note.contains("candidate break point"), "{note}");
    let component = Component {
        files: files(&["a.rs", "b.rs"]),
        churn: vec![Some(1), Some(5)],
    };
    assert_eq!(pick_max_churn(&component).as_deref(), Some("b.rs"));
    let touching = find_cycles_touching(&vec![component], &files(&["a.rs"]));
    assert_eq!(touching.len(), 1);
    assert_eq!(touching[0].max_churn_file.as_deref(), Some("b.rs"));
    assert!(find_cycle_containing_file(&vec![], "a.rs").is_none());
    let even = vec![Component {
        files: files(&["b.rs", "a.rs", "c.rs"]),
        churn: vec![Some(5), Some(5), Some(1)],
    }];
    let single = find_cycle_containing_file(&even, "c.rs").unwrap();
    assert_eq!(single.max_churn_file.as_deref(), Some("a.rs"));
    let touching = find_cycles_touching(&even, &files(&["c.rs"]));
    assert_eq!(touching[0].max_churn_file.as_deref(), Some("b.rs"));
}

#[test]
fn condensing_a_patch_loses_no_file_and_a_legend_reads_back() {
    let risks = |n: usize| -> Vec<RiskAssessment> {
        (0..n)
            .map(|i| {
                let mut r = assess_risk(&signals(&format!("src/f{i:02}.rs")));
                r.rank = i as u64;
                r
            })
            .collect()
    };
    let (kept, condensed) = cluster_by_directory(risks(30), 5);
    let named: usize = condensed.iter().map(|d| d.top_files.len() + d.omitted_files.len()).sum();
    assert_eq!(kept.len() + named, 30);
    let mut all: Vec<String> = kept.iter().map(|f| f.file.clone()).collect();
    for d in &condensed {
        all.extend(d.top_files.iter().map(|f| f.file.clone()));
        all.extend(d.omitted_files.iter().cloned());
    }
    all.sort();
    let patch: Vec<String> = (0..30).map(|i| format!("src/f{i:02}.rs")).collect();
    assert_eq!(all, patch);
    assert_eq!(condensed[0].directory, "src");
    assert_eq!(condensed[0].count, 30);
    let batch = assess_risk_batch(risks(4), false);
    assert!(!batch.legend.is_empty());
    for entry in &batch.legend {
        assert!(batch.files.iter().any(|f| f.notes.contains(&entry.code)));
        assert!(batch.files.iter().all(|f| !f.notes.contains(&entry.note)));
    }
    let lists: Vec<Vec<String>> = risks(2).iter().map(|r| r.notes.clone()).collect();
    assert!(legend_for(&lists).is_empty(), "two files need no legend");
    let diff = assess_risk_diff(risks(2), vec![], false, None);
    assert_eq!(diff.max_risk_file.as_deref(), Some("src/f01.rs"));
    assert_eq!(diff.test_gap_files.len(), 2);
    assert!(!diff.empty_input);
    assert!(assess_risk_diff(vec![], vec![], false, None).empty_input);
    assert_eq!(files_with(&risks(2), Finding::FixHeavy).len(), 2);
    assert_eq!(riskiest(&risks(3)), Some(2));
    assert_eq!(riskiest(&vec![]), None);
}

#[test]
fn the_hottest_definitions_are_named_first() {
    let def = |name: &str, start: u32, end: u32| Symbol {
        name: name.to_string(),
        qualified_name: name.to_string(),
        kind: "function".to_string(),
        file_path: "a.rs".to_string(),
        line_start: start,
        line_end: end,
        col_start: 0,
        col_end: 0,
        rationale: Notes::End,
    };
    let symbols = vec![def("a", 1, 3), def("b", 5, 5), def("a", 9, 9)];
    let top = top_symbols(&symbols, &vec![2, 7, 2], &vec![1, 9, 1], Some(4));
    let names: Vec<&str> = top.iter().map(|t| t.name.as_str()).collect();
    assert_eq!(names, ["b", "a", "a"]);
    assert_eq!(top[0].why, "hot: 1 lines, 7 refs, in 4-file cycle");
    assert_eq!(
        top[1].why,
        "hot: 3 lines, 2 refs (shared across same-named symbols in this file), in 4-file cycle"
    );
    let many: Vec<Symbol> = (0..9).map(|i| def(&format!("s{i}"), i, i)).collect();
    let plain = top_symbols(&many, &vec![0; 9], &vec![0; 9], None);
    assert_eq!(plain.len(), 5);
    assert_eq!(plain[0].why, "hot: 1 lines, 0 refs");
}

#[test]
fn no_file_is_its_own_test() {
    let index = files(&["src/a.rs", "tests/a.rs", "tests/fixtures/b.rs", "lib/foo.py", "lib/test_foo.py"]);
    let (found, withheld) = test_sibling_paths(&index, "src/a.rs");
    assert_eq!(found, files(&["tests/a.rs"]));
    assert!(withheld.is_empty());
    assert_eq!(test_sibling_paths(&index, "lib/foo.py").0, files(&["lib/test_foo.py"]));
    assert!(test_sibling_paths(&index, "tests/a.rs").0.is_empty());
    assert!(test_sibling_exists(&index, "lib/foo.py"));
    assert!(!test_sibling_exists(&index, "lib/bar.py"));
    assert!(is_fixture_lowered("a/testdata/b") && !is_fixture_lowered("a/TESTDATA/b"));
}

#[test]
fn single_file_cycle_matches_batch_scc_members() {
    let components = vec![
        Component { files: files(&["cyc_b.php", "cyc_a.php"]), churn: vec![None, None] },
        Component { files: files(&["lone.php"]), churn: vec![None] },
    ];
    let single = find_cycle_containing_file(&components, "cyc_a.php").expect("cyc_a.php is in a 2-cycle");
    assert_eq!(single.members, vec!["cyc_a.php".to_string(), "cyc_b.php".to_string()]);
    assert_eq!(single.size, 2);

    let batch = find_cycles_touching(&components, &files(&["cyc_a.php", "lone.php"]));
    assert_eq!(batch.len(), 1);
    assert_eq!(batch[0].members, single.members);
    assert_eq!(batch[0].size, single.size);

    assert!(
        find_cycle_containing_file(&components, "lone.php").is_none(),
        "a file outside any cycle reports none"
    );
}

#[test]
fn a_stem_is_that_of_the_last_name_and_empty_without_one() {
    for path in ["a/B.java", "B.tar.gz", ".env", "a/", "a/.", "/", "", ".", "./.", "..", "a/.."] {
        let expected = std::path::Path::new(path).file_stem().and_then(|s| s.to_str()).unwrap_or("");
        assert_eq!(stem_of(path), expected, "{path}");
    }
    assert_eq!(stem_of("."), "");
    assert_eq!(stem_of("a/B.java"), "B");
}
