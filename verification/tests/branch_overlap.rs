//! Work on other branches that touches the same files.
use codesage_graph::branch_overlap::{
    branch_overlap_objection, branch_overlap_summary, incomplete, noise_path, parse_refs,
    quoted_paths, AfterBase, BranchOverlapReport, Next, ReviewSeverity, Scan,
};

#[test]
fn noise_paths_and_display_controls_do_not_become_evidence() {
    for path in [
        "generated/api.rs",
        "nested/LOCALes/messages.json",
        "bundle.min.js",
        "widget.pb.go",
        "module/pom.xml",
        ".github/workflows/ci.yml",
        "changelog.txt",
        "Gemfile.lock",
        "../escape.rs",
        "/outside.rs",
    ] {
        assert!(noise_path(path), "{path}");
    }
    for path in ["src/server.rs", "Makefile", "tests/test_api.py", "app/Repository.php"] {
        assert!(!noise_path(path), "{path}");
    }
    assert_eq!(quoted_paths(&vec!["name\n\t.rs".to_string()]), "\"name\\n\\t.rs\"");
    let odd = vec!["a\"b\\c\r~ !".to_string(), "plain/d.rs".to_string()];
    assert_eq!(quoted_paths(&odd), "\"a\\\"b\\\\c\\r~ !\", \"plain/d.rs\"");
}

#[test]
fn a_plain_path_is_quoted_with_backslashes_where_it_needs_them() {
    let mut text = String::new();
    let mut expected = String::from("\"");
    for c in (' '..='~').filter(|c| *c != '\'').chain(['\t', '\n', '\r']) {
        text.push(c);
        match c {
            '\t' => expected.push_str("\\t"),
            '\n' => expected.push_str("\\n"),
            '\r' => expected.push_str("\\r"),
            '"' | '\\' => expected.extend(['\\', c]),
            _ => expected.push(c),
        }
    }
    expected.push('"');
    assert_eq!(quoted_paths(&vec![text]), expected);
    assert_eq!(quoted_paths(&vec![String::new()]), "\"\"");
}

fn run(refs: &str, files: &[&str], base: &str, diff: &[&str]) -> BranchOverlapReport {
    let files: Vec<String> = files.iter().map(|f| f.to_string()).collect();
    let diff: Vec<String> = diff.iter().map(|f| f.to_string()).collect();
    let mut scan = Scan::begin("head", refs, &files);
    loop {
        match scan.next(false) {
            Next::OutOfTime => unreachable!(),
            Next::Finished => return scan.finish(),
            Next::Passed => {},
            Next::MergeBase(_) => match scan.with_bases(base) {
                AfterBase::Passed => {},
                AfterBase::Diff(found) => scan.with_diff(&found, &diff),
            },
        }
    }
}

fn refs(n: usize) -> String {
    (0..n).map(|i| format!("sha{i}\trefs/heads/sibling-{i}\t\n")).collect()
}

#[test]
fn row_and_file_caps_preserve_totals() {
    let files = ["a.rs", "b.rs", "c.rs", "d.rs", "e.rs", "f.rs"];
    let report = run(&refs(5), &files, "base\n", &files);
    assert!(report.complete, "{report:?}");
    assert_eq!(report.matching_branches, 5);
    assert_eq!(report.branches.len(), 3);
    assert!(report.branches.iter().all(|row| row.files_total == 6 && row.files.len() == 5));
}

/// A repository in memory: `base`, and `current` one commit ahead of it at
/// `head`. Each further branch has its tip, its merge base and its changes.
fn scan_branches(branches: &[(&str, &str, &str, &[&str])], files: &[&str]) -> BranchOverlapReport {
    let mut raw = String::new();
    for (name, sha, _, _) in branches {
        raw.push_str(&format!("{sha}\t{name}\t\n"));
    }
    raw.push_str("head\trefs/heads/current\t\nbase\trefs/heads/base\t\n");
    let files: Vec<String> = files.iter().map(|f| f.to_string()).collect();
    let mut scan = Scan::begin("head", &raw, &files);
    loop {
        match scan.next(false) {
            Next::OutOfTime => unreachable!(),
            Next::Finished => return scan.finish(),
            Next::Passed => {},
            Next::MergeBase(sha) => {
                let found = branches.iter().find(|b| b.1 == sha);
                let base = found.map_or("base", |b| b.2);
                let diff: Vec<String> =
                    found.map_or(vec![], |b| b.3.iter().map(|f| f.to_string()).collect());
                if let AfterBase::Diff(base) = scan.with_bases(&format!("{base}\n")) {
                    scan.with_diff(&base, &diff);
                }
            },
        }
    }
}

#[test]
fn three_dot_excludes_stacked_refs_aliases_and_manifest_noise() {
    let changed = ["shared.rs", "Cargo.toml", "name\nwith-tab\t.rs"];
    let branches: [(&str, &str, &str, &[&str]); 3] = [
        ("refs/heads/stacked", "s2", "head", &["shared.rs"]),
        ("refs/heads/sibling", "s1", "base", &changed),
        ("refs/remotes/origin/sibling", "s1", "base", &changed),
    ];
    let report = scan_branches(
        &branches,
        &["shared.rs", "current.rs", "Cargo.toml", "name\nwith-tab\t.rs"],
    );
    assert!(report.complete, "{report:?}");
    assert_eq!(report.matching_branches, 1);
    assert_eq!(report.scanned_refs, 4);
    assert_eq!(report.total_refs, Some(4));
    assert_eq!(report.branches[0].merge_base, "base");
    assert_eq!(report.branches[0].files, ["name\nwith-tab\t.rs", "shared.rs"]);
    assert!(report.branches[0].basis.contains("three-dot"));
    let manifest = scan_branches(&branches, &["Cargo.toml"]);
    assert_eq!(manifest.matching_branches, 0);
    assert!(branch_overlap_objection(&manifest).is_none());
    let objection = branch_overlap_objection(&scan_branches(&branches, &["shared.rs"])).unwrap();
    assert_eq!(objection.category, "branch-overlap");
}

#[test]
fn newest_fifty_ref_limit_and_timeout_disclose_incomplete_evidence() {
    let names: Vec<String> = (0..60).map(|i| format!("refs/heads/alias-{i:02}")).collect();
    let changed: &[&str] = &["shared.rs"];
    let mut branches: Vec<(&str, &str, &str, &[&str])> =
        names.iter().map(|n| (n.as_str(), "s1", "base", changed)).collect();
    branches.push(("refs/heads/sibling", "s1", "base", changed));
    let report = scan_branches(&branches, &["shared.rs"]);
    assert_eq!(report.scanned_refs, 50);
    assert_eq!(report.total_refs, Some(62));
    assert!(!report.complete);
    assert!(report.note.unwrap().contains("newest 50"));
    let expired = incomplete(BranchOverlapReport::blank(), "time budget exhausted");
    assert_eq!(expired.scanned_refs, 0);
    assert_eq!(expired.total_refs, None);
    assert!(!expired.complete);
    assert!(expired.note.unwrap().contains("budget exhausted"));
}

#[test]
fn noise_and_unrelated_files_make_no_overlap() {
    let report = run(&refs(1), &["Cargo.toml", "x.rs"], "base\n", &["Cargo.toml", "y.rs"]);
    assert_eq!(report.matching_branches, 0);
    assert!(branch_overlap_objection(&report).is_none());
    let stacked = run(&refs(1), &["x.rs"], "head\n", &["x.rs"]);
    assert_eq!(stacked.matching_branches, 0);
}

#[test]
fn an_overlap_is_an_objection_that_names_its_files() {
    let report = run(&refs(1), &["x.rs"], "base\n", &["x.rs"]);
    assert_eq!(report.branches[0].merge_base, "base");
    assert_eq!(report.branches[0].files, vec!["x.rs".to_string()]);
    assert!(report.branches[0].basis.contains("three-dot"));
    let objection = branch_overlap_objection(&report).unwrap();
    assert_eq!(objection.category, "branch-overlap");
    assert_eq!(objection.files, vec!["x.rs".to_string()]);
    assert!(matches!(
        objection.severity,
        ReviewSeverity::Low | ReviewSeverity::Medium | ReviewSeverity::High
    ));
    assert_eq!(
        branch_overlap_summary(&report),
        "Branch overlap: 1 matching branch(es); scanned 1/1 refs (local and remote-tracking refs; same-tip matches counted once; not a liveness check)."
    );
}

#[test]
fn a_scan_that_could_not_run_says_why() {
    let report = incomplete(BranchOverlapReport::blank(), "budget exhausted");
    assert!(!report.complete);
    assert_eq!(report.scanned_refs, 0);
    assert_eq!(report.total_refs, None);
    assert!(report.note.unwrap().contains("budget exhausted"));
}

#[test]
fn a_ref_at_the_head_is_no_sibling() {
    let found = parse_refs("head\trefs/heads/current\t\nabc\trefs/heads/side\t\n", "head");
    assert!(found.iter().any(|r| r.name == "refs/heads/side" && r.sha == "abc"), "{found:?}");
}

#[test]
fn a_scan_runs_out_of_time_only_while_a_ref_is_left() {
    let mut scan = Scan::begin("head", &refs(1), &vec!["a.rs".to_string()]);
    assert!(matches!(scan.next(true), Next::OutOfTime));
    assert_eq!(scan.report.scanned_refs, 0);
    assert!(matches!(scan.next(false), Next::MergeBase(_)));
    assert!(matches!(scan.with_bases("head\n"), AfterBase::Passed));
    assert!(matches!(scan.next(true), Next::Finished));
    assert!(scan.finish().complete);
    let known = BranchOverlapReport::at("head");
    assert_eq!(known.current_commit.as_deref(), Some("head"));
    assert_eq!(known.total_refs, None);
}
