//! Whether an index is behind the head commit.
use codesage_graph::drift::{
    check_drift, classify, commits_between, drift_log_path, fmt_ts, short, wants_measuring,
    CommitsBetween, DriftKind, DriftReport, FilesBehind,
};
use codesage_graph::drift_compare::{Comparison, Payload, Stage};
use codesage_graph::drift_log::{
    rotate_lines, rotate_log, LogLine, MAX_ROTATED_RECORDS, MAX_ROTATE_BYTES,
};
use codesage_graph::drift_scan::{
    batch_requests, exclusion_texts, indexable, is_object_name, judge, listed_paths, parse_batch_header,
    retain_discoverable, select_candidates, set_aside_unaskable, symlink_paths, Candidate,
    IndexableFilter, IndexedHash, TouchedPath, Verdict,
};
use codesage_graph::globs::PatternSet;

const NOW: i64 = 1_000;

/// A behind-HEAD report whose content comparison has not run yet.
fn behind(commits: Option<u32>) -> DriftReport {
    DriftReport {
        stored_sha: Some("1111111111111111".to_string()),
        head_sha: Some("2222222222222222".to_string()),
        stored_at: Some(0),
        commits_between: commits,
        indexed_files_behind: None,
        indexed_files_behind_sample: Vec::new(),
        indexed_files_behind_bounded: false,
        kind: DriftKind::BehindHead,
    }
}

#[test]
fn short_truncates_hex() {
    assert_eq!(short("0123456789abcdef0123"), "0123456789ab");
}

#[test]
fn short_leaves_non_hex_untouched() {
    assert_eq!(short("not-a-git-repo"), "not-a-git-repo");
}

#[test]
fn drift_report_summary_fresh() {
    let r = DriftReport {
        stored_sha: Some("abcdef123456abcdef".to_string()),
        head_sha: Some("abcdef123456abcdef".to_string()),
        stored_at: Some(0),
        commits_between: None,
        indexed_files_behind: Some(0),
        indexed_files_behind_sample: Vec::new(),
        indexed_files_behind_bounded: false,
        kind: DriftKind::Fresh,
    };
    assert!(r.summary(NOW).contains("fresh"));
    assert!(!r.is_drift());
    assert!(!r.recommends_reindex());
}

#[test]
fn drift_report_summary_behind() {
    let r = behind(Some(3));
    let s = r.summary(NOW);
    assert!(s.contains("3 commits behind"));
    assert!(r.is_drift());
}

#[test]
fn drift_report_behind_pluralizes() {
    assert!(behind(Some(1)).summary(NOW).contains("1 commit behind"));
}

#[test]
fn an_unmeasured_comparison_still_recommends_a_reindex() {
    let r = behind(Some(5));
    assert!(r.recommends_reindex());
    assert!(r.summary(NOW).starts_with("⚠"), "{}", r.summary(NOW));
    assert!(!r.summary(NOW).contains("indexed files affected"));
}

#[test]
fn commits_over_unindexed_paths_do_not_recommend_a_reindex() {
    let mut r = behind(Some(5));
    r.indexed_files_behind = Some(0);
    assert!(!r.recommends_reindex());
    let s = r.summary(NOW);
    assert!(
        s.contains("5 commits behind HEAD, 0 indexed files affected"),
        "{s}"
    );
    assert!(s.contains("index content matches HEAD"), "{s}");
    assert!(!s.contains("⚠"), "{s}");
}

#[test]
fn affected_files_are_counted_sampled_and_warned_about() {
    let mut r = behind(Some(5));
    r.indexed_files_behind = Some(7);
    r.indexed_files_behind_sample = vec![
        "a.rs".into(),
        "b.rs".into(),
        "c.rs".into(),
        "d.rs".into(),
        "e.rs".into(),
    ];
    let s = r.summary(NOW);
    assert!(s.starts_with("⚠"), "{s}");
    assert!(
        s.contains("7 indexed files affected (a.rs, b.rs, c.rs, d.rs, e.rs, …)"),
        "{s}"
    );
    assert!(r.recommends_reindex());
}

#[test]
fn a_bounded_count_reads_as_a_lower_bound() {
    let mut r = behind(Some(5));
    r.indexed_files_behind = Some(2_000);
    r.indexed_files_behind_bounded = true;
    assert!(
        r.summary(NOW).contains("at least 2000 indexed files affected"),
        "{}",
        r.summary(NOW)
    );
}

#[test]
fn drift_report_unrelated_ancestor() {
    let mut r = behind(None);
    r.kind = DriftKind::UnrelatedAncestor;
    assert!(r.summary(NOW).contains("not an ancestor"));
    assert!(r.is_drift());
    assert!(r.recommends_reindex());

    r.indexed_files_behind = Some(0);
    let s = r.summary(NOW);
    assert!(s.contains("not an ancestor"), "{s}");
    assert!(s.contains("0 indexed files affected"), "{s}");
    assert!(!r.recommends_reindex());
}

#[test]
fn a_failed_sha_test_still_recommends_a_reindex_for_a_measured_difference() {
    let mut r = behind(None);
    r.kind = DriftKind::Unknown;
    assert!(!r.recommends_reindex(), "nothing was measured");
    assert_eq!(r.summary(NOW), "drift check failed (see logs)");

    r.indexed_files_behind = Some(0);
    assert!(
        !r.recommends_reindex(),
        "a complete comparison found nothing"
    );
    assert!(!r.summary(NOW).starts_with('⚠'), "{}", r.summary(NOW));

    r.indexed_files_behind = Some(3);
    r.indexed_files_behind_sample = vec!["a.rs".into(), "b.rs".into(), "c.rs".into()];
    assert!(
        r.recommends_reindex(),
        "the envelope reports behind + files_behind: 3"
    );
    let s = r.summary(NOW);
    assert!(s.starts_with('⚠'), "{s}");
    assert!(
        s.contains(
            "drift check failed (see logs); 3 indexed files affected (a.rs, b.rs, c.rs)"
        ),
        "{s}"
    );
}

#[test]
fn a_batch_header_is_parsed_only_from_a_real_object_id() {
    assert_eq!(
        parse_batch_header(&format!("{} blob 12", "a".repeat(40))),
        Some((true, 12))
    );
    assert_eq!(
        parse_batch_header(&format!("{} tree 40", "b".repeat(40))),
        Some((false, 40))
    );
    assert_eq!(parse_batch_header("HEAD:./gone.rs missing"), None);
    // A path that spells a header keeps the stream in sync.
    assert_eq!(parse_batch_header("HEAD:./x blob 12 missing"), None);
}

#[test]
fn a_bounded_zero_count_still_recommends_a_reindex() {
    let mut r = behind(Some(5));
    r.indexed_files_behind = Some(0);
    r.indexed_files_behind_bounded = true;
    assert!(
        r.recommends_reindex(),
        "a comparison that stopped before its first record proved nothing"
    );
    let s = r.summary(NOW);
    assert!(s.starts_with('⚠'), "{s}");
    assert!(
        s.contains("no differing indexed file found before the comparison stopped"),
        "{s}"
    );
    assert!(!s.contains("matches HEAD"), "{s}");
}

#[test]
fn the_indexable_filter_mirrors_discovery_for_a_single_path() {
    let filter = IndexableFilter::from_patterns(
        &vec!["**/vendor/**".to_string(), "generated/**".to_string()],
    );
    assert!(filter.admits("src/new.rs", true));
    assert!(filter.admits("include/api.h", true));
    assert!(!filter.admits("NOTES.md", false), "no parser, never indexed");
    assert!(!filter.admits("Cargo.lock", false));
    assert!(!filter.admits(".hidden/x.rs", true), "hidden component");
    assert!(!filter.admits("src/.cache.rs", true), "hidden leaf");
    assert!(!filter.admits("third_party/vendor/lib.rs", true), "ancestor glob");
    assert!(!filter.admits("generated/out.rs", true), "configured glob");
}

#[test]
fn drift_report_not_git() {
    let r = DriftReport {
        stored_sha: None,
        head_sha: None,
        stored_at: None,
        commits_between: None,
        indexed_files_behind: None,
        indexed_files_behind_sample: Vec::new(),
        indexed_files_behind_bounded: false,
        kind: DriftKind::NotGit,
    };
    assert!(!r.is_drift());
    assert_eq!(r.summary(NOW), "not a git repository");
}

#[test]
fn drift_rotation_retains_valid_tail_of_oversized_invalid_utf8_log() {
    let mut bytes = vec![0xffu8; MAX_ROTATE_BYTES as usize + 1];
    bytes.extend_from_slice(b"\n{\"saved\":true}\n{\"partial\":");
    let start = bytes.len() - MAX_ROTATE_BYTES as usize;
    assert_eq!(rotate_log(&bytes[start..].to_vec(), start > 0), Some(b"{\"saved\":true}\n".to_vec()));
}

#[test]
fn rotation_discards_an_oversized_log_without_reading_it() {
    let bytes = vec![b'x'; (MAX_ROTATE_BYTES + 1) as usize];
    let start = bytes.len() - MAX_ROTATE_BYTES as usize;
    assert_eq!(rotate_log(&bytes[start..].to_vec(), start > 0), Some(Vec::new()));
}

#[test]
fn a_clean_log_needs_no_rotation_and_a_damaged_one_loses_only_its_damage() {
    assert_eq!(rotate_log(&b"{\"a\":1}\n{\"b\":2}\n".to_vec(), false), None);
    assert_eq!(
        rotate_log(&b"{\"a\":1}\nnot json\n{\"b\":2}\n".to_vec(), false),
        Some(b"{\"a\":1}\n{\"b\":2}\n".to_vec())
    );
    let once = rotate_log(&b"x\n{\"a\":1}\n".to_vec(), true).unwrap();
    assert_eq!(rotate_log(&once, false), None);
}

#[test]
fn rotation_keeps_only_the_newest_records() {
    let mut lines: Vec<LogLine> = Vec::new();
    for n in 0..MAX_ROTATED_RECORDS + 2 {
        lines.push(LogLine { bytes: format!("{n}").into_bytes(), json: true });
    }
    lines.push(LogLine { bytes: vec![], json: false });
    let out = rotate_lines(&lines, false).unwrap();
    assert!(out.starts_with(b"2\n3\n"));
    assert!(out.ends_with(format!("{}\n", MAX_ROTATED_RECORDS + 1).as_bytes()));
}

#[test]
fn ages_are_said_in_the_largest_whole_unit() {
    assert_eq!(fmt_ts(1_000, 990), "just now");
    assert_eq!(fmt_ts(1_000, 940), "1 minute ago");
    assert_eq!(fmt_ts(10_000, 2_800), "2 hours ago");
    assert_eq!(fmt_ts(1_000_000, 0), "11 days ago");
    assert_eq!(fmt_ts(0, 5), "in the future? ts=5");
}

#[test]
fn a_drift_is_classed_by_both_commits() {
    let a = Some("a".to_string());
    let b = Some("b".to_string());
    assert_eq!(commits_between(Some(true), &Some(" 3\n".to_string())), CommitsBetween::Count(3));
    assert_eq!(commits_between(Some(true), &Some("x".to_string())), CommitsBetween::Unknown);
    assert_eq!(commits_between(Some(true), &None), CommitsBetween::Unknown);
    assert_eq!(commits_between(Some(false), &None), CommitsBetween::NotAncestor);
    assert_eq!(commits_between(None, &None), CommitsBetween::Unknown);
    let way = CommitsBetween::Count(2);
    assert_eq!(classify(&a, &None, false, way), (DriftKind::NotGit, None));
    assert_eq!(classify(&a, &None, true, way), (DriftKind::NeverIndexed, None));
    assert_eq!(classify(&None, &b, true, way), (DriftKind::NeverIndexed, None));
    assert_eq!(classify(&a, &a, true, way), (DriftKind::Fresh, Some(0)));
    assert_eq!(classify(&a, &b, true, way), (DriftKind::BehindHead, Some(2)));
    assert_eq!(
        classify(&a, &b, true, CommitsBetween::NotAncestor),
        (DriftKind::UnrelatedAncestor, None)
    );
    assert_eq!(classify(&a, &b, true, CommitsBetween::Unknown), (DriftKind::Unknown, None));
    assert!(wants_measuring(DriftKind::BehindHead));
    assert!(!wants_measuring(DriftKind::NotGit));
}

#[test]
fn a_report_takes_what_was_measured() {
    let mut behind = FilesBehind::none();
    for n in 0..7 {
        behind.record(&format!("{n}.rs"));
    }
    assert_eq!(behind.count, 7);
    assert_eq!(behind.sample.len(), 5);
    let r = check_drift(
        Some(("a".to_string(), 7)),
        Some("b".to_string()),
        true,
        CommitsBetween::Count(2),
        Some(behind),
    );
    assert_eq!(r.kind, DriftKind::BehindHead);
    assert_eq!(r.stored_at, Some(7));
    assert_eq!(r.commits_between, Some(2));
    assert_eq!(r.indexed_files_behind, Some(7));
    assert!(r.recommends_reindex());
    assert!(r.summary(NOW).starts_with('⚠'));
}

#[test]
fn the_drift_log_stands_in_the_project_directory() {
    assert_eq!(drift_log_path("/srv/p", ".codesage"), "/srv/p/.codesage/drift.log");
    assert_eq!(drift_log_path("/srv/p/", ".codesage"), "/srv/p/.codesage/drift.log");
}

#[test]
fn patterns_are_read_by_the_glob_crate() {
    let lenient = PatternSet::lenient(&vec!["a/**".to_string(), "[".to_string()]);
    assert!(lenient.matches("a/b.rs"));
    assert!(!lenient.matches("b/a.rs"));
    assert!(PatternSet::strict(&vec!["a/**".to_string(), "[".to_string()]).is_none());
    let strict = PatternSet::strict(&vec!["*.min.js".to_string()]).unwrap();
    assert!(strict.matches("x.min.js"));
    assert!(!strict.matches("x.js"));
    assert!(!PatternSet::lenient(&vec![]).matches("a"));
    assert!(indexable("src/a.rs", true, false));
    assert!(!indexable("src/a.rs", true, true));
    assert!(!indexable("src/a.rs", false, false));
    assert!(!indexable("src/.a/b.rs", true, false));
}

fn touched(path: &str, admitted: bool) -> TouchedPath {
    TouchedPath { path: path.to_string(), admitted }
}

fn candidate(path: &str, hash: Option<&str>) -> Candidate {
    Candidate { path: path.to_string(), hash: hash.map(|h| h.to_string()) }
}

#[test]
fn candidates_are_the_indexed_and_the_indexable_paths_up_to_a_cap() {
    let indexed = vec![IndexedHash { path: "b.rs".to_string(), hash: "h".to_string() }];
    let list = vec![touched("c.md", false), touched("b.rs", false), touched("a.rs", true)];
    let (all, cut) = select_candidates(&list, &indexed, 10);
    assert_eq!(all.len(), 2);
    assert!(!cut);
    let (one, cut) = select_candidates(&list, &indexed, 1);
    assert_eq!(one.len(), 1);
    assert!(cut);
}

#[test]
fn indexed_candidates_are_never_dropped() {
    let kept = retain_discoverable(
        vec![candidate("a.rs", Some("h")), candidate("b.rs", None), candidate("c.rs", None)],
        &vec!["a.rs".to_string(), "b.rs".to_string()],
        &vec![],
    );
    let paths: Vec<&str> = kept.iter().map(|c| c.path.as_str()).collect();
    assert_eq!(paths, ["a.rs", "c.rs"]);
}

#[test]
fn raw_listings_are_read_by_their_separators() {
    assert_eq!(listed_paths("a.rs\0\0b c.rs\0"), vec!["a.rs".to_string(), "b c.rs".to_string()]);
    assert_eq!(
        symlink_paths("120000 blob x\tlink\0100644 blob y\tfile\0"),
        vec!["link".to_string()]
    );
    assert!(is_object_name(&"a1".repeat(20)));
    assert!(!is_object_name("HEAD"));
}

#[test]
fn a_path_with_a_newline_is_counted_and_not_asked_about() {
    let mut behind = FilesBehind::none();
    let rest = set_aside_unaskable(
        vec![candidate("a\nb.rs", Some("h")), candidate("c.rs", Some("h"))],
        &mut behind,
    );
    assert_eq!(behind.count, 1);
    assert_eq!(batch_requests("HEAD", &rest), "HEAD:./c.rs\n");
}

#[test]
fn a_record_is_judged_by_its_header() {
    let blob = format!("{} blob 12\n", "a".repeat(40));
    assert_eq!(judge(&blob, true, 10), Verdict::Read { size: 12 });
    assert_eq!(judge(&blob, false, 10), Verdict::Skip { affected: false, size: 12 });
    assert_eq!(judge(&blob, false, 12), Verdict::Skip { affected: true, size: 12 });
    assert_eq!(judge("HEAD:./x missing\n", true, 10), Verdict::Absent { affected: true });
    assert_eq!(judge("HEAD:./x missing\n", false, 10), Verdict::Absent { affected: false });
}

fn blob_line(size: u64) -> String {
    format!("{} blob {size}\n", "a".repeat(40))
}

#[test]
fn a_comparison_counts_what_indexing_again_would_change() {
    let mut c = Comparison::begin(
        vec![
            candidate("added.rs", None),
            candidate("gone.rs", Some("h1")),
            candidate("same.rs", Some("h2")),
            candidate("changed.rs", Some("h3")),
            candidate("vanished.rs", None),
            candidate("new\nline.rs", Some("h4")),
        ],
        FilesBehind::none(),
    );
    // A path with a line end cannot be asked for, so it counts.
    assert_eq!(c.behind.count, 1);
    assert_eq!(
        c.requests("HEAD"),
        "HEAD:./added.rs\nHEAD:./gone.rs\nHEAD:./same.rs\nHEAD:./changed.rs\nHEAD:./vanished.rs\n"
    );
    assert!(c.wants_record(false));
    assert_eq!(c.take_header(Some(&blob_line(10)), 100), Payload::Skip(10));
    c.take_skipped(true);
    assert_eq!(c.take_header(Some("HEAD:./gone.rs missing\n"), 100), Payload::Nothing);
    assert_eq!(c.take_header(Some(&blob_line(7)), 100), Payload::Read(7));
    c.take_hash(Some("h2"));
    assert_eq!(c.take_header(Some(&blob_line(7)), 100), Payload::Read(7));
    c.take_hash(Some("h9"));
    assert_eq!(c.take_header(Some("HEAD:./vanished.rs missing\n"), 100), Payload::Nothing);
    assert!(!c.wants_record(false));
    assert_eq!(c.stage, Stage::Over);
    assert_eq!(c.behind.count, 4);
    assert_eq!(c.behind.sample[0], "new\nline.rs");
    assert!(!c.behind.bounded);
}

#[test]
fn a_comparison_that_stops_short_is_bounded() {
    let begin = || Comparison::begin(vec![candidate("a.rs", Some("h")), candidate("b.rs", None)], FilesBehind::none());
    let mut late = begin();
    assert!(!late.wants_record(true));
    assert!(late.behind.bounded);
    assert_eq!(late.stage, Stage::Over);
    let mut silent = begin();
    assert_eq!(silent.take_header(None, 100), Payload::Nothing);
    assert!(silent.behind.bounded);
    let mut unread = begin();
    assert_eq!(unread.take_header(Some(&blob_line(3)), 100), Payload::Read(3));
    unread.take_hash(None);
    assert!(unread.behind.bounded);
    assert_eq!(unread.behind.count, 0);
    // What is too large to compare counts, even where it cannot be passed over.
    let mut large = begin();
    assert_eq!(large.take_header(Some(&blob_line(u64::MAX)), 100), Payload::Skip(u64::MAX));
    large.take_skipped(false);
    assert_eq!(large.behind.count, 1);
    assert!(large.behind.bounded);
    assert!(!large.wants_record(false));
}

/// What a commit carries: paths and their texts.
type Tree<'a> = &'a [(&'a str, &'a str)];

fn text_at<'a>(tree: Tree<'a>, path: &str) -> Option<&'a str> {
    tree.iter().find(|f| f.0 == path).map(|f| f.1)
}

/// Measures an index of `indexed` files of `base` against `head`. A text is
/// its own hash, and only Rust files have a parser.
fn measure(base: Tree, head: Tree, indexed: &[&str], max: usize, passed: bool) -> FilesBehind {
    let filter = IndexableFilter::from_patterns(&vec![]);
    let mut paths: Vec<&str> = base.iter().chain(head).map(|f| f.0).collect();
    paths.sort();
    paths.dedup();
    let list: Vec<TouchedPath> = paths
        .into_iter()
        .filter(|p| text_at(base, p) != text_at(head, p))
        .map(|p| touched(p, filter.admits(p, p.ends_with(".rs"))))
        .collect();
    let hashes: Vec<IndexedHash> = indexed
        .iter()
        .map(|p| IndexedHash { path: p.to_string(), hash: text_at(base, p).unwrap().to_string() })
        .collect();
    let (candidates, bounded) = select_candidates(&list, &hashes, max);
    let mut c = Comparison::begin(candidates, FilesBehind { bounded, ..FilesBehind::none() });
    while c.wants_record(passed) {
        let found = text_at(head, &c.candidates[c.at].path);
        let line = match found {
            Some(text) => blob_line(text.len() as u64),
            None => "HEAD:./x missing\n".to_string(),
        };
        match c.take_header(Some(&line), 1 << 20) {
            Payload::Nothing => {},
            Payload::Skip(_) => c.take_skipped(true),
            Payload::Read(_) => c.take_hash(found),
        }
    }
    c.behind
}

const EVERY: usize = codesage_graph::drift::MAX_DRIFT_CANDIDATES;

#[test]
fn an_added_source_file_counts_and_an_added_unsupported_file_does_not() {
    let out = measure(
        &[("src/a.rs", "fn a() {}\n")],
        &[("src/a.rs", "fn a() {}\n"), ("src/new.rs", "fn new() {}\n"), ("NOTES.md", "# notes\n")],
        &["src/a.rs"],
        EVERY,
        false,
    );
    assert_eq!(out.count, 1, "{out:?}");
    assert_eq!(out.sample, vec!["src/new.rs"]);
    assert!(!out.bounded);
}

#[test]
fn a_never_indexed_path_deleted_at_head_does_not_count() {
    let out = measure(
        &[("src/a.rs", "fn a() {}\n"), ("src/skipped.rs", "fn s() {}\n")],
        &[("src/a.rs", "fn a() {}\n")],
        &["src/a.rs"],
        EVERY,
        false,
    );
    assert_eq!(out.count, 0, "{out:?}");
}

fn two_changed_indexed_files(max: usize, passed: bool) -> FilesBehind {
    measure(
        &[("src/a.rs", "fn a() {}\n"), ("src/b.rs", "fn b() {}\n")],
        &[("src/a.rs", "fn a2() {}\n"), ("src/b.rs", "fn b2() {}\n")],
        &["src/a.rs", "src/b.rs"],
        max,
        passed,
    )
}

#[test]
fn the_candidate_cap_reports_a_lower_bound() {
    let capped = two_changed_indexed_files(1, false);
    assert_eq!(capped.count, 1);
    assert!(capped.bounded, "a truncated candidate set is a lower bound");
    let full = two_changed_indexed_files(EVERY, false);
    assert_eq!(full.count, 2);
    assert!(!full.bounded);
    assert_eq!(full.sample, vec!["src/a.rs", "src/b.rs"]);
}

#[test]
fn an_exhausted_time_budget_reports_a_lower_bound() {
    let out = two_changed_indexed_files(EVERY, true);
    assert!(out.bounded, "a stopped comparison must disclose itself");
    assert!(out.count < 2, "no path was compared: {out:?}");
}

#[test]
fn a_reverted_file_is_not_behind_even_though_git_saw_two_commits() {
    let out = measure(
        &[("src/a.rs", "fn a() {}\n")],
        &[("src/a.rs", "fn a() {}\n")],
        &["src/a.rs"],
        EVERY,
        false,
    );
    assert_eq!(out.count, 0, "HEAD content matches the indexed content");
    assert!(!out.bounded);
}

#[test]
fn a_non_hex_stored_sha_never_reaches_git() {
    assert!(!is_object_name("--output=/tmp/pwned"));
    assert!(!is_object_name("HEAD~1"));
}

#[test]
fn unborn_head_repo_is_not_classified_notgit() {
    let report = check_drift(None, None, true, CommitsBetween::Unknown, None);
    assert_eq!(report.kind, DriftKind::NeverIndexed);
    assert!(!report.is_drift());
    assert_ne!(report.kind, DriftKind::NotGit);
}

#[test]
fn non_repo_dir_is_classified_notgit() {
    let report = check_drift(None, None, false, CommitsBetween::Unknown, None);
    assert_eq!(report.kind, DriftKind::NotGit);
}

#[test]
fn a_path_and_the_directories_above_it_are_matched() {
    assert_eq!(
        exclusion_texts("a/b/c.rs"),
        ["a/b/c.rs", "a", "a/", "a/_", "a/b", "a/b/", "a/b/_"]
    );
    assert_eq!(exclusion_texts("c.rs"), ["c.rs"]);
    let filter = IndexableFilter::from_patterns(&vec!["**/b/**".to_string()]);
    assert!(!filter.admits("a/b/c.rs", true));
    assert!(filter.admits("a/c.rs", true));
}
