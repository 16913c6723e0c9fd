//! Commits, anchors and what a history counts to.
use codesage_graph::bundle::FeatureFileRole;
use codesage_graph::history::anchor::{
    changed_files, commit_epoch, decay_seconds, feature_touched_since,
    history_predates_wall_clock_window, history_window_cutoff, plan_pass, previous_anchor,
    range_since, FeatureFileRef, HistoryAnchor, HistoryAnchorSource, IndexMode, Pass,
    HISTORY_WINDOW_DAYS,
};
use codesage_graph::history::authors::{
    author_gap_note, author_note, identity_of, normalized_author, qualifying_authors,
    qualifying_places, AuthorEvent,
};
use codesage_graph::history::commits::{
    is_fix_commit, normalize_rename_path, parse_log, soft_skip, Commit, FileChange,
};
use codesage_graph::history::tally::{
    classify, compile_excludes, count_files, count_pairs, count_shown, filter_kept,
    recurrence_window, scan, window_bit, ClassedChange, ClassedCommit, PairStats, Stretch,
    RECURRENCE_RING, RECURRENCE_WINDOW_SECS,
};

const SECONDS_PER_DAY: i64 = 86_400;
const DAY: i64 = SECONDS_PER_DAY;

#[test]
fn git_history_detects_fix_commits() {
    assert!(is_fix_commit("fix: avoid UAF in foo"));
    assert!(is_fix_commit("Fix(parser): off-by-one"));
    assert!(is_fix_commit("Fixes #1234"));
    assert!(is_fix_commit("hotfix: prod outage"));
    assert!(!is_fix_commit("feat: add foo"));
    assert!(!is_fix_commit("refactor parser internals"));
}

#[test]
fn git_history_soft_skip_filters_chores_but_rescues_meaningful() {
    assert!(soft_skip("chore: bump deps"));
    assert!(soft_skip("build: switch to bun"));
    assert!(!soft_skip("chore: migrate from yarn to pnpm"));
    assert!(!soft_skip("chore(refactor): rename internal helpers"));
    assert!(!soft_skip("feat: add foo"));
}

#[test]
fn git_history_rename_normalization() {
    assert_eq!(
        normalize_rename_path("src/{foo.rs => bar.rs}"),
        "src/bar.rs"
    );
    assert_eq!(
        normalize_rename_path("src/{old => new}/inner.rs"),
        "src/new/inner.rs"
    );
    assert_eq!(
        normalize_rename_path("{old/dir => new/dir}/file.rs"),
        "new/dir/file.rs"
    );
    assert_eq!(normalize_rename_path("plain/path.rs"), "plain/path.rs");
}

#[test]
fn git_history_parse_log_handles_basic_format() {
    let raw = "commit\tabc\t1700000000\tfix: x\n10\t2\tsrc/a.rs\n5\t1\tsrc/b.rs\n\
               commit\tdef\t1700001000\tfeat: y\n3\t0\tsrc/c.rs\n-\t-\tbinary.bin\n";
    let commits = parse_log(raw);
    assert_eq!(commits.len(), 2);
    assert_eq!(commits[0].subject, "fix: x");
    assert_eq!(commits[0].changes.len(), 2);
    assert_eq!(commits[1].changes.len(), 1, "binary file skipped");
    assert_eq!(commits[1].changes[0].path, "src/c.rs");
}

#[test]
fn indexer_detects_fix_commits() {
    assert!(is_fix_commit("fix: avoid UAF in foo"));
    assert!(is_fix_commit("Fix(parser): off-by-one"));
    assert!(is_fix_commit("Fixes #1234"));
    assert!(is_fix_commit("hotfix: prod outage"));
    assert!(!is_fix_commit("feat: add foo"));
    assert!(!is_fix_commit("refactor parser internals"));
}

#[test]
fn a_chore_that_only_upgrades_is_skipped() {
    assert!(soft_skip("chore: upgrade serde"));
    assert!(soft_skip("build(deps): upgrade tokio"));
    assert!(!soft_skip("chore: adopt edition 2021"));
    assert!(!soft_skip("build: deprecate the old target"));
}

#[test]
fn indexer_soft_skip_filters_chores_but_rescues_meaningful() {
    assert!(soft_skip("chore: bump deps"));
    assert!(soft_skip("build: switch to bun"));
    assert!(!soft_skip("chore: migrate from yarn to pnpm"));
    assert!(!soft_skip("chore(refactor): rename internal helpers"));
    assert!(!soft_skip("feat: add foo"));
}

#[test]
fn indexer_rename_normalization() {
    assert_eq!(
        normalize_rename_path("src/{foo.rs => bar.rs}"),
        "src/bar.rs"
    );
    assert_eq!(
        normalize_rename_path("src/{old => new}/inner.rs"),
        "src/new/inner.rs"
    );
    assert_eq!(
        normalize_rename_path("{old/dir => new/dir}/file.rs"),
        "new/dir/file.rs"
    );
    assert_eq!(normalize_rename_path("plain/path.rs"), "plain/path.rs");
    assert_eq!(
        normalize_rename_path("src/old.rs => src/new.rs"),
        "src/new.rs"
    );
    assert_eq!(
        normalize_rename_path("src/FOO.rs => src/foo.rs"),
        "src/foo.rs"
    );
    // Degenerate arrows are not renames; leave them untouched.
    assert_eq!(normalize_rename_path(" => src/new.rs"), " => src/new.rs");
    assert_eq!(normalize_rename_path("src/old.rs => "), "src/old.rs => ");
}

#[test]
fn indexer_parse_log_handles_basic_format() {
    let raw = "commit\tabc\t1700000000\tfix: x\n10\t2\tsrc/a.rs\n5\t1\tsrc/b.rs\n\
               commit\tdef\t1700001000\tfeat: y\n3\t0\tsrc/c.rs\n-\t-\tbinary.bin\n";
    let commits = parse_log(raw);
    assert_eq!(commits.len(), 2);
    assert_eq!(commits[0].subject, "fix: x");
    assert_eq!(commits[0].changes.len(), 2);
    assert_eq!(commits[1].changes.len(), 1, "binary file skipped");
    assert_eq!(commits[1].changes[0].path, "src/c.rs");
}

#[test]
fn window_cutoff_measures_back_from_the_anchor_and_clamps_at_the_epoch() {
    let anchor = 1_800_000_000;
    let span = (HISTORY_WINDOW_DAYS * SECONDS_PER_DAY) as i64;
    assert_eq!(history_window_cutoff(anchor), anchor - span);
    assert_eq!(
        HistoryAnchor {
            epoch: anchor,
            source: HistoryAnchorSource::HeadCommit,
        }
        .cutoff(),
        anchor - span
    );
    // A history that starts before 1972 must not hand git a negative second.
    assert_eq!(history_window_cutoff(DAY), 0);
}

#[test]
fn window_stamp_distinguishes_the_two_regimes() {
    let head = HistoryAnchor {
        epoch: 1,
        source: HistoryAnchorSource::HeadCommit,
    };
    let wall = HistoryAnchor {
        epoch: 1,
        source: HistoryAnchorSource::WallClock,
    };
    assert_eq!(head.window_stamp(), "730d@HEAD");
    assert_eq!(wall.window_stamp(), "730d@now");
    assert_ne!(head.window_stamp(), wall.window_stamp());
}

#[test]
fn history_predates_wall_clock_window_names_the_regime_that_matters() {
    let now = 1_800_000_000;
    let span = (HISTORY_WINDOW_DAYS * SECONDS_PER_DAY) as i64;
    assert!(history_predates_wall_clock_window(now - span - DAY, now));
    assert!(!history_predates_wall_clock_window(now - span + DAY, now));
    assert!(!history_predates_wall_clock_window(now, now));
}

fn change(path: &str) -> ClassedChange {
    ClassedChange {
        path: path.to_string(),
        added: 1,
        deleted: 0,
        excluded: false,
        test_like: path.ends_with("Test.php"),
    }
}

fn commit(timestamp: i64, subject: &str, paths: &[&str]) -> ClassedCommit {
    ClassedCommit {
        sha: "abc".to_string(),
        author: "email:a@b.c".to_string(),
        subject: subject.to_string(),
        timestamp,
        changes: paths.iter().map(|p| change(p)).collect(),
    }
}

fn holds(pairs: &[PairStats], a: &str, b: &str) -> bool {
    pairs.iter().any(|p| p.a == a && p.b == b)
}

fn pairs_of(commits: &Vec<ClassedCommit>) -> Vec<PairStats> {
    count_pairs(&scan(commits).pairs)
}

/// Start of the fixed-epoch 90-day window containing `ts`.
fn window_start(ts: i64) -> i64 {
    (ts / RECURRENCE_WINDOW_SECS) * RECURRENCE_WINDOW_SECS
}

/// The (a.rs, b.rs) pair over one two-file commit per timestamp.
fn pair_over_commits(timestamps: &[i64]) -> PairStats {
    let commits: Vec<ClassedCommit> = timestamps
        .iter()
        .map(|ts| commit(*ts, "feat: x", &["a.rs", "b.rs"]))
        .collect();
    pairs_of(&commits).remove(0)
}

#[test]
fn accumulate_keeps_source_test_pair_drops_test_test_pair() {
    let commits = vec![commit(
        1_700_000_000,
        "fix: thing",
        &["Repository.php", "RepositoryTest.php", "AnotherTest.php"],
    )];
    let stretch = scan(&commits);
    let pairs = count_pairs(&stretch.pairs);
    assert!(
        holds(&pairs, "Repository.php", "RepositoryTest.php"),
        "source-test pair must be kept; got pairs: {pairs:?}"
    );
    assert!(
        holds(&pairs, "AnotherTest.php", "Repository.php"),
        "source-test pair must be kept regardless of stem"
    );
    assert!(
        !holds(&pairs, "AnotherTest.php", "RepositoryTest.php"),
        "test-test pair must be skipped"
    );
    let files = count_files(&stretch.touches);
    for name in ["Repository.php", "RepositoryTest.php", "AnotherTest.php"] {
        let f = files.iter().find(|f| f.path == name).unwrap();
        assert_eq!((f.total_commits, f.fix_count), (1, 1));
        assert_eq!(f.last_commit_at, Some(1_700_000_000));
    }
}

#[test]
fn accumulate_keeps_source_source_pairs_when_tests_present() {
    let pairs = pairs_of(
        &vec![commit(
            1_700_000_000,
            "feat: x",
            &["Repository.php", "Service.php", "RepositoryTest.php"],
        )],
    );
    assert!(
        holds(&pairs, "Repository.php", "Service.php"),
        "source-source pair must always be kept"
    );
}

#[test]
fn recurrence_is_one_for_a_single_mass_commit() {
    let ts = 1_750_000_000;
    let pairs = pairs_of(&vec![commit(ts, "feat: sweep", &["a.rs", "b.rs", "c.rs"])]);
    assert_eq!(pairs.len(), 3);
    for stats in &pairs {
        assert_eq!(stats.window_mask, window_bit(ts), "{stats:?}");
        assert_eq!(stats.window_mask.count_ones(), 1);
        assert_eq!(stats.first_observed_at, Some(ts));
        assert_eq!(stats.last_observed_at, Some(ts));
    }
}

#[test]
fn recurrence_is_one_for_a_burst_inside_one_window() {
    let base = window_start(1_750_000_000);
    let stats = pair_over_commits(&[base + DAY, base + 30 * DAY, base + 60 * DAY]);
    assert_eq!(stats.count, 3);
    assert_eq!(stats.window_mask.count_ones(), 1);
    assert_eq!(stats.first_observed_at, Some(base + DAY));
    assert_eq!(stats.last_observed_at, Some(base + 60 * DAY));
}

#[test]
fn recurrence_counts_distinct_ninety_day_windows() {
    let t = 1_750_000_000;
    let stats = pair_over_commits(&[t - 200 * DAY, t - 100 * DAY, t]);
    assert_eq!(stats.count, 3);
    assert_eq!(stats.window_mask.count_ones(), 3);
    let stats = pair_over_commits(&[t - 200 * DAY, t - 120 * DAY, t - 100 * DAY, t]);
    assert_eq!(stats.count, 4);
    assert!((3..=4).contains(&stats.window_mask.count_ones()));
    // Reordering commits never changes the mask: it is a set, not a walk.
    let forward = pair_over_commits(&[t - 200 * DAY, t - 100 * DAY, t]);
    let reverse = pair_over_commits(&[t, t - 100 * DAY, t - 200 * DAY]);
    assert_eq!(forward.window_mask, reverse.window_mask);
    assert_eq!(forward.first_observed_at, reverse.first_observed_at);
}

#[test]
fn recurrence_window_is_fixed_epoch_and_wraps_only_beyond_history() {
    let base = window_start(1_750_000_000);
    assert_eq!(recurrence_window(base), recurrence_window(base + 89 * DAY));
    assert_ne!(recurrence_window(base), recurrence_window(base + 90 * DAY));
    assert_eq!(
        (recurrence_window(base) + 1) % RECURRENCE_RING as u32,
        recurrence_window(base + 90 * DAY)
    );
    // Negative timestamps clamp to window 0 rather than going negative.
    assert_eq!(recurrence_window(-5), 0);
    let steps = HISTORY_WINDOW_DAYS / 90 + 1;
    let mut seen = std::collections::HashSet::new();
    for i in 0..=steps {
        assert!(
            seen.insert(recurrence_window(base - i * RECURRENCE_WINDOW_SECS)),
            "window {i} steps back aliased an earlier one"
        );
    }
    assert_eq!(
        recurrence_window(base),
        recurrence_window(base - RECURRENCE_RING * RECURRENCE_WINDOW_SECS)
    );
}

#[test]
fn delta_mask_ors_onto_full_mask_exactly() {
    let t = 1_750_000_000;
    let old = [t - 300 * DAY, t - 299 * DAY, t - 298 * DAY];
    let new: Vec<i64> = (1..=10).map(|i| t - 300 * DAY + i * 30 * DAY).collect();
    let all: Vec<i64> = old.iter().chain(new.iter()).copied().collect();
    let full = pair_over_commits(&all);
    let base = pair_over_commits(&old);
    let delta = pair_over_commits(&new);
    assert_eq!(full.window_mask, base.window_mask | delta.window_mask);
    assert_eq!(full.count, base.count + delta.count);
    assert_eq!(full.first_observed_at, base.first_observed_at.min(delta.first_observed_at));
    assert_eq!(full.last_observed_at, base.last_observed_at.max(delta.last_observed_at));
    assert!(full.window_mask.count_ones() >= 4);
}

#[test]
fn decay_between_equal_anchors_is_a_no_op() {
    assert_eq!(decay_seconds(1_700_000_000, 1_700_000_000), 0);
    assert_eq!(decay_seconds(1_700_000_000, 1_600_000_000), 0);
    assert_eq!(decay_seconds(1_600_000_000, 1_700_000_000), 100_000_000);
    assert_eq!(decay_seconds(i64::MIN, i64::MAX), u64::MAX);
}

#[test]
fn incremental_provenance_survives_only_with_the_same_established_regime() {
    let head = HistoryAnchor { epoch: 1_500_000_000, source: HistoryAnchorSource::HeadCommit };
    let wall = HistoryAnchor { epoch: 1_600_000_000, source: HistoryAnchorSource::WallClock };
    assert!(!head.establishes(false, None));
    assert!(wall.establishes(true, None));
    assert_eq!(
        HistoryAnchor::indexed(&Some((wall.label().to_string(), wall.epoch))),
        Some(wall)
    );
    assert!(!head.establishes(false, Some(wall)));
    assert!(head.establishes(true, Some(wall)));
    let next = HistoryAnchor { epoch: head.epoch + 86_400, ..head };
    assert!(next.establishes(false, Some(head)));
    assert_eq!(HistoryAnchor::indexed(&None), None);
    assert_eq!(HistoryAnchor::indexed(&Some(("other".to_string(), 1))), None);
}

#[test]
fn anchor_falls_back_to_the_wall_clock_without_a_head() {
    let anchor = HistoryAnchor::at(None, 1_700_000_000);
    assert_eq!(anchor.source, HistoryAnchorSource::WallClock);
    assert_eq!(anchor.epoch, 1_700_000_000);
    assert_eq!(anchor.window_stamp(), "730d@now");
    assert_eq!(HistoryAnchor::at(Some(5), 9).source, HistoryAnchorSource::HeadCommit);
    assert_eq!(previous_anchor(HistoryAnchor::at(Some(5), 9), Some(3), 4), 3);
    assert_eq!(previous_anchor(HistoryAnchor::at(Some(5), 9), None, 4), 4);
    assert_eq!(previous_anchor(anchor, Some(3), 4), 4);
}

#[test]
fn commit_epoch_rejects_dash_prefixed_revisions() {
    assert_eq!(commit_epoch("-O/etc/passwd", &Some("1700000000\n".to_string())), None);
    assert_eq!(commit_epoch("HEAD", &Some("1700000000\n".to_string())), Some(1_700_000_000));
    assert_eq!(commit_epoch("HEAD", &None), None);
    assert_eq!(commit_epoch("HEAD", &Some("x".to_string())), None);
}

#[test]
fn changed_files_since_rejects_dash_prefixed_ref() {
    assert_eq!(range_since("-O/etc/passwd"), None);
    assert!(range_since("main").unwrap().starts_with("main"));
    assert_eq!(
        changed_files("a.rs\n\n b.rs\n"),
        changed_files("a.rs\n b.rs\n")
    );
}

#[test]
fn feature_touched_since_matches_entry_owned_context_not_test() {
    let f = |path: &str, role| FeatureFileRef { path: path.to_string(), role };
    let changed = vec!["src/main.rs".to_string(), "tests/it.rs".to_string()];
    assert!(feature_touched_since(&vec![f("src/main.rs", FeatureFileRole::Entry)], &changed));
    assert!(feature_touched_since(&vec![f("src/main.rs", FeatureFileRole::Owned)], &changed));
    assert!(feature_touched_since(&vec![f("src/main.rs", FeatureFileRole::Context)], &changed));
    assert!(!feature_touched_since(&vec![f("tests/it.rs", FeatureFileRole::Test)], &changed));
    assert!(!feature_touched_since(&vec![f("src/other.rs", FeatureFileRole::Entry)], &changed));
}

#[test]
fn missing_identity_and_aged_history_do_not_fabricate_authors() {
    assert_eq!(
        normalized_author(" User@Example.COM ", "Alias"),
        Some("email:user@example.com".to_string())
    );
    assert_eq!(normalized_author("", "  Some   Name "), Some("name:some name".to_string()));
    assert_eq!(normalized_author(" ", " \t "), None);
    let now = 2_000_000_000;
    let at = |author: &str, timestamp: i64| AuthorEvent { author: author.to_string(), timestamp };
    assert!(qualifying_places(&vec![at("old", now - 731 * DAY)], now).is_empty());
    assert!(qualifying_places(&vec![], now).is_empty());
    assert!(qualifying_places(&vec![at("", now)], now).is_empty());
    assert_eq!(qualifying_places(&vec![at("future", now + DAY)], now), vec![0]);
    assert!(qualifying_authors(&vec![at("old", now - 731 * DAY), at("", now)], now).is_empty());
    assert_eq!(
        qualifying_authors(&vec![at("new", now), at("aged", now - DAY), at("new", now - DAY)], now),
        vec!["aged".to_string(), "new".to_string()]
    );
}

#[test]
fn an_author_gap_is_named_by_its_cause() {
    let at = |author: &str, timestamp: i64| AuthorEvent { author: author.to_string(), timestamp };
    let now = 2_000_000_000;
    assert!(author_gap_note(false, &vec![], now, "HEAD").unwrap().contains("git-index --full"));
    assert!(author_gap_note(true, &vec![], now, "HEAD").unwrap().contains("no indexed author"));
    assert!(author_gap_note(true, &vec![at("", now)], now, "HEAD").unwrap().contains("missing"));
    assert!(
        author_gap_note(true, &vec![at("a", now - 731 * DAY)], now, "HEAD")
            .unwrap()
            .contains("anchored at HEAD (Unix timestamp 2000000000)")
    );
    assert_eq!(author_gap_note(true, &vec![at("a", now)], now, "HEAD"), None);
    assert!(author_note(3, "50", 2).contains("3 identities, largest 50% of weighted commits, bus factor 2"));
    assert_eq!(identity_of("x@y", "X@Y", "x@y"), identity_of("x@y", "other", "x@y"));
}

#[test]
fn a_pass_is_planned_by_what_was_indexed() {
    let last = Some("abc".to_string());
    assert_eq!(plan_pass(IndexMode::Full, &last, "abc", true), Pass::Full);
    assert_eq!(plan_pass(IndexMode::Auto, &last, "abc", true), Pass::Unchanged);
    assert_eq!(plan_pass(IndexMode::Auto, &last, "def", true), Pass::Incremental);
    assert_eq!(plan_pass(IndexMode::Auto, &last, "def", false), Pass::Full);
    assert_eq!(plan_pass(IndexMode::Auto, &None, "def", true), Pass::Full);
}

#[test]
fn patterns_decide_which_changes_count() {
    let (excludes, tests) = compile_excludes(
        &vec!["**/vendor/**".to_string()],
        &vec!["gen/**".to_string()],
        &vec!["**/*Test.php".to_string()],
    )
    .unwrap();
    let raw = Commit {
        sha: "s".to_string(),
        author: "a".to_string(),
        timestamp: 7,
        subject: "feat: x".to_string(),
        changes: ["a/vendor/x.rs", "gen/y.rs", "src/z.rs", "t/ZTest.php"]
            .iter()
            .map(|p| FileChange { path: p.to_string(), added: 1, deleted: 1 })
            .collect(),
    };
    let classed = classify(&raw, &excludes, &tests);
    assert_eq!(filter_kept(&classed), vec![2, 3]);
    assert!(classed.changes[3].test_like && !classed.changes[2].test_like);
    assert!(compile_excludes(&vec!["[".to_string()], &vec![], &vec![]).is_none());
    let chore = commit(7, "chore: bump deps", &["a.rs"]);
    assert!(filter_kept(&chore).is_empty());
    let mut stretch = Stretch::none();
    stretch.accumulate(&classed);
    assert_eq!(stretch.commits_scanned, 1);
    assert_eq!(stretch.authors.len(), 2);
    assert_eq!(count_shown(&count_pairs(&stretch.pairs)), 0, "one shared commit is not shown");
}

#[test]
fn scans_of_two_stretches_make_one_scan() {
    let a = commit(1, "feat: x", &["a.rs", "b.rs"]);
    let b = commit(2, "fix: y", &["a.rs", "b.rs"]);
    let both = scan(&vec![commit(1, "feat: x", &["a.rs", "b.rs"]), commit(2, "fix: y", &["a.rs", "b.rs"])]);
    let first = scan(&vec![a]);
    let second = scan(&vec![b]);
    assert_eq!(both.commits_scanned, first.commits_scanned + second.commits_scanned);
    assert_eq!(both.touches.len(), first.touches.len() + second.touches.len());
    assert_eq!(both.pairs.len(), first.pairs.len() + second.pairs.len());
}
