//! Hooks, their lock and their log.
use codesage_graph::calendar::{date_of, format_utc, LAST_FOUR_DIGIT_SECOND};
use codesage_graph::hook_health::{
    absent_lock, held_lock, hook_run_alive, hooks_dir, indexing_hooks, inspect, installed_hooks,
    is_reapable, log_tail_start, names_hook_file, parse_log_text, place_hooks, plan_reap, read_pid,
    LogTail, ReapPlan, LOCK_ABSENT, LOCK_HELD_DEAD, LOCK_HELD_LIVE, LOCK_HELD_NO_PID,
    STALE_LOCK_SECS,
};

#[test]
fn format_utc_matches_known_instants() {
    assert_eq!(format_utc(0), "1970-01-01T00:00:00Z");
    assert_eq!(format_utc(951_782_400), "2000-02-29T00:00:00Z");
    assert_eq!(format_utc(1_757_833_777), "2025-09-14T07:09:37Z");
}

#[test]
fn log_tail_reports_the_newest_run_and_its_exit() {
    let text = "[Sun Sep 14 07:00:00 UTC 2026] post-commit hook start pid=10\n\
                [Sun Sep 14 07:00:05 UTC 2026] index exit=0\n\
                [Sun Sep 14 07:00:06 UTC 2026] post-commit hook exit=0 pid=10\n\
                [Sun Sep 14 07:09:37 UTC 2026] post-merge hook start pid=42\n\
                [Sun Sep 14 07:09:40 UTC 2026] index exit=7\n\
                [Sun Sep 14 07:09:41 UTC 2026] post-merge hook exit=7 pid=42\n\
                [Sun Sep 14 07:10:00 UTC 2026] post-merge hook skip: another index already running\n";
    assert_eq!(
        parse_log_text(text, false),
        (Some("Sun Sep 14 07:09:37 UTC 2026".to_string()), Some(7))
    );
}

#[test]
fn log_tail_reports_unknown_exit_when_the_newest_run_never_logged_one() {
    let text = "[Sun Sep 14 06:00:00 UTC 2026] post-commit hook start pid=10\n\
                [Sun Sep 14 06:00:06 UTC 2026] post-commit hook exit=0 pid=10\n\
                [Sun Sep 14 07:09:37 UTC 2026] post-merge hook start pid=42\n\
                [Sun Sep 14 07:09:38 UTC 2026] index exit=0\n";
    assert_eq!(
        parse_log_text(text, false),
        (Some("Sun Sep 14 07:09:37 UTC 2026".to_string()), None)
    );
    assert_eq!(parse_log_text("", false), (None, None));
    assert_eq!(
        parse_log_text("garbage] post-commit hook start\n", true),
        (None, None)
    );
    assert_eq!(
        parse_log_text(
            "start pid=9 fell before the window\n[Sun Sep 14 07:09:41 UTC 2026] post-merge hook exit=7 pid=9\n",
            true
        ),
        (None, Some(7)),
        "an exit parsed inside the window survives a start line outside it"
    );
}

#[test]
fn hook_run_predicate_keys_on_hook_file_names_in_any_spelling() {
    let root = "/srv/proj";
    let abs = "/srv/proj/.git/hooks";
    for args in [
        "/bin/sh .git/hooks/post-commit",
        "sh /srv/proj/.git/hooks/post-merge",
        "sh -e .husky/post-checkout",
    ] {
        assert!(
            names_hook_file(args, root, Some(abs)),
            "{args:?} must read as a hook run"
        );
    }
    let custom = "/srv/proj/tools/git-hooks";
    assert!(names_hook_file(
        "sh tools/git-hooks/post-commit",
        root,
        Some(custom)
    ));
    assert!(names_hook_file(
        "sh /srv/proj/tools/git-hooks/post-commit",
        root,
        Some(custom)
    ));
    for args in [
        "codesage daemon",
        "/home/u/codesage/target/debug/codesage index",
        "sleep 30",
        "sh .git/hooks/pre-commit",
        "sh tools/git-hooks/post-commit",
    ] {
        assert!(
            !names_hook_file(args, root, Some(abs)),
            "{args:?} must not read as an indexing hook run"
        );
    }
}

#[test]
fn stale_lock_ceiling_is_a_whole_number_of_minutes_for_the_template() {
    assert_eq!(
        STALE_LOCK_SECS % 60,
        0,
        "the hook interpolates minutes into find -mmin"
    );
    assert_eq!(STALE_LOCK_SECS / 60, 30);
}

#[test]
fn dates_fall_where_the_calendar_has_them() {
    let at = |days: u64| {
        let d = date_of(days);
        (d.year, d.month, d.day)
    };
    assert_eq!(at(0), (1970, 1, 1));
    assert_eq!(at(58), (1970, 2, 28));
    assert_eq!(at(59), (1970, 3, 1));
    assert_eq!(at(11_016), (2000, 2, 29));
    assert_eq!(at(47_540), (2100, 2, 28));
    assert_eq!(at(47_541), (2100, 3, 1));
    assert_eq!(format_utc(253_402_300_800), "10000-01-01T00:00:00Z");
    let mut before = format_utc(0);
    for unix in [59, 60, 86_399, 86_400, 951_782_400, 1_757_833_777, LAST_FOUR_DIGIT_SECOND] {
        let after = format_utc(unix);
        assert_eq!(after.len(), 20);
        assert!(before < after, "{before} {after}");
        before = after;
    }
    assert_eq!(before, "9999-12-31T23:59:59Z");
}

#[test]
fn lock_states_tell_a_live_run_from_an_orphan() {
    assert_eq!(absent_lock().state, LOCK_ABSENT);
    assert!(!is_reapable(&absent_lock()));
    let live = held_lock(Some(100), 100 + 10 * STALE_LOCK_SECS, Some(7), true);
    assert_eq!(live.state, LOCK_HELD_LIVE);
    assert_eq!(live.age_secs, Some(10 * STALE_LOCK_SECS));
    assert_eq!(live.since.as_deref(), Some("1970-01-01T00:01:40Z"));
    assert_eq!(plan_reap(&live, None), ReapPlan::Leave);
    let dead = held_lock(Some(100), 100, Some(7), false);
    assert_eq!(dead.state, LOCK_HELD_DEAD);
    assert_eq!(plan_reap(&dead, None), ReapPlan::Claim);
    assert_eq!(plan_reap(&dead, Some(STALE_LOCK_SECS)), ReapPlan::ClearAndClaim);
    assert_eq!(plan_reap(&dead, Some(STALE_LOCK_SECS - 1)), ReapPlan::Claim);
    let young = held_lock(Some(100), 50, None, false);
    assert_eq!(young.state, LOCK_HELD_NO_PID);
    assert_eq!(young.age_secs, Some(0));
    assert!(!is_reapable(&young));
    assert!(is_reapable(&held_lock(Some(100), 100 + STALE_LOCK_SECS, None, false)));
    assert!(!is_reapable(&held_lock(None, 100, None, false)));
}

#[test]
fn a_pid_file_holds_one_positive_number() {
    assert_eq!(read_pid(true, 3, &Some("42\n".to_string())), Some(42));
    assert_eq!(read_pid(false, 3, &Some("42\n".to_string())), None);
    assert_eq!(read_pid(true, 33, &Some("42\n".to_string())), None);
    assert_eq!(read_pid(true, 3, &Some("0".to_string())), None);
    assert_eq!(read_pid(true, 3, &Some("not a pid".to_string())), None);
    assert_eq!(read_pid(true, 12, &Some("4294967296".to_string())), None);
    assert_eq!(read_pid(true, 3, &None), None);
}

#[test]
fn only_a_readable_command_line_counts_against_a_live_process() {
    assert!(!hook_run_alive(false, None, "/r", None));
    assert!(hook_run_alive(true, None, "/r", None));
    assert!(hook_run_alive(true, Some("  \n"), "/r", None));
    assert!(!hook_run_alive(true, Some("sleep 30"), "/r", None));
    assert!(hook_run_alive(true, Some("sh .git/hooks/post-commit\n"), "/r", None));
}

#[test]
fn hooks_stand_where_git_is_told() {
    let plain = place_hooks(None, "/r", "/r/.git");
    assert_eq!(plain.dir, "/r/.git/hooks");
    assert_eq!(hooks_dir(plain, true), "/r/.git/hooks");
    assert_eq!(place_hooks(Some(" \n"), "/r", "/r/.git").dir, "/r/.git/hooks");
    assert_eq!(place_hooks(Some("/abs\n"), "/r", "/r/.git").dir, "/abs");
    let husky = place_hooks(Some(".husky/_\n"), "/r", "/r/.git");
    assert_eq!(husky.instead.as_deref(), Some("/r/.husky"));
    assert_eq!(hooks_dir(husky, true), "/r/.husky");
    assert_eq!(hooks_dir(place_hooks(Some(".husky/_"), "/r", "/c"), false), "/r/.husky/_");
}

#[test]
fn installed_hooks_are_those_that_carry_the_marker() {
    assert_eq!(indexing_hooks().len(), 4);
    let bodies = vec![
        Some("#!/bin/sh\n# installed by codesage install-hooks\n".to_string()),
        Some("#!/bin/sh\necho foreign\n".to_string()),
        None,
        None,
    ];
    assert_eq!(installed_hooks(&bodies), vec!["post-commit".to_string()]);
    let health = inspect(&bodies, &None, absent_lock());
    assert_eq!(health.installed_hooks, vec!["post-commit".to_string()]);
    assert_eq!((health.last_run, health.last_exit), (None, None));
    let log = Some(LogTail { text: "[t] x hook start\n[u] x hook exit=3\n".to_string(), truncated: false });
    let health = inspect(&bodies, &log, absent_lock());
    assert_eq!((health.last_run.as_deref(), health.last_exit), (Some("t"), Some(3)));
    assert_eq!(log_tail_start(10), 0);
    assert_eq!(log_tail_start(70_000), 70_000 - 65_536);
}
