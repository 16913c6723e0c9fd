//! The hooks that keep an index current: which are installed, what their log
//! last recorded, and whether their lock is held by a live run.
use vstd::prelude::*;
use vstd::string::*;
use crate::calendar;
use crate::calendar::format_utc;
use crate::paths;
use crate::paths::{append_path, is_named, parent_of, strip_root};
use crate::text;
use crate::text::{
    chars_of, concat3, has, lines_of, parse_up_to, same, split_once, strip_prefix, trim,
};

verus! {

/// What the installer writes into every hook body it owns.
pub const HOOK_MARKER: &'static str = "codesage install-hooks";

pub const LOCK_DIR: &'static str = ".codesage/hook-index.lock";

pub const LOG_FILE: &'static str = ".codesage/hooks.log";

/// The age at which a lock without a process id is an orphan, and at which a
/// reaper's mutex no longer counts.
pub const STALE_LOCK_SECS: u64 = 1800;

/// How much of the end of the log is read.
pub const LOG_TAIL_BYTES: u64 = 65536;

/// The longest process id file that is read.
pub const MAX_PID_BYTES: u64 = 32;

pub const LOCK_ABSENT: &'static str = "absent";

pub const LOCK_HELD_LIVE: &'static str = "held_live";

pub const LOCK_HELD_DEAD: &'static str = "held_dead";

pub const LOCK_HELD_NO_PID: &'static str = "held_no_pid";

/// The hooks that index, by file name.
pub open spec fn hook_names() -> Seq<Seq<char>> {
    seq!["post-commit"@, "post-merge"@, "post-checkout"@, "post-rewrite"@]
}

pub fn indexing_hooks() -> (out: Vec<String>)
    ensures
        text::views(out@) == hook_names(),
{
    let out = vec![
        "post-commit".to_string(),
        "post-merge".to_string(),
        "post-checkout".to_string(),
        "post-rewrite".to_string(),
    ];
    assert(text::views(out@) =~= hook_names());
    out
}

// ---------------------------------------------------------------------------
// Where hooks stand
// ---------------------------------------------------------------------------

/// The directory that Git is told to run hooks from: the configured one, seen
/// from the root, or `hooks` in the common directory.
pub open spec fn configured_dir(configured: Option<Seq<char>>, root: Seq<char>, common: Seq<char>) -> Seq<
    char,
> {
    match configured {
        Some(raw) => if text::trimmed(raw).len() > 0 {
            paths::pushed(root, text::trimmed(raw))
        } else {
            paths::pushed(common, "hooks"@)
        },
        None => paths::pushed(common, "hooks"@),
    }
}

/// The directory beside a hook runner's own, where the user's hooks are.
pub open spec fn beside_runner(configured: Option<Seq<char>>, root: Seq<char>) -> Option<Seq<char>> {
    match configured {
        Some(raw) => {
            let dir = paths::pushed(root, text::trimmed(raw));
            if text::trimmed(raw).len() > 0 && paths::file_name(dir) == Some("_"@) {
                paths::parent(dir)
            } else {
                None
            }
        },
        None => None,
    }
}

/// A place to look for hooks: the directory that Git runs them from, and the
/// one that stands for it if it exists.
#[derive(Debug)]
pub struct HooksPlace {
    pub dir: String,
    pub instead: Option<String>,
}

/// Reads the output of a query for the configured hooks directory; `None`
/// where the query failed.
pub fn place_hooks(configured: Option<&str>, root: &str, common: &str) -> (out: HooksPlace)
    ensures
        ({
            let c = match configured {
                Some(raw) => Some(raw@),
                None => None,
            };
            &&& out.dir@ == configured_dir(c, root@, common@)
            &&& text::view_opt(out.instead) == beside_runner(c, root@)
        }),
{
    if let Some(raw) = configured {
        let path = trim(raw);
        if path.unicode_len() > 0 {
            let dir = append_path(root, path);
            let instead = if is_named(dir.as_str(), "_") {
                match parent_of(dir.as_str()) {
                    Some(p) => Some(p.to_string()),
                    None => None,
                }
            } else {
                None
            };
            return HooksPlace { dir, instead };
        }
    }
    HooksPlace { dir: append_path(common, "hooks"), instead: None }
}

/// The directory to look in, once it is known whether the one beside a hook
/// runner's is there.
pub fn hooks_dir(place: HooksPlace, instead_is_dir: bool) -> (out: String)
    ensures
        out@ == (if instead_is_dir && place.instead is Some {
            place.instead->0@
        } else {
            place.dir@
        }),
{
    if instead_is_dir {
        if let Some(p) = place.instead {
            return p;
        }
    }
    place.dir
}

/// The names of the hooks, in order, whose body carries the marker.
pub open spec fn marked(names: Seq<Seq<char>>, bodies: Seq<Option<String>>) -> Seq<Seq<char>>
    decreases bodies.len(),
{
    if bodies.len() == 0 || names.len() < bodies.len() {
        Seq::empty()
    } else {
        let before = marked(names, bodies.drop_last());
        match bodies.last() {
            Some(body) => if text::contains(body@, HOOK_MARKER@) {
                before.push(names[bodies.len() - 1])
            } else {
                before
            },
            None => before,
        }
    }
}

/// The installed hooks, from the body of each indexing hook that could be
/// read.
pub fn installed_hooks(bodies: &Vec<Option<String>>) -> (out: Vec<String>)
    requires
        bodies.len() <= 4,
    ensures
        text::views(out@) == marked(hook_names(), bodies@),
{
    broadcast use text::group_views;
    let names = indexing_hooks();
    let mut out: Vec<String> = Vec::new();
    assert(text::views(names@).len() == names@.len());
    let mut i: usize = 0;
    while i < bodies.len()
        invariant
            i <= bodies.len() <= 4,
            names.len() == 4,
            text::views(names@) == hook_names(),
            text::views(out@) == marked(hook_names(), bodies@.take(i as int)),
        decreases bodies.len() - i,
    {
        broadcast use text::group_views;
        assert(bodies@.take(i + 1).drop_last() =~= bodies@.take(i as int));
        assert(text::views(names@)[i as int] == names@[i as int]@);
        if let Some(body) = &bodies[i] {
            if has(body.as_str(), HOOK_MARKER) {
                out.push(names[i].clone());
            }
        }
        i += 1;
    }
    assert(bodies@.take(bodies.len() as int) =~= bodies@);
    out
}

// ---------------------------------------------------------------------------
// The lock
// ---------------------------------------------------------------------------

/// What is known of the lock.
#[derive(Debug)]
pub struct HookLockState {
    pub state: String,
    pub pid: Option<u32>,
    pub since_unix: Option<u64>,
    pub since: Option<String>,
    pub age_secs: Option<u64>,
    pub reaped: bool,
}

/// The process id that a file holds: a regular file of a few bytes with one
/// positive decimal number.
pub open spec fn pid_in(regular: bool, len: nat, raw: Option<Seq<char>>) -> Option<nat> {
    if !regular || len > MAX_PID_BYTES {
        None
    } else {
        match raw {
            Some(s) => match text::parsed(text::trimmed(s), u32::MAX as nat) {
                Some(n) => if n > 0 {
                    Some(n)
                } else {
                    None
                },
                None => None,
            },
            None => None,
        }
    }
}

/// Reads a process id file: whether it is a regular file, how long it is, and
/// its text where it could be read.
pub fn read_pid(regular: bool, len: u64, raw: &Option<String>) -> (r: Option<u32>)
    ensures
        match r {
            Some(pid) => pid_in(regular, len as nat, text::view_opt(*raw)) == Some(pid as nat),
            None => pid_in(regular, len as nat, text::view_opt(*raw)) is None,
        },
{
    if !regular || len > MAX_PID_BYTES {
        return None;
    }
    match raw {
        Some(s) => match parse_up_to(trim(s.as_str()), 0xffff_ffff) {
            Some(n) => if n > 0 {
                Some(n as u32)
            } else {
                None
            },
            None => None,
        },
        None => None,
    }
}

/// A command line that names a hook file of a directory.
pub open spec fn runs_from(args: Seq<char>, dir: Seq<char>) -> bool {
    exists|i: int|
        0 <= i < hook_names().len() && text::contains(args, dir + "/"@ + #[trigger] hook_names()[i])
}

/// A command line that names a hook file: in Git's own directory, in Husky's,
/// or in the hooks directory, written in full or from the root.
pub open spec fn names_hook(args: Seq<char>, root: Seq<char>, hooks_dir: Option<Seq<char>>) -> bool {
    ||| runs_from(args, ".git/hooks"@)
    ||| runs_from(args, ".husky"@)
    ||| hooks_dir is Some && runs_from(args, hooks_dir->0)
    ||| hooks_dir is Some && paths::stripped(hooks_dir->0, root) is Some && runs_from(
        args,
        paths::stripped(hooks_dir->0, root)->0,
    )
}

fn runs_hook_from(args: &str, dir: &str) -> (r: bool)
    ensures
        r == runs_from(args@, dir@),
{
    let names = indexing_hooks();
    assert(text::views(names@).len() == names@.len());
    let mut i: usize = 0;
    while i < names.len()
        invariant
            i <= names.len(),
            names.len() == hook_names().len(),
            text::views(names@) == hook_names(),
            forall|j: int|
                0 <= j < i ==> !text::contains(args@, dir@ + "/"@ + #[trigger] hook_names()[j]),
        decreases names.len() - i,
    {
        assert(hook_names()[i as int] == names@[i as int]@);
        let file = concat3(dir, "/", names[i].as_str());
        if has(args, file.as_str()) {
            return true;
        }
        i += 1;
    }
    false
}

/// Whether a command line names a hook file.
pub fn names_hook_file(args: &str, root: &str, hooks_dir: Option<&str>) -> (r: bool)
    ensures
        r == names_hook(
            args@,
            root@,
            match hooks_dir {
                Some(d) => Some(d@),
                None => None,
            },
        ),
{
    if runs_hook_from(args, ".git/hooks") || runs_hook_from(args, ".husky") {
        return true;
    }
    match hooks_dir {
        Some(dir) => {
            if runs_hook_from(args, dir) {
                return true;
            }
            match strip_root(dir, root) {
                Some(rel) => runs_hook_from(args, rel),
                None => false,
            }
        },
        None => false,
    }
}

/// Whether a process is a hook run: it is alive, and a command line that could
/// be read names a hook file.
pub open spec fn is_hook_run(
    alive: bool,
    args: Option<Seq<char>>,
    root: Seq<char>,
    hooks_dir: Option<Seq<char>>,
) -> bool {
    alive && match args {
        Some(s) => text::trimmed(s).len() == 0 || names_hook(text::trimmed(s), root, hooks_dir),
        None => true,
    }
}

/// Whether the holder of a lock is a hook run. A command line that could not
/// be read, or is empty, never counts against a live process; one that names
/// no hook file means that the process id was used again.
pub fn hook_run_alive(alive: bool, args: Option<&str>, root: &str, hooks_dir: Option<&str>) -> (r: bool)
    ensures
        r == is_hook_run(
            alive,
            match args {
                Some(s) => Some(s@),
                None => None,
            },
            root@,
            match hooks_dir {
                Some(d) => Some(d@),
                None => None,
            },
        ),
{
    if !alive {
        return false;
    }
    match args {
        Some(s) => {
            let line = trim(s);
            line.unicode_len() == 0 || names_hook_file(line, root, hooks_dir)
        },
        None => true,
    }
}

/// The state of a lock that is not there.
pub fn absent_lock() -> (out: HookLockState)
    ensures
        out.state@ == LOCK_ABSENT@,
        out.pid is None && out.since_unix is None && out.since is None && out.age_secs is None,
        !out.reaped,
{
    HookLockState {
        state: LOCK_ABSENT.to_string(),
        pid: None,
        since_unix: None,
        since: None,
        age_secs: None,
        reaped: false,
    }
}

/// The label of a lock that is there.
pub open spec fn held_label(pid: Option<u32>, alive: bool) -> Seq<char> {
    if pid is None {
        LOCK_HELD_NO_PID@
    } else if alive {
        LOCK_HELD_LIVE@
    } else {
        LOCK_HELD_DEAD@
    }
}

/// The seconds since an instant, none where it lies ahead.
pub open spec fn age(now: u64, since: Option<u64>) -> Option<int> {
    match since {
        Some(s) => Some(if now >= s {
            now - s
        } else {
            0
        }),
        None => None,
    }
}

/// The state of a lock that is there: when it was last changed, the process id
/// it holds, and whether that process is a hook run.
pub fn held_lock(modified: Option<u64>, now: u64, pid: Option<u32>, alive: bool) -> (out: HookLockState)
    ensures
        out.state@ == held_label(pid, alive),
        out.pid == pid,
        out.since_unix == modified,
        out.since is Some == modified is Some,
        modified is Some ==> calendar::writes_instant(out.since->0@, modified->0 as nat),
        match out.age_secs {
            Some(a) => age(now, modified) == Some(a as int),
            None => age(now, modified) is None,
        },
        !out.reaped,
{
    let state = match pid {
        None => LOCK_HELD_NO_PID.to_string(),
        Some(_) => if alive {
            LOCK_HELD_LIVE.to_string()
        } else {
            LOCK_HELD_DEAD.to_string()
        },
    };
    match modified {
        Some(s) => {
            let old: u64 = if now >= s {
                now - s
            } else {
                0
            };
            HookLockState {
                state,
                pid,
                since_unix: Some(s),
                since: Some(format_utc(s)),
                age_secs: Some(old),
                reaped: false,
            }
        },
        None => HookLockState {
            state,
            pid,
            since_unix: None,
            since: None,
            age_secs: None,
            reaped: false,
        },
    }
}

/// A lock that no hook run can own.
pub open spec fn orphan(state: Seq<char>, age_secs: Option<u64>) -> bool {
    ||| state == LOCK_HELD_DEAD@
    ||| state == LOCK_HELD_NO_PID@ && age_secs is Some && age_secs->0 >= STALE_LOCK_SECS
}

/// Whether a lock may be removed.
pub fn is_reapable(state: &HookLockState) -> (r: bool)
    ensures
        r == orphan(state.state@, state.age_secs),
{
    let stale = match state.age_secs {
        Some(a) => a >= STALE_LOCK_SECS,
        None => false,
    };
    same(state.state.as_str(), LOCK_HELD_DEAD) || (same(state.state.as_str(), LOCK_HELD_NO_PID)
        && stale)
}

/// What a reaper does next.
#[derive(Debug, Clone, Copy, PartialEq, Eq, Structural)]
pub enum ReapPlan {
    /// Leave the lock alone.
    Leave,
    /// Take the mutex, look at the lock again, and remove it if it is still an
    /// orphan.
    Claim,
    /// Remove a mutex that an earlier reaper left behind first.
    ClearAndClaim,
}

/// Decides from the lock and from the age of the mutex, where there is one.
pub fn plan_reap(state: &HookLockState, mutex_age: Option<u64>) -> (out: ReapPlan)
    ensures
        out == (if !orphan(state.state@, state.age_secs) {
            ReapPlan::Leave
        } else if mutex_age is Some && mutex_age->0 >= STALE_LOCK_SECS {
            ReapPlan::ClearAndClaim
        } else {
            ReapPlan::Claim
        }),
{
    if !is_reapable(state) {
        return ReapPlan::Leave;
    }
    match mutex_age {
        Some(a) => if a >= STALE_LOCK_SECS {
            ReapPlan::ClearAndClaim
        } else {
            ReapPlan::Claim
        },
        None => ReapPlan::Claim,
    }
}

/// The lock of a live hook run is never an orphan, however old it is, and nor
/// is a lock that is not there. One whose holder is dead always is, and one
/// without a process id is from its ceiling on.
pub proof fn law_only_a_lock_without_a_live_run_is_reaped(
    pid: Option<u32>,
    alive: bool,
    age_secs: Option<u64>,
)
    ensures
        orphan(held_label(pid, alive), age_secs) == if pid is Some {
            !alive
        } else {
            age_secs is Some && age_secs->0 >= STALE_LOCK_SECS
        },
        !orphan(LOCK_ABSENT@, age_secs),
{
    reveal_strlit("absent");
    reveal_strlit("held_live");
    reveal_strlit("held_dead");
    reveal_strlit("held_no_pid");
    assert(LOCK_HELD_LIVE@[5] == 'l' && LOCK_HELD_DEAD@[5] == 'd');
    assert(LOCK_HELD_NO_PID@.len() == 11);
    assert(LOCK_ABSENT@.len() == 6);
}

// ---------------------------------------------------------------------------
// The log
// ---------------------------------------------------------------------------

/// Where the part of a log that is read begins.
pub fn log_tail_start(len: u64) -> (out: u64)
    ensures
        out == (if len > LOG_TAIL_BYTES {
            len - LOG_TAIL_BYTES
        } else {
            0
        }),
{
    if len > LOG_TAIL_BYTES {
        len - LOG_TAIL_BYTES
    } else {
        0
    }
}

/// The digits that a text begins with.
pub open spec fn leading_digits(s: Seq<char>) -> Seq<char>
    decreases s.len(),
{
    if s.len() > 0 && text::is_digit(s[0]) {
        seq![s[0]] + leading_digits(s.skip(1))
    } else {
        Seq::empty()
    }
}

/// The exit code that a text begins with.
pub open spec fn exit_code(s: Seq<char>) -> Option<nat> {
    text::parsed(leading_digits(s), i32::MAX as nat)
}

/// The time in brackets that a line begins with.
pub open spec fn stamp(line: Seq<char>) -> Option<Seq<char>> {
    match text::after_prefix(line, "["@) {
        Some(rest) => match text::split_first(rest, "]"@) {
            Some((ts, _)) => Some(ts),
            None => None,
        },
        None => None,
    }
}

/// The time of the newest run among the lines, and the exit code of the newest
/// exit at or after it; `later` is the exit found after the lines.
pub open spec fn newest_run(lines: Seq<Seq<char>>, later: Option<nat>) -> (
    Option<Seq<char>>,
    Option<nat>,
)
    decreases lines.len(),
{
    if lines.len() == 0 {
        (None, later)
    } else {
        match text::split_first(lines.last(), " hook exit="@) {
            Some((_, rest)) => newest_run(
                lines.drop_last(),
                if later is None {
                    exit_code(rest)
                } else {
                    later
                },
            ),
            None => if text::contains(lines.last(), " hook start"@) {
                (stamp(lines.last()), later)
            } else {
                newest_run(lines.drop_last(), later)
            },
        }
    }
}

/// The lines of a log, without the fragment that a window into it begins with.
pub open spec fn log_lines(s: Seq<char>, truncated: bool) -> Seq<Seq<char>> {
    if truncated && text::lines(s).len() > 0 {
        text::lines(s).skip(1)
    } else {
        text::lines(s)
    }
}

fn exit_code_of(s: &str) -> (r: Option<i32>)
    ensures
        match r {
            Some(n) => n >= 0 && exit_code(s@) == Some(n as nat),
            None => exit_code(s@) is None,
        },
{
    let v = chars_of(s);
    let mut n: usize = 0;
    assert(s@.take(0) + leading_digits(s@.skip(0)) =~= leading_digits(s@)) by {
        assert(s@.skip(0) =~= s@);
    }
    while n < v.len() && text::digit(v[n])
        invariant
            v@ == s@,
            n <= v.len(),
            leading_digits(s@) == s@.take(n as int) + leading_digits(s@.skip(n as int)),
        decreases v.len() - n,
    {
        assert(s@.skip(n as int).skip(1) =~= s@.skip(n + 1));
        assert(s@.take(n + 1) =~= s@.take(n as int) + seq![s@[n as int]]);
        assert(leading_digits(s@) =~= s@.take(n + 1) + leading_digits(s@.skip(n + 1)));
        n += 1;
    }
    assert(leading_digits(s@.skip(n as int)) =~= Seq::<char>::empty());
    let digits = s.substring_char(0, n);
    assert(digits@ =~= leading_digits(s@));
    match parse_up_to(digits, 0x7fff_ffff) {
        Some(k) => Some(k as i32),
        None => None,
    }
}

fn stamp_of(line: &str) -> (r: Option<String>)
    ensures
        text::view_opt(r) == stamp(line@),
{
    match strip_prefix(line, "[") {
        Some(rest) => match split_once(rest, "]") {
            Some((ts, _)) => Some(ts.to_string()),
            None => None,
        },
        None => None,
    }
}

/// An exit code as a number that is none or not negative.
pub open spec fn code_view(n: Option<i32>) -> Option<int> {
    match n {
        Some(k) => Some(k as int),
        None => None,
    }
}

pub open spec fn code_of(n: Option<nat>) -> Option<int> {
    match n {
        Some(k) => Some(k as int),
        None => None,
    }
}

/// The time of the newest `hook start` line and the exit code of the newest
/// `hook exit=` line at or after it. Where no start line lies within the text,
/// the exit stands alone.
pub fn parse_log_text(log: &str, truncated_head: bool) -> (out: (Option<String>, Option<i32>))
    ensures
        text::view_opt(out.0) == newest_run(log_lines(log@, truncated_head), None).0,
        code_view(out.1) == code_of(newest_run(log_lines(log@, truncated_head), None).1),
{
    broadcast use text::group_views;
    let all = lines_of(log);
    let ghost lines = log_lines(log@, truncated_head);
    let ghost views = text::views(all@);
    let from: usize = if truncated_head && all.len() > 0 {
        1
    } else {
        0
    };
    let mut n: usize = all.len();
    let mut exit: Option<i32> = None;
    let ghost mut found: Option<nat> = None;
    assert(lines =~= views.skip(from as int));
    assert(lines.take(lines.len() as int) =~= lines);
    while n > from
        invariant
            from <= n <= all.len(),
            from <= 1,
            views == text::views(all@),
            views == text::lines(log@),
            lines == log_lines(log@, truncated_head),
            lines == views.skip(from as int),
            views.len() == all.len(),
            newest_run(lines, None) == newest_run(lines.take(n - from), found),
            code_view(exit) == code_of(found),
        decreases n,
    {
        broadcast use text::group_views;
        let ghost here = lines.take(n - from);
        assert(here.drop_last() =~= lines.take(n - from - 1));
        n -= 1;
        assert(views[n as int] == all@[n as int]@);
        assert(here.last() == views[n as int]);
        let line = all[n].as_str();
        match split_once(line, " hook exit=") {
            Some((_, rest)) => {
                if exit.is_none() {
                    exit = exit_code_of(rest);
                    proof {
                        found = exit_code(rest@);
                    }
                }
            },
            None => {
                if has(line, " hook start") {
                    return (stamp_of(line), exit);
                }
            },
        }
    }
    assert(lines.take(0) =~= Seq::empty());
    (None, exit)
}

// ---------------------------------------------------------------------------
// The whole
// ---------------------------------------------------------------------------

/// What the hooks of a checkout look like.
#[derive(Debug)]
pub struct HookHealth {
    pub installed_hooks: Vec<String>,
    pub last_run: Option<String>,
    pub last_exit: Option<i32>,
    pub lock: HookLockState,
}

/// The end of a log that was read, and whether it begins inside the file.
#[derive(Debug)]
pub struct LogTail {
    pub text: String,
    pub truncated: bool,
}

/// Puts together what was read; `log` is `None` where there is no log that
/// could be read.
pub fn inspect(bodies: &Vec<Option<String>>, log: &Option<LogTail>, lock: HookLockState) -> (out:
    HookHealth)
    requires
        bodies.len() <= 4,
    ensures
        text::views(out.installed_hooks@) == marked(hook_names(), bodies@),
        out.lock == lock,
        match *log {
            Some(tail) => {
                let run = newest_run(log_lines(tail.text@, tail.truncated), None);
                text::view_opt(out.last_run) == run.0 && code_view(out.last_exit) == code_of(run.1)
            },
            None => out.last_run is None && out.last_exit is None,
        },
{
    let (last_run, last_exit) = match log {
        Some(tail) => parse_log_text(tail.text.as_str(), tail.truncated),
        None => (None, None),
    };
    HookHealth { installed_hooks: installed_hooks(bodies), last_run, last_exit, lock }
}

} // verus!
