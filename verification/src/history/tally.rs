//! Counting what commits did to files and to pairs of files.
use vstd::prelude::*;
use vstd::string::*;
use crate::globs;
use crate::globs::PatternSet;
use crate::history::commits;
use crate::history::commits::{is_fix_commit, soft_skip, Commit};
use crate::order;
use crate::order::before;
use crate::text;
use crate::text::{append_strings, copy_strings, same};

verus! {

/// Pairs that changed together less often are not shown.
pub const MIN_CO_CHANGE_COUNT: u32 = 3;

/// A commit with more files makes no pairs: that many change together for
/// mechanical reasons.
pub const MAX_FILES_PER_COMMIT_FOR_COCHANGE: usize = 30;

/// Width of a cell of the recurrence grid, in seconds: ninety days.
pub const RECURRENCE_WINDOW_SECS: i64 = 7_776_000;

/// Cells that the mask tells apart.
pub const RECURRENCE_RING: i64 = 64;

// ---------------------------------------------------------------------------
// The recurrence grid
// ---------------------------------------------------------------------------

/// The cell of the grid that holds a time; the grid starts at the epoch.
pub open spec fn cell(timestamp: int) -> int {
    (if timestamp < 0 {
        0
    } else {
        timestamp
    }) / (RECURRENCE_WINDOW_SECS as int)
}

/// The place of a time in the mask.
pub fn recurrence_window(timestamp: i64) -> (out: u32)
    ensures
        out == cell(timestamp as int) % 64,
        out < 64,
{
    let t: i64 = if timestamp < 0 {
        0
    } else {
        timestamp
    };
    ((t / RECURRENCE_WINDOW_SECS) % RECURRENCE_RING) as u32
}

/// The mask of one time.
pub open spec fn bit_of(timestamp: int) -> u64 {
    1u64 << ((cell(timestamp) % 64) as u64)
}

pub fn window_bit(timestamp: i64) -> (out: u64)
    ensures
        out == bit_of(timestamp as int),
{
    let w: u64 = recurrence_window(timestamp) as u64;
    1u64 << w
}

/// Two times that one full scan can see share a bit only where they share a
/// cell: the window of the history is shorter than the ring.
pub proof fn law_one_scan_never_confuses_two_cells(a: int, b: int)
    requires
        0 <= a <= b,
        b - a <= crate::history::anchor::HISTORY_WINDOW_SECS,
        cell(a) % 64 == cell(b) % 64,
    ensures
        cell(a) == cell(b),
{
    assert(cell(b) - cell(a) <= 9) by (nonlinear_arith)
        requires
            0 <= a <= b,
            b - a <= 63_072_000,
            cell(a) == a / 7_776_000,
            cell(b) == b / 7_776_000,
    ;
    assert(cell(b) >= cell(a)) by (nonlinear_arith)
        requires
            0 <= a <= b,
            cell(a) == a / 7_776_000,
            cell(b) == b / 7_776_000,
    ;
}

// ---------------------------------------------------------------------------
// Changes that count
// ---------------------------------------------------------------------------

/// A change of a file, whether the file is excluded, and whether it looks like a
/// test.
#[derive(Debug)]
pub struct ClassedChange {
    pub path: String,
    pub added: u32,
    pub deleted: u32,
    pub excluded: bool,
    pub test_like: bool,
}

/// A commit with its changes classed.
#[derive(Debug)]
pub struct ClassedCommit {
    pub sha: String,
    pub author: String,
    pub subject: String,
    pub timestamp: i64,
    pub changes: Vec<ClassedChange>,
}

/// The two sets of patterns that changes are classed by: the files that do not
/// count at all, from the patterns that always hold and those of a project,
/// and the files that look like tests. Nothing where one of them cannot be
/// made.
pub fn compile_excludes(standing: &Vec<String>, extra: &Vec<String>, test_like: &Vec<String>) -> (out:
    Option<(PatternSet, PatternSet)>)
    ensures
        match out {
            Some((excludes, tests)) => {
                &&& globs::strict_set(text::views(standing@) + text::views(extra@)) == Some(
                    excludes.globs(),
                )
                &&& globs::strict_set(text::views(test_like@)) == Some(tests.globs())
            },
            None => globs::strict_set(text::views(standing@) + text::views(extra@)) is None
                || globs::strict_set(text::views(test_like@)) is None,
        },
{
    let mut hard = copy_strings(standing);
    append_strings(&mut hard, extra);
    match PatternSet::strict(&hard) {
        Some(excludes) => match PatternSet::strict(test_like) {
            Some(tests) => Some((excludes, tests)),
            None => None,
        },
        None => None,
    }
}

/// Classes the changes of a commit by two sets of patterns.
pub fn classify(commit: &Commit, excludes: &PatternSet, tests: &PatternSet) -> (out: ClassedCommit)
    ensures
        out.sha@ == commit.sha@,
        out.author@ == commit.author@,
        out.subject@ == commit.subject@,
        out.timestamp == commit.timestamp,
        out.changes@.len() == commit.changes@.len(),
        forall|i: int|
            0 <= i < out.changes@.len() ==> {
                let c = #[trigger] out.changes@[i];
                &&& c.path@ == commit.changes@[i].path@
                &&& c.added == commit.changes@[i].added
                &&& c.deleted == commit.changes@[i].deleted
                &&& c.excluded == globs::any_matches(excludes.globs(), c.path@)
                &&& c.test_like == globs::any_matches(tests.globs(), c.path@)
            },
{
    let mut changes: Vec<ClassedChange> = Vec::new();
    let mut i: usize = 0;
    while i < commit.changes.len()
        invariant
            i <= commit.changes@.len(),
            changes@.len() == i,
            forall|j: int|
                0 <= j < changes@.len() ==> {
                    let c = #[trigger] changes@[j];
                    &&& c.path@ == commit.changes@[j].path@
                    &&& c.added == commit.changes@[j].added
                    &&& c.deleted == commit.changes@[j].deleted
                    &&& c.excluded == globs::any_matches(excludes.globs(), c.path@)
                    &&& c.test_like == globs::any_matches(tests.globs(), c.path@)
                },
        decreases commit.changes@.len() - i,
    {
        let c = &commit.changes[i];
        changes.push(
            ClassedChange {
                path: c.path.clone(),
                added: c.added,
                deleted: c.deleted,
                excluded: excludes.matches(c.path.as_str()),
                test_like: tests.matches(c.path.as_str()),
            },
        );
        i += 1;
    }
    ClassedCommit {
        sha: commit.sha.clone(),
        author: commit.author.clone(),
        subject: commit.subject.clone(),
        timestamp: commit.timestamp,
        changes,
    }
}

/// The changes of a commit that count: none of a chore, and no excluded file.
pub open spec fn kept(c: ClassedCommit) -> Seq<ClassedChange> {
    if commits::skipped_subject(c.subject@) {
        Seq::empty()
    } else {
        c.changes@.filter(|x: ClassedChange| !x.excluded)
    }
}

/// A commit counts where one of its changes does.
pub fn filter_kept(c: &ClassedCommit) -> (out: Vec<usize>)
    ensures
        out@.len() == kept(*c).len(),
        forall|k: int|
            0 <= k < out@.len() ==> (#[trigger] out@[k]) < c.changes@.len() && c.changes@[out@[k] as int] == kept(*c)[k],
        forall|a: int, b: int| 0 <= a < b < out@.len() ==> #[trigger] out@[a] < #[trigger] out@[b],
{
    let mut out: Vec<usize> = Vec::new();
    if soft_skip(c.subject.as_str()) {
        return out;
    }
    let ghost keep = |x: ClassedChange| !x.excluded;
    let mut i: usize = 0;
    assert(c.changes@.take(0).filter(keep) =~= Seq::<ClassedChange>::empty()) by {
        reveal(Seq::filter);
    }
    while i < c.changes.len()
        invariant
            i <= c.changes@.len(),
            keep == (|x: ClassedChange| !x.excluded),
            out@.len() == c.changes@.take(i as int).filter(keep).len(),
            forall|k: int|
                0 <= k < out@.len() ==> (#[trigger] out@[k]) < c.changes@.len() && c.changes@[out@[k] as int]
                    == c.changes@.take(i as int).filter(keep)[k],
            forall|k: int| 0 <= k < out@.len() ==> #[trigger] out@[k] < i,
            forall|a: int, b: int| 0 <= a < b < out@.len() ==> #[trigger] out@[a] < #[trigger] out@[b],
        decreases c.changes@.len() - i,
    {
        proof {
            reveal(Seq::filter);
            assert(c.changes@.take(i + 1).drop_last() =~= c.changes@.take(i as int));
            assert(c.changes@.take(i + 1).last() == c.changes@[i as int]);
        }
        if !c.changes[i].excluded {
            out.push(i);
        }
        i += 1;
    }
    assert(c.changes@.take(c.changes@.len() as int) =~= c.changes@);
    out
}

// ---------------------------------------------------------------------------
// Files
// ---------------------------------------------------------------------------

/// One commit's touch of one file.
#[derive(Debug)]
pub struct Touch {
    pub path: String,
    pub fix: bool,
    pub timestamp: i64,
}

pub struct TouchView {
    pub path: Seq<char>,
    pub fix: bool,
    pub timestamp: i64,
}

impl View for Touch {
    type V = TouchView;

    open spec fn view(&self) -> TouchView {
        TouchView { path: self.path@, fix: self.fix, timestamp: self.timestamp }
    }
}

/// What is counted of a file.
pub struct FileCounts {
    pub total: nat,
    pub fixes: nat,
    pub last: Option<i64>,
}

pub open spec fn later(a: Option<i64>, b: Option<i64>) -> Option<i64> {
    match (a, b) {
        (Some(x), Some(y)) => if y > x {
            Some(y)
        } else {
            Some(x)
        },
        (Some(x), None) => Some(x),
        (None, y) => y,
    }
}

pub open spec fn earlier(a: Option<i64>, b: Option<i64>) -> Option<i64> {
    match (a, b) {
        (Some(x), Some(y)) => if y < x {
            Some(y)
        } else {
            Some(x)
        },
        (Some(x), None) => Some(x),
        (None, y) => y,
    }
}

/// What touches count to for a file.
pub open spec fn counts(touches: Seq<TouchView>, path: Seq<char>) -> FileCounts
    decreases touches.len(),
{
    if touches.len() == 0 {
        FileCounts { total: 0, fixes: 0, last: None }
    } else {
        let front = counts(touches.drop_last(), path);
        let t = touches.last();
        if t.path == path {
            FileCounts {
                total: front.total + 1,
                fixes: if t.fix {
                    front.fixes + 1
                } else {
                    front.fixes
                },
                last: later(front.last, Some(t.timestamp)),
            }
        } else {
            front
        }
    }
}

/// The counts of two stretches of history together.
pub open spec fn summed(a: FileCounts, b: FileCounts) -> FileCounts {
    FileCounts { total: a.total + b.total, fixes: a.fixes + b.fixes, last: later(a.last, b.last) }
}

/// Counting a history in two passes gives what counting it in one gives.
pub proof fn law_file_counts_compose(a: Seq<TouchView>, b: Seq<TouchView>, path: Seq<char>)
    ensures
        counts(a + b, path) == summed(counts(a, path), counts(b, path)),
    decreases b.len(),
{
    if b.len() == 0 {
        assert(a + b =~= a);
    } else {
        assert((a + b).drop_last() =~= a + b.drop_last());
        assert((a + b).last() == b.last());
        law_file_counts_compose(a, b.drop_last(), path);
    }
}

/// What is counted of a file.
#[derive(Debug)]
pub struct FileStats {
    pub path: String,
    pub fix_count: u32,
    pub total_commits: u32,
    pub last_commit_at: Option<i64>,
}

pub open spec fn states(s: FileStats, c: FileCounts) -> bool {
    s.total_commits == c.total && s.fix_count == c.fixes && s.last_commit_at == c.last
}

/// The list counts every touched file once and rightly.
pub open spec fn counts_files(list: Seq<FileStats>, touches: Seq<TouchView>) -> bool {
    &&& forall|i: int|
        0 <= i < list.len() ==> states(#[trigger] list[i], counts(touches, list[i].path@)) && list[i].total_commits > 0
    &&& forall|i: int, j: int|
        0 <= i < j < list.len() ==> (#[trigger] list[i]).path@ != (#[trigger] list[j]).path@
    &&& forall|k: int|
        0 <= k < touches.len() ==> exists|i: int|
            0 <= i < list.len() && (#[trigger] list[i]).path@ == (#[trigger] touches[k]).path
}

/// No file is touched more often than its counts can hold.
pub open spec fn file_counts_fit(touches: Seq<TouchView>) -> bool {
    forall|path: Seq<char>| (#[trigger] counts(touches, path)).total <= u32::MAX
}

proof fn lemma_counts_bound(touches: Seq<TouchView>, path: Seq<char>)
    ensures
        counts(touches, path).fixes <= counts(touches, path).total,
    decreases touches.len(),
{
    if touches.len() > 0 {
        lemma_counts_bound(touches.drop_last(), path);
    }
}

proof fn lemma_untouched(touches: Seq<TouchView>, path: Seq<char>)
    requires
        forall|k: int| 0 <= k < touches.len() ==> (#[trigger] touches[k]).path != path,
    ensures
        counts(touches, path) == (FileCounts { total: 0, fixes: 0, last: None }),
    decreases touches.len(),
{
    if touches.len() > 0 {
        let front = touches.drop_last();
        assert forall|k: int| 0 <= k < front.len() implies (#[trigger] front[k]).path != path by {
            assert(front[k] == touches[k]);
        }
        lemma_untouched(front, path);
        assert(touches[touches.len() - 1].path != path);
    }
}

fn find_file(list: &Vec<FileStats>, path: &str) -> (out: Option<usize>)
    ensures
        match out {
            Some(i) => i < list@.len() && list@[i as int].path@ == path@,
            None => forall|j: int| 0 <= j < list@.len() ==> (#[trigger] list@[j]).path@ != path@,
        },
{
    let mut i: usize = 0;
    while i < list.len()
        invariant
            i <= list@.len(),
            forall|j: int| 0 <= j < i ==> (#[trigger] list@[j]).path@ != path@,
        decreases list@.len() - i,
    {
        if same(list[i].path.as_str(), path) {
            return Some(i);
        }
        i += 1;
    }
    None
}

fn later_of(a: Option<i64>, t: i64) -> (out: Option<i64>)
    ensures
        out == later(a, Some(t)),
{
    match a {
        Some(x) => if t > x {
            Some(t)
        } else {
            Some(x)
        },
        None => Some(t),
    }
}

fn earlier_of(a: Option<i64>, t: i64) -> (out: Option<i64>)
    ensures
        out == earlier(a, Some(t)),
{
    match a {
        Some(x) => if t < x {
            Some(t)
        } else {
            Some(x)
        },
        None => Some(t),
    }
}

/// Counts one more touch.
fn count_touch(list: &mut Vec<FileStats>, t: &Touch, Ghost(touches): Ghost<Seq<TouchView>>)
    requires
        counts_files(old(list)@, touches),
        counts(touches.push(t@), t@.path).total <= u32::MAX,
    ensures
        counts_files(final(list)@, touches.push(t@)),
{
    let ghost more = touches.push(t@);
    let ghost was = list@;
    assert(more.drop_last() =~= touches);
    match find_file(list, t.path.as_str()) {
        Some(i) => {
            proof {
                lemma_counts_bound(touches, t@.path);
                assert(states(was[i as int], counts(touches, was[i as int].path@)));
            }
            let s = FileStats {
                path: list[i].path.clone(),
                total_commits: list[i].total_commits + 1,
                fix_count: if t.fix {
                    list[i].fix_count + 1
                } else {
                    list[i].fix_count
                },
                last_commit_at: later_of(list[i].last_commit_at, t.timestamp),
            };
            list.set(i, s);
            proof {
                assert forall|j: int| 0 <= j < list@.len() implies states(
                    #[trigger] list@[j],
                    counts(more, list@[j].path@),
                ) && list@[j].total_commits > 0 by {
                    if j != i {
                        assert(states(was[j], counts(touches, was[j].path@)));
                        assert(was[j].path@ != was[i as int].path@);
                    }
                }
                assert forall|k: int| 0 <= k < more.len() implies exists|j: int|
                    0 <= j < list@.len() && (#[trigger] list@[j]).path@ == (#[trigger] more[k]).path by {
                    if k < touches.len() {
                        let j = choose|j: int| 0 <= j < was.len() && (#[trigger] was[j]).path@ == touches[k].path;
                        assert(list@[j].path@ == more[k].path);
                    } else {
                        assert(list@[i as int].path@ == more[k].path);
                    }
                }
                assert forall|a: int, b: int| 0 <= a < b < list@.len() implies (#[trigger] list@[a]).path@ != (
                #[trigger] list@[b]).path@ by {
                    assert(was[a].path@ != was[b].path@);
                }
            }
        },
        None => {
            proof {
                assert forall|k: int| 0 <= k < touches.len() implies (#[trigger] touches[k]).path != t@.path by {
                    let j = choose|j: int| 0 <= j < was.len() && (#[trigger] was[j]).path@ == touches[k].path;
                    assert(was[j].path@ != t.path@);
                }
                lemma_untouched(touches, t@.path);
            }
            list.push(
                FileStats {
                    path: t.path.clone(),
                    total_commits: 1,
                    fix_count: if t.fix {
                        1
                    } else {
                        0
                    },
                    last_commit_at: Some(t.timestamp),
                },
            );
            proof {
                assert forall|j: int| 0 <= j < list@.len() implies states(
                    #[trigger] list@[j],
                    counts(more, list@[j].path@),
                ) && list@[j].total_commits > 0 by {
                    if j < was.len() {
                        assert(list@[j] == was[j]);
                        assert(states(was[j], counts(touches, was[j].path@)));
                        assert(was[j].path@ != t.path@);
                    }
                }
                assert forall|k: int| 0 <= k < more.len() implies exists|j: int|
                    0 <= j < list@.len() && (#[trigger] list@[j]).path@ == (#[trigger] more[k]).path by {
                    if k < touches.len() {
                        let j = choose|j: int| 0 <= j < was.len() && (#[trigger] was[j]).path@ == touches[k].path;
                        assert(list@[j].path@ == more[k].path);
                    } else {
                        assert(list@[was.len() as int].path@ == more[k].path);
                    }
                }
                assert forall|a: int, b: int| 0 <= a < b < list@.len() implies (#[trigger] list@[a]).path@ != (
                #[trigger] list@[b]).path@ by {
                    if b < was.len() {
                        assert(was[a].path@ != was[b].path@);
                    } else {
                        assert(was[a].path@ != t.path@);
                    }
                }
            }
        },
    }
}

/// Counts touches by file.
pub fn count_files(touches: &Vec<Touch>) -> (out: Vec<FileStats>)
    requires
        file_counts_fit(text::views(touches@)),
    ensures
        counts_files(out@, text::views(touches@)),
{
    broadcast use text::group_views;
    let ghost all = text::views(touches@);
    let mut out: Vec<FileStats> = Vec::new();
    let mut i: usize = 0;
    while i < touches.len()
        invariant
            i <= touches@.len(),
            file_counts_fit(all),
            all == text::views(touches@),
            counts_files(out@, all.take(i as int)),
        decreases touches@.len() - i,
    {
        broadcast use text::group_views;
        assert(all.take(i + 1) =~= all.take(i as int).push(touches@[i as int]@));
        proof {
            let path = touches@[i as int]@.path;
            law_file_counts_compose(all.take(i + 1), all.skip(i + 1), path);
            assert(all.take(i + 1) + all.skip(i + 1) =~= all);
            assert(counts(all, path).total <= u32::MAX);
        }
        count_touch(&mut out, &touches[i], Ghost(all.take(i as int)));
        i += 1;
    }
    assert(all.take(all.len() as int) =~= all);
    out
}

// ---------------------------------------------------------------------------
// Pairs of files
// ---------------------------------------------------------------------------

/// Two files that changed together in one commit, in the order of their paths.
#[derive(Debug)]
pub struct PairTouch {
    pub a: String,
    pub b: String,
    pub timestamp: i64,
}

pub struct PairTouchView {
    pub a: Seq<char>,
    pub b: Seq<char>,
    pub timestamp: i64,
}

impl View for PairTouch {
    type V = PairTouchView;

    open spec fn view(&self) -> PairTouchView {
        PairTouchView { a: self.a@, b: self.b@, timestamp: self.timestamp }
    }
}

pub open spec fn ordered(x: Seq<char>, y: Seq<char>, timestamp: i64) -> PairTouchView {
    if order::text_before(x, y) {
        PairTouchView { a: x, b: y, timestamp }
    } else {
        PairTouchView { a: y, b: x, timestamp }
    }
}

/// The pairs of the `i`-th change with those from the `j`-th on, and of all
/// later ones. Two tests make no pair.
pub open spec fn pairs_from(changes: Seq<ClassedChange>, timestamp: i64, i: int, j: int) -> Seq<PairTouchView>
    decreases changes.len() - i, changes.len() - j,
    when 0 <= i && 0 <= j
{
    if i >= changes.len() {
        Seq::empty()
    } else if j >= changes.len() {
        pairs_from(changes, timestamp, i + 1, i + 2)
    } else {
        let rest = pairs_from(changes, timestamp, i, j + 1);
        if changes[i].test_like && changes[j].test_like {
            rest
        } else {
            seq![ordered(changes[i].path@, changes[j].path@, timestamp)] + rest
        }
    }
}

/// The pairs that a commit makes.
pub open spec fn commit_pairs(changes: Seq<ClassedChange>, timestamp: i64) -> Seq<PairTouchView> {
    if changes.len() > MAX_FILES_PER_COMMIT_FOR_COCHANGE {
        Seq::empty()
    } else {
        pairs_from(changes, timestamp, 0, 1)
    }
}

fn append_pairs(c: &ClassedCommit, places: &Vec<usize>, out: &mut Vec<PairTouch>)
    requires
        places@.len() == kept(*c).len(),
        forall|k: int|
            0 <= k < places@.len() ==> (#[trigger] places@[k]) < c.changes@.len() && c.changes@[places@[k] as int]
                == kept(*c)[k],
    ensures
        text::views(final(out)@) == text::views(old(out)@) + commit_pairs(kept(*c), c.timestamp),
{
    broadcast use text::group_views;
    let ghost start = text::views(out@);
    let ghost all = kept(*c);
    let ghost ts = c.timestamp;
    let n: usize = places.len();
    if n > MAX_FILES_PER_COMMIT_FOR_COCHANGE {
        assert(start + Seq::<PairTouchView>::empty() =~= start);
        return ;
    }
    let mut i: usize = 0;
    let ghost want = start + pairs_from(all, ts, 0, 1);
    while i < n
        invariant
            i <= n,
            n == places@.len(),
            n == all.len(),
            n <= MAX_FILES_PER_COMMIT_FOR_COCHANGE,
            all == kept(*c),
            ts == c.timestamp,
            forall|k: int|
                0 <= k < places@.len() ==> (#[trigger] places@[k]) < c.changes@.len() && c.changes@[places@[k] as int]
                    == all[k],
            want == text::views(out@) + pairs_from(all, ts, i as int, i + 1),
        decreases n - i,
    {
        broadcast use text::group_views;
        let mut j: usize = i + 1;
        while j < n
            invariant
                i < n,
                i + 1 <= j <= n,
                n == places@.len(),
                n == all.len(),
                n <= MAX_FILES_PER_COMMIT_FOR_COCHANGE,
                all == kept(*c),
                ts == c.timestamp,
                forall|k: int|
                    0 <= k < places@.len() ==> (#[trigger] places@[k]) < c.changes@.len()
                        && c.changes@[places@[k] as int] == all[k],
                want == text::views(out@) + pairs_from(all, ts, i as int, j as int),
            decreases n - j,
        {
            broadcast use text::group_views;
            assert(places@[i as int] < c.changes@.len() && places@[j as int] < c.changes@.len());
            let x = &c.changes[places[i]];
            let y = &c.changes[places[j]];
            assert(*x == all[i as int] && *y == all[j as int]);
            if !(x.test_like && y.test_like) {
                let ghost before_push = text::views(out@);
                let ghost rest = pairs_from(all, ts, i as int, j + 1);
                let p = if before(x.path.as_str(), y.path.as_str()) {
                    PairTouch { a: x.path.clone(), b: y.path.clone(), timestamp: c.timestamp }
                } else {
                    PairTouch { a: y.path.clone(), b: x.path.clone(), timestamp: c.timestamp }
                };
                out.push(p);
                assert(before_push + (seq![p@] + rest) =~= before_push.push(p@) + rest);
            }
            j += 1;
        }
        i += 1;
        assert(pairs_from(all, ts, i - 1, n as int) == pairs_from(all, ts, i as int, i + 1));
    }
    assert(pairs_from(all, ts, n as int, n + 1) =~= Seq::<PairTouchView>::empty());
    assert(text::views(out@) + Seq::<PairTouchView>::empty() =~= text::views(out@));
}

/// What is counted of a pair.
pub struct PairCounts {
    pub count: nat,
    pub first: Option<i64>,
    pub last: Option<i64>,
    pub mask: u64,
}

/// What touches count to for a pair.
pub open spec fn pair_counts(touches: Seq<PairTouchView>, a: Seq<char>, b: Seq<char>) -> PairCounts
    decreases touches.len(),
{
    if touches.len() == 0 {
        PairCounts { count: 0, first: None, last: None, mask: 0 }
    } else {
        let front = pair_counts(touches.drop_last(), a, b);
        let t = touches.last();
        if t.a == a && t.b == b {
            PairCounts {
                count: front.count + 1,
                first: earlier(front.first, Some(t.timestamp)),
                last: later(front.last, Some(t.timestamp)),
                mask: front.mask | bit_of(t.timestamp as int),
            }
        } else {
            front
        }
    }
}

/// The counts of two stretches of history together.
pub open spec fn joined_counts(x: PairCounts, y: PairCounts) -> PairCounts {
    PairCounts {
        count: x.count + y.count,
        first: earlier(x.first, y.first),
        last: later(x.last, y.last),
        mask: x.mask | y.mask,
    }
}

/// Counting pairs in two passes gives what counting them in one gives: the
/// counts add up, the span widens, and the masks are joined bit by bit.
pub proof fn law_pair_counts_compose(x: Seq<PairTouchView>, y: Seq<PairTouchView>, a: Seq<char>, b: Seq<char>)
    ensures
        pair_counts(x + y, a, b) == joined_counts(pair_counts(x, a, b), pair_counts(y, a, b)),
    decreases y.len(),
{
    if y.len() == 0 {
        assert(x + y =~= x);
        let m = pair_counts(x, a, b).mask;
        assert(m | 0u64 == m) by (bit_vector);
    } else {
        assert((x + y).drop_last() =~= x + y.drop_last());
        assert((x + y).last() == y.last());
        law_pair_counts_compose(x, y.drop_last(), a, b);
        let m = pair_counts(x, a, b).mask;
        let n = pair_counts(y.drop_last(), a, b).mask;
        let t = bit_of(y.last().timestamp as int);
        assert((m | n) | t == m | (n | t)) by (bit_vector);
    }
}

/// The order in which a history is met does not matter to what is counted of
/// a pair.
pub proof fn law_the_order_of_touches_does_not_matter(
    x: Seq<PairTouchView>,
    y: Seq<PairTouchView>,
    a: Seq<char>,
    b: Seq<char>,
)
    ensures
        pair_counts(x + y, a, b) == pair_counts(y + x, a, b),
{
    law_pair_counts_compose(x, y, a, b);
    law_pair_counts_compose(y, x, a, b);
    let m = pair_counts(x, a, b).mask;
    let n = pair_counts(y, a, b).mask;
    assert(m | n == n | m) by (bit_vector);
}

/// What is counted of a pair of files.
#[derive(Debug)]
pub struct PairStats {
    pub a: String,
    pub b: String,
    pub count: u32,
    pub first_observed_at: Option<i64>,
    pub last_observed_at: Option<i64>,
    pub window_mask: u64,
}

pub open spec fn states_pair(s: PairStats, c: PairCounts) -> bool {
    s.count == c.count && s.first_observed_at == c.first && s.last_observed_at == c.last && s.window_mask == c.mask
}

pub open spec fn is_pair(s: PairStats, t: PairTouchView) -> bool {
    s.a@ == t.a && s.b@ == t.b
}

/// The list counts every touched pair once and rightly.
pub open spec fn counts_pairs(list: Seq<PairStats>, touches: Seq<PairTouchView>) -> bool {
    &&& forall|i: int|
        0 <= i < list.len() ==> states_pair(#[trigger] list[i], pair_counts(touches, list[i].a@, list[i].b@))
            && list[i].count > 0
    &&& forall|i: int, j: int|
        0 <= i < j < list.len() ==> !((#[trigger] list[i]).a@ == (#[trigger] list[j]).a@ && list[i].b@ == list[j].b@)
    &&& forall|k: int|
        0 <= k < touches.len() ==> exists|i: int|
            0 <= i < list.len() && is_pair(#[trigger] list[i], #[trigger] touches[k])
}

/// No pair is touched more often than its count can hold.
pub open spec fn pair_counts_fit(touches: Seq<PairTouchView>) -> bool {
    forall|a: Seq<char>, b: Seq<char>| (#[trigger] pair_counts(touches, a, b)).count <= u32::MAX
}

proof fn lemma_pair_untouched(touches: Seq<PairTouchView>, a: Seq<char>, b: Seq<char>)
    requires
        forall|k: int| 0 <= k < touches.len() ==> !((#[trigger] touches[k]).a == a && touches[k].b == b),
    ensures
        pair_counts(touches, a, b) == (PairCounts { count: 0, first: None, last: None, mask: 0 }),
    decreases touches.len(),
{
    if touches.len() > 0 {
        let front = touches.drop_last();
        assert forall|k: int| 0 <= k < front.len() implies !((#[trigger] front[k]).a == a && front[k].b == b) by {
            assert(front[k] == touches[k]);
        }
        lemma_pair_untouched(front, a, b);
        assert(!(touches[touches.len() - 1].a == a && touches[touches.len() - 1].b == b));
    }
}

fn find_pair(list: &Vec<PairStats>, t: &PairTouch) -> (out: Option<usize>)
    ensures
        match out {
            Some(i) => i < list@.len() && is_pair(list@[i as int], t@),
            None => forall|j: int| 0 <= j < list@.len() ==> !is_pair(#[trigger] list@[j], t@),
        },
{
    let mut i: usize = 0;
    while i < list.len()
        invariant
            i <= list@.len(),
            forall|j: int| 0 <= j < i ==> !is_pair(#[trigger] list@[j], t@),
        decreases list@.len() - i,
    {
        if same(list[i].a.as_str(), t.a.as_str()) && same(list[i].b.as_str(), t.b.as_str()) {
            return Some(i);
        }
        i += 1;
    }
    None
}

fn count_pair_touch(list: &mut Vec<PairStats>, t: &PairTouch, Ghost(touches): Ghost<Seq<PairTouchView>>)
    requires
        counts_pairs(old(list)@, touches),
        pair_counts(touches.push(t@), t@.a, t@.b).count <= u32::MAX,
    ensures
        counts_pairs(final(list)@, touches.push(t@)),
{
    let ghost more = touches.push(t@);
    let ghost was = list@;
    assert(more.drop_last() =~= touches);
    match find_pair(list, t) {
        Some(i) => {
            proof {
                assert(states_pair(was[i as int], pair_counts(touches, was[i as int].a@, was[i as int].b@)));
            }
            let s = PairStats {
                a: list[i].a.clone(),
                b: list[i].b.clone(),
                count: list[i].count + 1,
                first_observed_at: earlier_of(list[i].first_observed_at, t.timestamp),
                last_observed_at: later_of(list[i].last_observed_at, t.timestamp),
                window_mask: list[i].window_mask | window_bit(t.timestamp),
            };
            list.set(i, s);
            proof {
                assert forall|j: int| 0 <= j < list@.len() implies states_pair(
                    #[trigger] list@[j],
                    pair_counts(more, list@[j].a@, list@[j].b@),
                ) && list@[j].count > 0 by {
                    if j != i {
                        assert(states_pair(was[j], pair_counts(touches, was[j].a@, was[j].b@)));
                        if j < i {
                            assert(!(was[j].a@ == was[i as int].a@ && was[j].b@ == was[i as int].b@));
                        } else {
                            assert(!(was[i as int].a@ == was[j].a@ && was[i as int].b@ == was[j].b@));
                        }
                    }
                }
                assert forall|k: int| 0 <= k < more.len() implies exists|j: int|
                    0 <= j < list@.len() && is_pair(#[trigger] list@[j], #[trigger] more[k]) by {
                    if k < touches.len() {
                        let j = choose|j: int| 0 <= j < was.len() && is_pair(#[trigger] was[j], touches[k]);
                        assert(is_pair(list@[j], more[k]));
                    } else {
                        assert(is_pair(list@[i as int], more[k]));
                    }
                }
                assert forall|x: int, y: int| 0 <= x < y < list@.len() implies !((#[trigger] list@[x]).a@ == (
                #[trigger] list@[y]).a@ && list@[x].b@ == list@[y].b@) by {
                    assert(!(was[x].a@ == was[y].a@ && was[x].b@ == was[y].b@));
                }
            }
        },
        None => {
            proof {
                assert forall|k: int| 0 <= k < touches.len() implies !((#[trigger] touches[k]).a == t@.a && touches[k].b
                    == t@.b) by {
                    let j = choose|j: int| 0 <= j < was.len() && is_pair(#[trigger] was[j], touches[k]);
                    assert(!is_pair(was[j], t@));
                }
                lemma_pair_untouched(touches, t@.a, t@.b);
            }
            let bit: u64 = window_bit(t.timestamp);
            assert(0u64 | bit == bit) by (bit_vector);
            list.push(
                PairStats {
                    a: t.a.clone(),
                    b: t.b.clone(),
                    count: 1,
                    first_observed_at: Some(t.timestamp),
                    last_observed_at: Some(t.timestamp),
                    window_mask: bit,
                },
            );
            proof {
                assert forall|j: int| 0 <= j < list@.len() implies states_pair(
                    #[trigger] list@[j],
                    pair_counts(more, list@[j].a@, list@[j].b@),
                ) && list@[j].count > 0 by {
                    if j < was.len() {
                        assert(list@[j] == was[j]);
                        assert(states_pair(was[j], pair_counts(touches, was[j].a@, was[j].b@)));
                        assert(!is_pair(was[j], t@));
                    }
                }
                assert forall|k: int| 0 <= k < more.len() implies exists|j: int|
                    0 <= j < list@.len() && is_pair(#[trigger] list@[j], #[trigger] more[k]) by {
                    if k < touches.len() {
                        let j = choose|j: int| 0 <= j < was.len() && is_pair(#[trigger] was[j], touches[k]);
                        assert(is_pair(list@[j], more[k]));
                    } else {
                        assert(is_pair(list@[was.len() as int], more[k]));
                    }
                }
                assert forall|x: int, y: int| 0 <= x < y < list@.len() implies !((#[trigger] list@[x]).a@ == (
                #[trigger] list@[y]).a@ && list@[x].b@ == list@[y].b@) by {
                    if y < was.len() {
                        assert(!(was[x].a@ == was[y].a@ && was[x].b@ == was[y].b@));
                    } else {
                        assert(!is_pair(was[x], t@));
                    }
                }
            }
        },
    }
}

/// Counts touches by pair.
pub fn count_pairs(touches: &Vec<PairTouch>) -> (out: Vec<PairStats>)
    requires
        pair_counts_fit(text::views(touches@)),
    ensures
        counts_pairs(out@, text::views(touches@)),
{
    broadcast use text::group_views;
    let ghost all = text::views(touches@);
    let mut out: Vec<PairStats> = Vec::new();
    let mut i: usize = 0;
    while i < touches.len()
        invariant
            i <= touches@.len(),
            pair_counts_fit(all),
            all == text::views(touches@),
            counts_pairs(out@, all.take(i as int)),
        decreases touches@.len() - i,
    {
        broadcast use text::group_views;
        assert(all.take(i + 1) =~= all.take(i as int).push(touches@[i as int]@));
        proof {
            let t = touches@[i as int]@;
            law_pair_counts_compose(all.take(i + 1), all.skip(i + 1), t.a, t.b);
            assert(all.take(i + 1) + all.skip(i + 1) =~= all);
            assert(pair_counts(all, t.a, t.b).count <= u32::MAX);
        }
        count_pair_touch(&mut out, &touches[i], Ghost(all.take(i as int)));
        i += 1;
    }
    assert(all.take(all.len() as int) =~= all);
    out
}

/// How many pairs changed together often enough to be shown.
pub open spec fn shown_pairs(list: Seq<PairStats>) -> nat {
    list.filter(|p: PairStats| p.count >= MIN_CO_CHANGE_COUNT).len()
}

pub fn count_shown(list: &Vec<PairStats>) -> (n: usize)
    ensures
        n == shown_pairs(list@),
{
    let ghost keep = |p: PairStats| p.count >= MIN_CO_CHANGE_COUNT;
    let mut n: usize = 0;
    let mut i: usize = 0;
    assert(list@.take(0).filter(keep) =~= Seq::<PairStats>::empty()) by {
        reveal(Seq::filter);
    }
    while i < list.len()
        invariant
            i <= list@.len(),
            keep == (|p: PairStats| p.count >= MIN_CO_CHANGE_COUNT),
            n == list@.take(i as int).filter(keep).len(),
            n <= i,
        decreases list@.len() - i,
    {
        proof {
            reveal(Seq::filter);
            assert(list@.take(i + 1).drop_last() =~= list@.take(i as int));
            assert(list@.take(i + 1).last() == list@[i as int]);
        }
        if list[i].count >= MIN_CO_CHANGE_COUNT {
            n += 1;
        }
        i += 1;
    }
    assert(list@.take(list@.len() as int) =~= list@);
    n
}

// ---------------------------------------------------------------------------
// A stretch of history
// ---------------------------------------------------------------------------

/// What an author did to a file in one commit.
#[derive(Debug)]
pub struct AuthorTouch {
    pub path: String,
    pub sha: String,
    pub author: String,
    pub timestamp: i64,
}

pub struct AuthorTouchView {
    pub path: Seq<char>,
    pub sha: Seq<char>,
    pub author: Seq<char>,
    pub timestamp: i64,
}

impl View for AuthorTouch {
    type V = AuthorTouchView;

    open spec fn view(&self) -> AuthorTouchView {
        AuthorTouchView { path: self.path@, sha: self.sha@, author: self.author@, timestamp: self.timestamp }
    }
}

/// The touches, pairs and author events of a stretch of history.
#[derive(Debug)]
pub struct Stretch {
    pub commits_scanned: usize,
    pub touches: Vec<Touch>,
    pub pairs: Vec<PairTouch>,
    pub authors: Vec<AuthorTouch>,
}

pub open spec fn commit_touches(c: ClassedCommit) -> Seq<TouchView> {
    kept(c).map_values(
        |x: ClassedChange| TouchView {
            path: x.path@,
            fix: commits::fix_subject(text::lowered(c.subject@)),
            timestamp: c.timestamp,
        },
    )
}

pub open spec fn commit_authors(c: ClassedCommit) -> Seq<AuthorTouchView> {
    kept(c).map_values(
        |x: ClassedChange| AuthorTouchView {
            path: x.path@,
            sha: c.sha@,
            author: c.author@,
            timestamp: c.timestamp,
        },
    )
}

pub open spec fn all_touches(cs: Seq<ClassedCommit>) -> Seq<TouchView>
    decreases cs.len(),
{
    if cs.len() == 0 {
        Seq::empty()
    } else {
        all_touches(cs.drop_last()) + commit_touches(cs.last())
    }
}

pub open spec fn all_pairs(cs: Seq<ClassedCommit>) -> Seq<PairTouchView>
    decreases cs.len(),
{
    if cs.len() == 0 {
        Seq::empty()
    } else {
        all_pairs(cs.drop_last()) + commit_pairs(kept(cs.last()), cs.last().timestamp)
    }
}

pub open spec fn all_authors(cs: Seq<ClassedCommit>) -> Seq<AuthorTouchView>
    decreases cs.len(),
{
    if cs.len() == 0 {
        Seq::empty()
    } else {
        all_authors(cs.drop_last()) + commit_authors(cs.last())
    }
}

/// How many commits count.
pub open spec fn counting(cs: Seq<ClassedCommit>) -> nat
    decreases cs.len(),
{
    if cs.len() == 0 {
        0
    } else {
        counting(cs.drop_last()) + (if kept(cs.last()).len() > 0 {
            1nat
        } else {
            0
        })
    }
}

impl Stretch {
    pub fn none() -> (out: Stretch)
        ensures
            out.commits_scanned == 0,
            out.touches@.len() == 0,
            out.pairs@.len() == 0,
            out.authors@.len() == 0,
    {
        Stretch { commits_scanned: 0, touches: Vec::new(), pairs: Vec::new(), authors: Vec::new() }
    }

    /// Adds what a commit did.
    pub fn accumulate(&mut self, c: &ClassedCommit)
        requires
            old(self).commits_scanned < usize::MAX,
        ensures
            final(self).commits_scanned == old(self).commits_scanned + (if kept(*c).len() > 0 {
                1int
            } else {
                0
            }),
            text::views(final(self).touches@) == text::views(old(self).touches@) + commit_touches(*c),
            text::views(final(self).pairs@) == text::views(old(self).pairs@) + commit_pairs(kept(*c), c.timestamp),
            text::views(final(self).authors@) == text::views(old(self).authors@) + commit_authors(*c),
    {
        broadcast use text::group_views;
        let places = filter_kept(c);
        let ghost all = kept(*c);
        let ghost start_t = text::views(self.touches@);
        let ghost start_a = text::views(self.authors@);
        let ghost want_t = commit_touches(*c);
        let ghost want_a = commit_authors(*c);
        let fix = is_fix_commit(c.subject.as_str());
        let mut k: usize = 0;
        assert(start_t + want_t.take(0) =~= start_t);
        assert(start_a + want_a.take(0) =~= start_a);
        while k < places.len()
            invariant
                k <= places@.len(),
                all == kept(*c),
                places@.len() == all.len(),
                forall|j: int|
                    0 <= j < places@.len() ==> (#[trigger] places@[j]) < c.changes@.len()
                        && c.changes@[places@[j] as int] == all[j],
                want_t == commit_touches(*c),
                want_a == commit_authors(*c),
                fix == commits::fix_subject(text::lowered(c.subject@)),
                self.commits_scanned == old(self).commits_scanned,
                self.pairs == old(self).pairs,
                text::views(self.touches@) == start_t + want_t.take(k as int),
                text::views(self.authors@) == start_a + want_a.take(k as int),
            decreases places@.len() - k,
        {
            broadcast use text::group_views;
            assert(places@[k as int] < c.changes@.len());
            let x = &c.changes[places[k]];
            assert(*x == all[k as int]);
            assert(want_t.take(k + 1) =~= want_t.take(k as int).push(want_t[k as int]));
            assert(want_a.take(k + 1) =~= want_a.take(k as int).push(want_a[k as int]));
            self.touches.push(Touch { path: x.path.clone(), fix, timestamp: c.timestamp });
            self.authors.push(
                AuthorTouch {
                    path: x.path.clone(),
                    sha: c.sha.clone(),
                    author: c.author.clone(),
                    timestamp: c.timestamp,
                },
            );
            assert(text::views(self.touches@) =~= start_t + want_t.take(k + 1));
            assert(text::views(self.authors@) =~= start_a + want_a.take(k + 1));
            k += 1;
        }
        assert(want_t.take(want_t.len() as int) =~= want_t);
        assert(want_a.take(want_a.len() as int) =~= want_a);
        append_pairs(c, &places, &mut self.pairs);
        if places.len() > 0 {
            self.commits_scanned = self.commits_scanned + 1;
        }
    }
}

/// Scans commits in order.
pub fn scan(cs: &Vec<ClassedCommit>) -> (out: Stretch)
    ensures
        out.commits_scanned == counting(cs@),
        text::views(out.touches@) == all_touches(cs@),
        text::views(out.pairs@) == all_pairs(cs@),
        text::views(out.authors@) == all_authors(cs@),
{
    broadcast use text::group_views;
    let mut out = Stretch::none();
    let mut i: usize = 0;
    assert(text::views(out.touches@) =~= all_touches(cs@.take(0)));
    assert(text::views(out.pairs@) =~= all_pairs(cs@.take(0)));
    assert(text::views(out.authors@) =~= all_authors(cs@.take(0)));
    while i < cs.len()
        invariant
            i <= cs@.len(),
            out.commits_scanned <= i,
            out.commits_scanned == counting(cs@.take(i as int)),
            text::views(out.touches@) == all_touches(cs@.take(i as int)),
            text::views(out.pairs@) == all_pairs(cs@.take(i as int)),
            text::views(out.authors@) == all_authors(cs@.take(i as int)),
        decreases cs@.len() - i,
    {
        proof {
            assert(cs@.take(i + 1).drop_last() =~= cs@.take(i as int));
            assert(cs@.take(i + 1).last() == cs@[i as int]);
        }
        out.accumulate(&cs[i]);
        i += 1;
    }
    assert(cs@.take(cs@.len() as int) =~= cs@);
    out
}

/// A scan of one stretch after another finds what a scan of both finds.
pub proof fn law_scans_compose(a: Seq<ClassedCommit>, b: Seq<ClassedCommit>)
    ensures
        all_touches(a + b) == all_touches(a) + all_touches(b),
        all_pairs(a + b) == all_pairs(a) + all_pairs(b),
        all_authors(a + b) == all_authors(a) + all_authors(b),
        counting(a + b) == counting(a) + counting(b),
    decreases b.len(),
{
    if b.len() == 0 {
        assert(a + b =~= a);
        assert(all_touches(a) + all_touches(b) =~= all_touches(a));
        assert(all_pairs(a) + all_pairs(b) =~= all_pairs(a));
        assert(all_authors(a) + all_authors(b) =~= all_authors(a));
    } else {
        assert((a + b).drop_last() =~= a + b.drop_last());
        assert((a + b).last() == b.last());
        law_scans_compose(a, b.drop_last());
        assert(all_touches(a + b) =~= all_touches(a) + all_touches(b));
        assert(all_pairs(a + b) =~= all_pairs(a) + all_pairs(b));
        assert(all_authors(a + b) =~= all_authors(a) + all_authors(b));
    }
}

/// A commit of test files alone makes no pairs.
pub proof fn law_a_commit_of_tests_makes_no_pairs(changes: Seq<ClassedChange>, timestamp: i64, i: int, j: int)
    requires
        0 <= i,
        0 <= j,
        forall|k: int| 0 <= k < changes.len() ==> (#[trigger] changes[k]).test_like,
    ensures
        pairs_from(changes, timestamp, i, j).len() == 0,
    decreases changes.len() - i, changes.len() - j,
{
    if i < changes.len() {
        if j >= changes.len() {
            law_a_commit_of_tests_makes_no_pairs(changes, timestamp, i + 1, i + 2);
        } else {
            law_a_commit_of_tests_makes_no_pairs(changes, timestamp, i, j + 1);
        }
    }
}

} // verus!
