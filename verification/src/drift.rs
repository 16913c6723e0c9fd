//! How far the structural index lags behind the checked-out commit, and what
//! that says about reindexing.
use vstd::prelude::*;
use vstd::string::*;
use crate::text;
use crate::text::{
    concat2, concat3, concat4, concat5, decimal_of, hex_only, join, parse_up_to, same, signed_of,
    trim,
};

verus! {

/// Indexed paths whose content at the head commit is compared. Past it the
/// count is a lower bound.
pub const MAX_DRIFT_CANDIDATES: usize = 2_000;

/// Wall-clock budget of the comparison, in milliseconds.
pub const DRIFT_CONTENT_BUDGET_MS: u64 = 500;

/// A blob past this size is reported affected instead of read.
pub const MAX_DRIFT_BLOB_BYTES: u64 = 16_777_216;

/// Affected paths named in the drift summary.
pub const DRIFT_SAMPLE: usize = 5;

/// How the indexed commit relates to the head commit.
#[derive(Debug, Clone, Copy, PartialEq, Eq, Structural)]
pub enum DriftKind {
    /// Not a git repository; nothing to measure.
    NotGit,
    /// A git repository whose structural index has never been stamped.
    NeverIndexed,
    /// The indexed commit is the head commit.
    Fresh,
    /// The head commit is ahead of the indexed commit on the same line.
    BehindHead,
    /// The indexed commit is no ancestor of the head commit.
    UnrelatedAncestor,
    /// The comparison of the two commits failed.
    Unknown,
}

/// The drift of a project's structural index.
#[derive(Debug)]
pub struct DriftReport {
    /// The commit the structural index was last built against.
    pub stored_sha: Option<String>,
    /// The head commit.
    pub head_sha: Option<String>,
    /// When the index was last stamped, in seconds since the epoch.
    pub stored_at: Option<i64>,
    /// Commits between the two, where the first is an ancestor of the second;
    /// zero where they are one.
    pub commits_between: Option<u32>,
    /// Indexed files whose content at the head commit differs from the indexed
    /// content; nothing where the comparison could not run.
    pub indexed_files_behind: Option<usize>,
    /// The first few affected paths.
    pub indexed_files_behind_sample: Vec<String>,
    /// The comparison stopped early, so the count is a lower bound.
    pub indexed_files_behind_bounded: bool,
    pub kind: DriftKind,
}

// ---------------------------------------------------------------------------
// Texts
// ---------------------------------------------------------------------------

pub open spec fn plural(n: nat) -> Seq<char> {
    if n == 1 {
        ""@
    } else {
        "s"@
    }
}

fn plural_of(n: u64) -> (out: &'static str)
    ensures
        out@ == plural(n as nat),
{
    if n == 1 {
        ""
    } else {
        "s"
    }
}

/// A commit name cut to twelve digits; anything that is no hexadecimal number
/// stays as it is, so a malformed stamp shows up verbatim.
pub open spec fn shortened(sha: Seq<char>) -> Seq<char> {
    if sha.len() > 12 && text::all_hex(sha) {
        sha.take(12)
    } else {
        sha
    }
}

/// Cuts a commit name for display.
pub fn short(sha: &str) -> (out: String)
    ensures
        out@ == shortened(sha@),
{
    if sha.unicode_len() > 12 && hex_only(sha) {
        let head = sha.substring_char(0, 12);
        assert(sha@.subrange(0, 12) == sha@.take(12));
        head.to_string()
    } else {
        sha.to_string()
    }
}

/// `n` units of time ago.
pub open spec fn units_ago(n: nat, unit: Seq<char>) -> Seq<char> {
    text::decimal(n) + unit + plural(n) + " ago"@
}

/// How long before `now` the instant `unix` was, in words.
pub open spec fn age(now: int, unix: int) -> Seq<char> {
    let delta = now - unix;
    if delta < 0 {
        "in the future? ts="@ + text::signed(unix)
    } else if delta < 60 {
        "just now"@
    } else if delta < 3600 {
        units_ago((delta / 60) as nat, " minute"@)
    } else if delta < 86_400 {
        units_ago((delta / 3600) as nat, " hour"@)
    } else {
        units_ago((delta / 86_400) as nat, " day"@)
    }
}

fn units_ago_of(n: u64, unit: &str) -> (out: String)
    ensures
        out@ == units_ago(n as nat, unit@),
{
    concat4(decimal_of(n).as_str(), unit, plural_of(n), " ago")
}

/// Says how long before `now` the instant `unix` was.
pub fn fmt_ts(now: i64, unix: i64) -> (out: String)
    ensures
        out@ == age(now as int, unix as int),
{
    let delta: i128 = now as i128 - unix as i128;
    if delta < 0 {
        concat2("in the future? ts=", signed_of(unix).as_str())
    } else if delta < 60 {
        "just now".to_string()
    } else if delta < 3600 {
        units_ago_of((delta / 60) as u64, " minute")
    } else if delta < 86_400 {
        units_ago_of((delta / 3600) as u64, " hour")
    } else {
        assert(delta <= 0xffff_ffff_ffff_ffff);
        units_ago_of((delta / 86_400) as u64, " day")
    }
}

// ---------------------------------------------------------------------------
// The report
// ---------------------------------------------------------------------------

/// The index is off the head commit and nothing clears it: at least one
/// indexed file differs, or the comparison did not run, or it stopped early.
/// Where the commits themselves could not be compared, only a comparison of
/// contents that ran is evidence.
pub open spec fn stale(r: DriftReport) -> bool {
    let differs = r.indexed_files_behind != Some(0usize) || r.indexed_files_behind_bounded;
    match r.kind {
        DriftKind::BehindHead | DriftKind::UnrelatedAncestor => differs,
        DriftKind::Unknown => r.indexed_files_behind is Some && differs,
        _ => false,
    }
}

/// How many indexed files the commit range touched, in words.
pub open spec fn affected(r: DriftReport) -> Option<Seq<char>> {
    match r.indexed_files_behind {
        None => None,
        Some(n) => Some(
            if n == 0 {
                if r.indexed_files_behind_bounded {
                    "no differing indexed file found before the comparison stopped"@
                } else {
                    "0 indexed files affected (index content matches HEAD)"@
                }
            } else {
                affected_count(n as nat, r.indexed_files_behind_bounded) + affected_names(
                    n as nat,
                    text::views(r.indexed_files_behind_sample@),
                )
            },
        ),
    }
}

pub open spec fn affected_count(n: nat, bounded: bool) -> Seq<char> {
    (if bounded {
        "at least "@
    } else {
        ""@
    }) + text::decimal(n) + " indexed file"@ + plural(n) + " affected"@
}

pub open spec fn affected_names(n: nat, sample: Seq<Seq<char>>) -> Seq<char> {
    if sample.len() == 0 {
        ""@
    } else {
        " ("@ + text::joined(sample, ", "@) + (if n > sample.len() {
            ", …"@
        } else {
            ""@
        }) + ")"@
    }
}

/// A clause behind its separator, where there is one.
pub open spec fn then_clause(sep: Seq<char>, clause: Option<Seq<char>>) -> Seq<char> {
    match clause {
        Some(c) => sep + c,
        None => ""@,
    }
}

pub open spec fn fresh_text(r: DriftReport, now: int) -> Seq<char> {
    match (r.head_sha, r.stored_at) {
        (Some(h), Some(at)) => "fresh (HEAD "@ + shortened(h@) + " indexed "@ + age(now, at as int) + ")"@,
        (Some(h), None) => "fresh (HEAD "@ + shortened(h@) + ")"@,
        _ => "fresh"@,
    }
}

pub open spec fn commits_text(n: Option<u32>) -> Seq<char> {
    match n {
        Some(n) => text::decimal(n as nat) + " commit"@ + plural(n as nat),
        None => "unknown"@,
    }
}

pub open spec fn behind_text(r: DriftReport) -> Seq<char> {
    "index is "@ + commits_text(r.commits_between) + " behind HEAD"@ + then_clause(", "@, affected(r)) + (match (
        r.stored_sha,
        r.head_sha,
    ) {
        (Some(s), Some(h)) => " (indexed: "@ + shortened(s@) + ", HEAD: "@ + shortened(h@) + ")"@,
        _ => ""@,
    })
}

pub open spec fn unrelated_text(r: DriftReport) -> Seq<char> {
    (match (r.stored_sha, r.head_sha) {
        (Some(s), Some(h)) => "indexed SHA "@ + shortened(s@) + " is not an ancestor of HEAD "@ + shortened(h@)
            + " (rebase/branch switch?)"@,
        _ => "indexed SHA is not an ancestor of HEAD (rebase/branch switch?)"@,
    }) + then_clause("; "@, affected(r))
}

/// Marks a text as a warning where reindexing is due.
pub open spec fn flagged(r: DriftReport, t: Seq<char>) -> Seq<char> {
    if stale(r) {
        "⚠ "@ + t
    } else {
        t
    }
}

/// The report in one line, read at the instant `now`.
pub open spec fn summarized(r: DriftReport, now: int) -> Seq<char> {
    match r.kind {
        DriftKind::NotGit => "not a git repository"@,
        DriftKind::NeverIndexed => "structural index has never been stamped (run `codesage index`)"@,
        DriftKind::Fresh => fresh_text(r, now),
        DriftKind::BehindHead => flagged(r, behind_text(r)),
        DriftKind::UnrelatedAncestor => flagged(r, unrelated_text(r)),
        DriftKind::Unknown => flagged(r, "drift check failed (see logs)"@ + then_clause("; "@, affected(r))),
    }
}

impl DriftReport {
    /// Whether the indexed commit and the head commit are known to differ.
    pub fn is_drift(&self) -> (r: bool)
        ensures
            r == (self.kind is BehindHead || self.kind is UnrelatedAncestor),
    {
        matches!(self.kind, DriftKind::BehindHead | DriftKind::UnrelatedAncestor)
    }

    /// Whether indexing again would change structural facts.
    pub fn recommends_reindex(&self) -> (r: bool)
        ensures
            r == stale(*self),
    {
        let zero = match self.indexed_files_behind {
            Some(n) => n == 0,
            None => false,
        };
        let content_differs = !zero || self.indexed_files_behind_bounded;
        match self.kind {
            DriftKind::BehindHead | DriftKind::UnrelatedAncestor => content_differs,
            DriftKind::Unknown => self.indexed_files_behind.is_some() && content_differs,
            DriftKind::NotGit | DriftKind::NeverIndexed | DriftKind::Fresh => false,
        }
    }

    fn affected_clause(&self) -> (out: Option<String>)
        ensures
            text::view_opt(out) == affected(*self),
    {
        let n = match self.indexed_files_behind {
            Some(n) => n,
            None => {
                return None;
            },
        };
        if n == 0 {
            return Some(
                if self.indexed_files_behind_bounded {
                    "no differing indexed file found before the comparison stopped".to_string()
                } else {
                    "0 indexed files affected (index content matches HEAD)".to_string()
                },
            );
        }
        let lead = if self.indexed_files_behind_bounded {
            "at least "
        } else {
            ""
        };
        let count = concat5(
            lead,
            decimal_of(n as u64).as_str(),
            " indexed file",
            plural_of(n as u64),
            " affected",
        );
        let names = if self.indexed_files_behind_sample.len() == 0 {
            "".to_string()
        } else {
            let more = if n > self.indexed_files_behind_sample.len() {
                ", …"
            } else {
                ""
            };
            concat4(" (", join(&self.indexed_files_behind_sample, ", ").as_str(), more, ")")
        };
        Some(concat2(count.as_str(), names.as_str()))
    }

    fn affected_after(&self, sep: &str) -> (out: String)
        ensures
            out@ == then_clause(sep@, affected(*self)),
    {
        match self.affected_clause() {
            Some(clause) => concat2(sep, clause.as_str()),
            None => "".to_string(),
        }
    }

    fn flag(&self, t: String) -> (out: String)
        ensures
            out@ == flagged(*self, t@),
    {
        if self.recommends_reindex() {
            concat2("⚠ ", t.as_str())
        } else {
            t
        }
    }

    fn fresh_line(&self, now: i64) -> (out: String)
        ensures
            out@ == fresh_text(*self, now as int),
    {
        match (&self.head_sha, &self.stored_at) {
            (Some(h), Some(at)) => concat5(
                "fresh (HEAD ",
                short(h.as_str()).as_str(),
                " indexed ",
                fmt_ts(now, *at).as_str(),
                ")",
            ),
            (Some(h), None) => concat3("fresh (HEAD ", short(h.as_str()).as_str(), ")"),
            _ => "fresh".to_string(),
        }
    }

    fn behind_line(&self) -> (out: String)
        ensures
            out@ == behind_text(*self),
    {
        let commits = match self.commits_between {
            Some(n) => concat3(decimal_of(n as u64).as_str(), " commit", plural_of(n as u64)),
            None => "unknown".to_string(),
        };
        let clause = self.affected_after(", ");
        let shas = match (&self.stored_sha, &self.head_sha) {
            (Some(s), Some(h)) => concat5(
                " (indexed: ",
                short(s.as_str()).as_str(),
                ", HEAD: ",
                short(h.as_str()).as_str(),
                ")",
            ),
            _ => "".to_string(),
        };
        concat5("index is ", commits.as_str(), " behind HEAD", clause.as_str(), shas.as_str())
    }

    fn unrelated_line(&self) -> (out: String)
        ensures
            out@ == unrelated_text(*self),
    {
        let lead = match (&self.stored_sha, &self.head_sha) {
            (Some(s), Some(h)) => concat5(
                "indexed SHA ",
                short(s.as_str()).as_str(),
                " is not an ancestor of HEAD ",
                short(h.as_str()).as_str(),
                " (rebase/branch switch?)",
            ),
            _ => "indexed SHA is not an ancestor of HEAD (rebase/branch switch?)".to_string(),
        };
        concat2(lead.as_str(), self.affected_after("; ").as_str())
    }

    /// One line for people, read at the instant `now` in seconds since the
    /// epoch.
    pub fn summary(&self, now: i64) -> (out: String)
        ensures
            out@ == summarized(*self, now as int),
    {
        match self.kind {
            DriftKind::NotGit => "not a git repository".to_string(),
            DriftKind::NeverIndexed => "structural index has never been stamped (run `codesage index`)".to_string(),
            DriftKind::Fresh => self.fresh_line(now),
            DriftKind::BehindHead => self.flag(self.behind_line()),
            DriftKind::UnrelatedAncestor => self.flag(self.unrelated_line()),
            DriftKind::Unknown => self.flag(
                concat2("drift check failed (see logs)", self.affected_after("; ").as_str()),
            ),
        }
    }
}

/// A summary carries the warning sign in front exactly where reindexing is
/// recommended.
pub proof fn law_a_summary_warns_iff_reindexing_is_due(r: DriftReport, now: int)
    ensures
        text::starts_with(summarized(r, now), "⚠"@) == stale(r),
{
    reveal_strlit("⚠");
    reveal_strlit("⚠ ");
    reveal_strlit("not a git repository");
    reveal_strlit("structural index has never been stamped (run `codesage index`)");
    reveal_strlit("fresh");
    reveal_strlit("fresh (HEAD ");
    reveal_strlit("index is ");
    reveal_strlit("indexed SHA ");
    reveal_strlit("indexed SHA is not an ancestor of HEAD (rebase/branch switch?)");
    reveal_strlit("drift check failed (see logs)");
    let s = summarized(r, now);
    assert(s.len() > 0);
    if stale(r) {
        assert(s[0] == '⚠');
        assert(text::occurs_at(s, "⚠"@, 0)) by {
            assert(s.subrange(0, 1) =~= "⚠"@);
        }
    } else {
        assert(s[0] != '⚠');
        if text::starts_with(s, "⚠"@) {
            assert(s.subrange(0, 1)[0] == s[0]);
        }
    }
}

// ---------------------------------------------------------------------------
// Classification
// ---------------------------------------------------------------------------

/// What the version control says of the way from one commit to another.
#[derive(Debug, Clone, Copy, PartialEq, Eq, Structural)]
pub enum CommitsBetween {
    Count(u32),
    NotAncestor,
    Unknown,
}

/// The answer on the way between two commits: `ancestor` is whether the first
/// is an ancestor of the second, where that could be asked; `count` is the
/// printed number of commits, where it could be.
pub open spec fn between(ancestor: Option<bool>, count: Option<Seq<char>>) -> CommitsBetween {
    match (ancestor, count) {
        (None, _) => CommitsBetween::Unknown,
        (Some(false), _) => CommitsBetween::NotAncestor,
        (Some(true), None) => CommitsBetween::Unknown,
        (Some(true), Some(raw)) => match text::parsed(text::trimmed(raw), u32::MAX as nat) {
            Some(n) => CommitsBetween::Count(n as u32),
            None => CommitsBetween::Unknown,
        },
    }
}

/// Reads the answer on the way between two commits.
pub fn commits_between(ancestor: Option<bool>, count: &Option<String>) -> (out: CommitsBetween)
    ensures
        out == between(ancestor, text::view_opt(*count)),
{
    match ancestor {
        None => CommitsBetween::Unknown,
        Some(false) => CommitsBetween::NotAncestor,
        Some(true) => match count {
            None => CommitsBetween::Unknown,
            Some(raw) => match parse_up_to(trim(raw.as_str()), u32::MAX as u64) {
                Some(n) => CommitsBetween::Count(n as u32),
                None => CommitsBetween::Unknown,
            },
        },
    }
}

/// Indexed files whose content at the head commit differs from the indexed
/// content.
#[derive(Debug)]
pub struct FilesBehind {
    pub count: usize,
    pub sample: Vec<String>,
    pub bounded: bool,
}

impl FilesBehind {
    /// The sample holds the first affected paths, as many as it may.
    pub open spec fn wf(self) -> bool {
        self.sample@.len() == (if self.count < DRIFT_SAMPLE {
            self.count as nat
        } else {
            DRIFT_SAMPLE as nat
        })
    }

    pub fn none() -> (out: Self)
        ensures
            out.wf(),
            out.count == 0,
            out.sample@.len() == 0,
            !out.bounded,
    {
        FilesBehind { count: 0, sample: Vec::new(), bounded: false }
    }

    /// Counts one affected path, and names it while the sample has room.
    pub fn record(&mut self, path: &str)
        requires
            old(self).count < usize::MAX,
        ensures
            final(self).count == old(self).count + 1,
            final(self).bounded == old(self).bounded,
            text::views(final(self).sample@) == (if old(self).sample@.len() < DRIFT_SAMPLE {
                text::views(old(self).sample@).push(path@)
            } else {
                text::views(old(self).sample@)
            }),
            old(self).wf() ==> final(self).wf(),
    {
        broadcast use text::group_views;
        let ghost before = text::views(self.sample@);
        self.count = self.count + 1;
        if self.sample.len() < DRIFT_SAMPLE {
            self.sample.push(path.to_string());
        }
        assert(text::views(self.sample@).len() == self.sample@.len());
    }
}

/// The kind of drift and the number of commits between.
pub open spec fn classified(
    stored: Option<Seq<char>>,
    head: Option<Seq<char>>,
    in_git: bool,
    way: CommitsBetween,
) -> (DriftKind, Option<u32>) {
    match (stored, head) {
        (_, None) => (
            if in_git {
                DriftKind::NeverIndexed
            } else {
                DriftKind::NotGit
            },
            None,
        ),
        (None, Some(_)) => (DriftKind::NeverIndexed, None),
        (Some(s), Some(h)) => if s == h {
            (DriftKind::Fresh, Some(0))
        } else {
            match way {
                CommitsBetween::Count(n) => (DriftKind::BehindHead, Some(n)),
                CommitsBetween::NotAncestor => (DriftKind::UnrelatedAncestor, None),
                CommitsBetween::Unknown => (DriftKind::Unknown, None),
            }
        },
    }
}

/// No commits lie between exactly where the index was built at the head commit.
pub proof fn law_no_commits_between_means_fresh(
    stored: Option<Seq<char>>,
    head: Option<Seq<char>>,
    in_git: bool,
    way: CommitsBetween,
)
    requires
        way matches CommitsBetween::Count(n) ==> n > 0,
    ensures
        classified(stored, head, in_git, way).1 == Some(0u32) <==> classified(stored, head, in_git, way).0
            == DriftKind::Fresh,
{
}

/// Classifies the drift. `in_git` matters only without a head commit: an
/// unborn head is still a repository. `way` matters only where the two commits
/// differ.
pub fn classify(stored: &Option<String>, head: &Option<String>, in_git: bool, way: CommitsBetween) -> (out: (
    DriftKind,
    Option<u32>,
))
    ensures
        out == classified(text::view_opt(*stored), text::view_opt(*head), in_git, way),
{
    match (stored, head) {
        (_, None) => if in_git {
            (DriftKind::NeverIndexed, None)
        } else {
            (DriftKind::NotGit, None)
        },
        (None, Some(_)) => (DriftKind::NeverIndexed, None),
        (Some(s), Some(h)) => if same(s.as_str(), h.as_str()) {
            (DriftKind::Fresh, Some(0))
        } else {
            match way {
                CommitsBetween::Count(n) => (DriftKind::BehindHead, Some(n)),
                CommitsBetween::NotAncestor => (DriftKind::UnrelatedAncestor, None),
                CommitsBetween::Unknown => (DriftKind::Unknown, None),
            }
        },
    }
}

/// The contents have to be compared: the two commits are known and differ.
pub fn wants_measuring(kind: DriftKind) -> (r: bool)
    ensures
        r == (kind is BehindHead || kind is UnrelatedAncestor || kind is Unknown),
{
    matches!(kind, DriftKind::BehindHead | DriftKind::UnrelatedAncestor | DriftKind::Unknown)
}

/// What a report says of an index: its stamp, the head commit, how they relate,
/// and how many indexed files differ.
pub open spec fn tells_drift(
    out: DriftReport,
    stored: Option<(String, i64)>,
    head_sha: Option<String>,
    in_git: bool,
    way: CommitsBetween,
    behind: Option<FilesBehind>,
) -> bool {
    &&& text::view_opt(out.stored_sha) == (match stored {
        Some(s) => Some(s.0@),
        None => None,
    })
    &&& out.stored_at == (match stored {
        Some(s) => Some(s.1),
        None => None,
    })
    &&& out.head_sha == head_sha
    &&& (out.kind, out.commits_between) == classified(
        text::view_opt(out.stored_sha),
        text::view_opt(head_sha),
        in_git,
        way,
    )
    &&& match out.kind {
        DriftKind::Fresh => out.indexed_files_behind == Some(0usize) && out.indexed_files_behind_sample@.len()
            == 0 && !out.indexed_files_behind_bounded,
        DriftKind::BehindHead | DriftKind::UnrelatedAncestor | DriftKind::Unknown => match behind {
            Some(b) => out.indexed_files_behind == Some(b.count) && out.indexed_files_behind_sample == b.sample
                && out.indexed_files_behind_bounded == b.bounded,
            None => out.indexed_files_behind is None && out.indexed_files_behind_sample@.len() == 0
                && !out.indexed_files_behind_bounded,
        },
        _ => out.indexed_files_behind is None && out.indexed_files_behind_sample@.len() == 0
            && !out.indexed_files_behind_bounded,
    }
}

/// The drift of an index. `stored` is its stamp: the commit and the time.
/// `behind` is what comparing the contents gave; it is read only where
/// `wants_measuring` holds.
pub fn check_drift(
    stored: Option<(String, i64)>,
    head_sha: Option<String>,
    in_git: bool,
    way: CommitsBetween,
    behind: Option<FilesBehind>,
) -> (out: DriftReport)
    ensures
        tells_drift(out, stored, head_sha, in_git, way, behind),
{
    let (stored_sha, stored_at) = match stored {
        Some((sha, at)) => (Some(sha), Some(at)),
        None => (None, None),
    };
    let (kind, commits_between) = classify(&stored_sha, &head_sha, in_git, way);
    let behind = match kind {
        DriftKind::Fresh => Some(FilesBehind::none()),
        DriftKind::BehindHead | DriftKind::UnrelatedAncestor | DriftKind::Unknown => behind,
        DriftKind::NotGit | DriftKind::NeverIndexed => None,
    };
    match behind {
        Some(b) => DriftReport {
            stored_sha,
            head_sha,
            stored_at,
            commits_between,
            indexed_files_behind: Some(b.count),
            indexed_files_behind_sample: b.sample,
            indexed_files_behind_bounded: b.bounded,
            kind,
        },
        None => DriftReport {
            stored_sha,
            head_sha,
            stored_at,
            commits_between,
            indexed_files_behind: None,
            indexed_files_behind_sample: Vec::new(),
            indexed_files_behind_bounded: false,
            kind,
        },
    }
}

/// Only a complete comparison that found nothing clears an index that is off
/// the head commit.
pub proof fn law_only_a_complete_clean_comparison_clears_a_commit_range(r: DriftReport)
    requires
        r.kind is BehindHead || r.kind is UnrelatedAncestor,
    ensures
        !stale(r) <==> r.indexed_files_behind == Some(0usize) && !r.indexed_files_behind_bounded,
{
}

/// The log of a project's drift lies below the project directory.
pub open spec fn log_path(root: Seq<char>, dir: Seq<char>) -> Seq<char> {
    crate::paths::pushed(crate::paths::pushed(root, dir), "drift.log"@)
}

/// Names the log of a project's drift.
pub fn drift_log_path(project_root: &str, project_dir_name: &str) -> (out: String)
    ensures
        out@ == log_path(project_root@, project_dir_name@),
{
    crate::paths::append_path(crate::paths::append_path(project_root, project_dir_name).as_str(), "drift.log")
}

} // verus!
