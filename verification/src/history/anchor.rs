//! Where a pass over the history measures time from, and which pass is due.
use vstd::prelude::*;
use vstd::string::*;
use crate::bundle::FeatureFileRole;
use crate::order::among;
use crate::text;
use crate::text::{begins, lines_of, parse_signed, replace_char, same, trim};

verus! {

/// Days of history that count, back from the anchor.
pub const HISTORY_WINDOW_DAYS: i64 = 730;

/// The same in seconds.
pub const HISTORY_WINDOW_SECS: i64 = 63_072_000;

/// Which clock a pass measures from.
#[derive(Debug, Clone, Copy, PartialEq, Eq, Structural)]
pub enum HistoryAnchorSource {
    /// The time of the head commit, so that a checkout reads the same whenever
    /// it is indexed.
    HeadCommit,
    /// The wall clock, where there is no head commit to read.
    WallClock,
}

/// The point that the history window and the decay are measured from.
#[derive(Debug, Clone, Copy, PartialEq, Eq, Structural)]
pub struct HistoryAnchor {
    pub epoch: i64,
    pub source: HistoryAnchorSource,
}

/// The oldest time that counts, as seen from an anchor; never before the epoch.
pub open spec fn window_cutoff(anchor: int) -> int {
    if anchor - HISTORY_WINDOW_SECS < 0 {
        0
    } else {
        anchor - HISTORY_WINDOW_SECS
    }
}

pub fn history_window_cutoff(anchor: i64) -> (out: i64)
    ensures
        out == window_cutoff(anchor as int),
{
    if anchor < HISTORY_WINDOW_SECS {
        0
    } else {
        anchor - HISTORY_WINDOW_SECS
    }
}

/// How an anchor's clock is stored.
pub open spec fn source_label(s: HistoryAnchorSource) -> Seq<char> {
    match s {
        HistoryAnchorSource::HeadCommit => "HEAD"@,
        HistoryAnchorSource::WallClock => "now"@,
    }
}

pub open spec fn source_of_label(label: Seq<char>) -> Option<HistoryAnchorSource> {
    if label == "HEAD"@ {
        Some(HistoryAnchorSource::HeadCommit)
    } else if label == "now"@ {
        Some(HistoryAnchorSource::WallClock)
    } else {
        None
    }
}

/// A stored anchor. One with an unknown clock is none.
pub open spec fn stored_anchor(row: Option<(Seq<char>, i64)>) -> Option<HistoryAnchor> {
    match row {
        Some((label, epoch)) => match source_of_label(label) {
            Some(source) => Some(HistoryAnchor { epoch, source }),
            None => None,
        },
        None => None,
    }
}

impl HistoryAnchor {
    /// The anchor at a commit whose time is known, else at the wall clock.
    pub fn at(commit_epoch: Option<i64>, now: i64) -> (out: HistoryAnchor)
        ensures
            out == (match commit_epoch {
                Some(epoch) => HistoryAnchor { epoch, source: HistoryAnchorSource::HeadCommit },
                None => HistoryAnchor { epoch: now, source: HistoryAnchorSource::WallClock },
            }),
    {
        match commit_epoch {
            Some(epoch) => HistoryAnchor { epoch, source: HistoryAnchorSource::HeadCommit },
            None => HistoryAnchor { epoch: now, source: HistoryAnchorSource::WallClock },
        }
    }

    /// Reads a stored anchor.
    pub fn indexed(row: &Option<(String, i64)>) -> (out: Option<HistoryAnchor>)
        ensures
            out == stored_anchor(
                match row {
                    Some(r) => Some((r.0@, r.1)),
                    None => None,
                },
            ),
    {
        match row {
            Some((label, epoch)) => if same(label.as_str(), "HEAD") {
                Some(HistoryAnchor { epoch: *epoch, source: HistoryAnchorSource::HeadCommit })
            } else if same(label.as_str(), "now") {
                Some(HistoryAnchor { epoch: *epoch, source: HistoryAnchorSource::WallClock })
            } else {
                None
            },
            None => None,
        }
    }

    /// How the anchor's clock is stored.
    pub fn label(&self) -> (out: &'static str)
        ensures
            out@ == source_label(self.source),
    {
        match self.source {
            HistoryAnchorSource::HeadCommit => "HEAD",
            HistoryAnchorSource::WallClock => "now",
        }
    }

    /// Whether the anchor is stored after a pass: after a full one, and after
    /// another one only where it measured by the same clock as before.
    pub fn establishes(&self, full: bool, before: Option<HistoryAnchor>) -> (r: bool)
        ensures
            r == (full || (before matches Some(old_anchor) && old_anchor.source == self.source)),
    {
        full || match before {
            Some(old_anchor) => old_anchor.source == self.source,
            None => false,
        }
    }

    /// Oldest commit time that a pass admits.
    pub fn cutoff(&self) -> (out: i64)
        ensures
            out == window_cutoff(self.epoch as int),
            out >= 0,
    {
        history_window_cutoff(self.epoch)
    }

    /// What notes say about the window, so that an empty answer can name its
    /// cause.
    pub fn window_stamp(&self) -> (out: String)
        ensures
            out@ == "730d@"@ + source_label(self.source),
    {
        text::concat2("730d@", self.label())
    }
}

/// An anchor reads back as it was stored.
pub proof fn law_a_stored_anchor_reads_back(a: HistoryAnchor)
    ensures
        stored_anchor(Some((source_label(a.source), a.epoch))) == Some(a),
{
    reveal_strlit("HEAD");
    reveal_strlit("now");
    assert("HEAD"@.len() != "now"@.len());
}

/// The two clocks give different stamps.
pub proof fn law_stamps_tell_the_clocks_apart(a: HistoryAnchorSource, b: HistoryAnchorSource)
    requires
        a != b,
    ensures
        "730d@"@ + source_label(a) != "730d@"@ + source_label(b),
{
    reveal_strlit("HEAD");
    reveal_strlit("now");
    reveal_strlit("730d@");
    assert(("730d@"@ + "HEAD"@).len() != ("730d@"@ + "now"@).len());
}

/// Whether the newest commit lies before a window that ends now, so that the
/// history shows only because the anchor follows the head commit.
pub fn history_predates_wall_clock_window(newest_commit_at: i64, now: i64) -> (r: bool)
    ensures
        r == (newest_commit_at < window_cutoff(now as int)),
{
    newest_commit_at < history_window_cutoff(now)
}

/// The anchor that the pass before measured from: the time of its commit where
/// that can still be read, else when it ran.
pub fn previous_anchor(current: HistoryAnchor, last_commit_epoch: Option<i64>, last_indexed_at: i64) -> (out: i64)
    ensures
        out == (match (current.source, last_commit_epoch) {
            (HistoryAnchorSource::HeadCommit, Some(epoch)) => epoch,
            _ => last_indexed_at,
        }),
{
    match current.source {
        HistoryAnchorSource::HeadCommit => match last_commit_epoch {
            Some(epoch) => epoch,
            None => last_indexed_at,
        },
        HistoryAnchorSource::WallClock => last_indexed_at,
    }
}

/// The seconds by which stored weights have to be aged.
pub fn decay_seconds(from_anchor: i64, to_anchor: i64) -> (out: u64)
    ensures
        out == (if to_anchor > from_anchor {
            to_anchor - from_anchor
        } else {
            0
        }),
{
    if to_anchor > from_anchor {
        (to_anchor as i128 - from_anchor as i128) as u64
    } else {
        0
    }
}

/// Reads the printed time of a commit. A name that begins with a dash is no
/// commit.
pub fn commit_epoch(sha: &str, printed: &Option<String>) -> (out: Option<i64>)
    ensures
        match out {
            Some(n) => !text::starts_with(sha@, "-"@) && (printed matches Some(p) && text::parsed_signed(
                text::trimmed(p@),
            ) == Some(n as int)),
            None => text::starts_with(sha@, "-"@) || (printed matches Some(p) ==> text::parsed_signed(
                text::trimmed(p@),
            ) is None),
        },
{
    if begins(sha, "-") {
        return None;
    }
    match printed {
        Some(p) => parse_signed(trim(p.as_str())),
        None => None,
    }
}

// ---------------------------------------------------------------------------
// Passes
// ---------------------------------------------------------------------------

/// How much of the history is scanned.
#[derive(Debug, Clone, Copy, PartialEq, Eq, Structural)]
pub enum IndexMode {
    /// All of it, from scratch.
    Full,
    /// What is new since the last pass; all of it where that cannot be told.
    Incremental,
    /// The same; the default.
    Auto,
}

/// The pass that is due.
#[derive(Debug, Clone, Copy, PartialEq, Eq, Structural)]
pub enum Pass {
    /// Nothing is new; only stored weights are aged.
    Unchanged,
    Incremental,
    Full,
}

/// The pass that is due, given the commit of the last one and whether it is an
/// ancestor of the head commit.
pub open spec fn due(mode: IndexMode, last: Option<Seq<char>>, head: Seq<char>, ancestor: bool) -> Pass {
    match (mode, last) {
        (IndexMode::Full, _) | (_, None) => Pass::Full,
        (_, Some(sha)) => if sha == head {
            Pass::Unchanged
        } else if ancestor {
            Pass::Incremental
        } else {
            Pass::Full
        },
    }
}

pub fn plan_pass(mode: IndexMode, last_sha: &Option<String>, head_sha: &str, ancestor: bool) -> (out: Pass)
    ensures
        out == due(mode, text::view_opt(*last_sha), head_sha@, ancestor),
{
    match mode {
        IndexMode::Full => Pass::Full,
        IndexMode::Incremental | IndexMode::Auto => match last_sha {
            Some(sha) => if same(sha.as_str(), head_sha) {
                Pass::Unchanged
            } else if ancestor {
                Pass::Incremental
            } else {
                Pass::Full
            },
            None => Pass::Full,
        },
    }
}

// ---------------------------------------------------------------------------
// Files that changed since a ref
// ---------------------------------------------------------------------------

/// The range of a ref up to the head commit; nothing for one that begins with a
/// dash and would be read as an option.
pub fn range_since(git_ref: &str) -> (out: Option<String>)
    ensures
        match out {
            Some(r) => !text::starts_with(git_ref@, "-"@) && r@ == git_ref@ + "...HEAD"@,
            None => text::starts_with(git_ref@, "-"@),
        },
{
    if begins(git_ref, "-") {
        None
    } else {
        Some(text::concat2(git_ref, "...HEAD"))
    }
}

/// The paths of printed lines, with slashes.
pub open spec fn changed_in(lines: Seq<Seq<char>>) -> Seq<Seq<char>>
    decreases lines.len(),
{
    if lines.len() == 0 {
        Seq::empty()
    } else {
        let front = changed_in(lines.drop_last());
        let line = text::trimmed(lines.last());
        if line.len() > 0 {
            front.push(text::replaced(line, '\\', '/'))
        } else {
            front
        }
    }
}

/// Reads the printed paths of changed files.
pub fn changed_files(raw: &str) -> (out: Vec<String>)
    ensures
        text::views(out@) == changed_in(text::lines(raw@)),
{
    broadcast use text::group_views;
    let lines = lines_of(raw);
    let ghost ls = text::views(lines@);
    let mut out: Vec<String> = Vec::new();
    let mut i: usize = 0;
    while i < lines.len()
        invariant
            i <= lines@.len(),
            ls == text::views(lines@),
            text::views(out@) == changed_in(ls.take(i as int)),
        decreases lines@.len() - i,
    {
        broadcast use text::group_views;
        proof {
            assert(ls.take(i + 1).drop_last() =~= ls.take(i as int));
            assert(ls.take(i + 1).last() == lines@[i as int]@);
        }
        let line = trim(lines[i].as_str());
        if line.unicode_len() > 0 {
            out.push(replace_char(line, '\\', '/'));
        }
        i += 1;
    }
    assert(ls.take(ls.len() as int) =~= ls);
    out
}

/// A file of a feature.
#[derive(Debug)]
pub struct FeatureFileRef {
    pub path: String,
    pub role: FeatureFileRole,
}

/// A change of this file touches the feature: tests belong to a suite of their
/// own.
pub open spec fn touches(f: FeatureFileRef, changed: Seq<Seq<char>>) -> bool {
    f.role != FeatureFileRole::Test && changed.contains(f.path@)
}

/// Whether a feature was touched: one of its entry, owned or context files
/// changed.
pub fn feature_touched_since(files: &Vec<FeatureFileRef>, changed: &Vec<String>) -> (r: bool)
    ensures
        r == exists|i: int| 0 <= i < files@.len() && touches(#[trigger] files@[i], text::views(changed@)),
{
    let mut i: usize = 0;
    while i < files.len()
        invariant
            i <= files@.len(),
            forall|j: int| 0 <= j < i ==> !touches(#[trigger] files@[j], text::views(changed@)),
        decreases files@.len() - i,
    {
        let counts = matches!(
            files[i].role,
            FeatureFileRole::Entry | FeatureFileRole::Owned | FeatureFileRole::Context
        );
        if counts && among(changed, files[i].path.as_str()) {
            return true;
        }
        i += 1;
    }
    false
}

} // verus!
