//! Commits as the version control prints them, and which of them count.
use vstd::prelude::*;
use vstd::string::*;
use crate::history::authors;
use crate::history::authors::normalized_author;
use crate::text;
use crate::text::{
    begins, concat3, find_str, has, lines_of, lower_ascii, parse_signed, parse_up_to, rsplit_once,
    split_once, strip_prefix,
};

verus! {

/// A change of one file in a commit.
#[derive(Debug)]
pub struct FileChange {
    pub path: String,
    pub added: u32,
    pub deleted: u32,
}

pub struct ChangeView {
    pub path: Seq<char>,
    pub added: u32,
    pub deleted: u32,
}

impl View for FileChange {
    type V = ChangeView;

    open spec fn view(&self) -> ChangeView {
        ChangeView { path: self.path@, added: self.added, deleted: self.deleted }
    }
}

/// A commit and what it changed. Without a known author `author` is empty.
#[derive(Debug)]
pub struct Commit {
    pub sha: String,
    pub author: String,
    pub timestamp: i64,
    pub subject: String,
    pub changes: Vec<FileChange>,
}

pub struct CommitView {
    pub sha: Seq<char>,
    pub author: Seq<char>,
    pub timestamp: i64,
    pub subject: Seq<char>,
    pub changes: Seq<ChangeView>,
}

impl View for Commit {
    type V = CommitView;

    open spec fn view(&self) -> CommitView {
        CommitView {
            sha: self.sha@,
            author: self.author@,
            timestamp: self.timestamp,
            subject: self.subject@,
            changes: text::views(self.changes@),
        }
    }
}

// ---------------------------------------------------------------------------
// Subjects
// ---------------------------------------------------------------------------

/// The subject, in lower case, is that of a fix.
pub open spec fn fix_subject(s: Seq<char>) -> bool {
    text::starts_with(s, "fix:"@) || text::starts_with(s, "fix("@) || text::starts_with(s, "bugfix:"@)
        || text::starts_with(s, "hotfix:"@) || text::contains(s, " fix "@) || text::contains(s, " fixes "@)
        || text::contains(s, "fixes #"@) || text::contains(s, "fixes gh-"@) || text::contains(s, "closes #"@)
}

pub fn is_fix_commit(subject: &str) -> (r: bool)
    ensures
        r == fix_subject(text::lowered(subject@)),
{
    let lowered = lower_ascii(subject);
    let s = lowered.as_str();
    begins(s, "fix:") || begins(s, "fix(") || begins(s, "bugfix:") || begins(s, "hotfix:") || has(s, " fix ") || has(
        s,
        " fixes ",
    ) || has(s, "fixes #") || has(s, "fixes gh-") || has(s, "closes #")
}

/// The subject, in lower case, is that of a chore.
pub open spec fn chore_subject(s: Seq<char>) -> bool {
    text::starts_with(s, "chore:"@) || text::starts_with(s, "chore("@) || text::starts_with(s, "build:"@)
        || text::starts_with(s, "build("@) || text::starts_with(s, "ci:"@) || text::starts_with(s, "style:"@)
        || text::starts_with(s, "docs:"@)
}

/// The subject, in lower case, speaks of work that matters even in a chore.
pub open spec fn rescued_subject(s: Seq<char>) -> bool {
    text::contains(s, "migrate"@) || text::contains(s, "refactor"@) || text::contains(s, "adopt"@) || text::contains(
        s,
        "deprecate"@,
    )
}

pub open spec fn skipped_subject(subject: Seq<char>) -> bool {
    chore_subject(text::lowered(subject)) && !rescued_subject(text::lowered(subject))
}

/// Whether a commit is passed over: a chore that nothing rescues.
pub fn soft_skip(subject: &str) -> (r: bool)
    ensures
        r == skipped_subject(subject@),
{
    let lowered = lower_ascii(subject);
    let s = lowered.as_str();
    let chore = begins(s, "chore:") || begins(s, "chore(") || begins(s, "build:") || begins(s, "build(") || begins(
        s,
        "ci:",
    ) || begins(s, "style:") || begins(s, "docs:");
    if !chore {
        return false;
    }
    let rescued = has(s, "migrate") || has(s, "refactor") || has(s, "adopt") || has(s, "deprecate");
    !rescued
}

// ---------------------------------------------------------------------------
// Paths of renames
// ---------------------------------------------------------------------------

/// The destination of a rename `a/{old => new}/b`, if the path is one.
pub open spec fn braced_destination(raw: Seq<char>) -> Option<Seq<char>> {
    match (text::find(raw, "{"@), text::find(raw, "}"@)) {
        (Some(open), Some(close)) => if open < close {
            match text::find(raw.subrange(open, close), " => "@) {
                Some(arrow) => Some(raw.take(open) + raw.subrange(open + arrow + 4, close) + raw.skip(close + 1)),
                None => None,
            }
        } else {
            None
        },
        _ => None,
    }
}

/// The path that a printed path means: of a rename its destination.
pub open spec fn destination(raw: Seq<char>) -> Seq<char> {
    match braced_destination(raw) {
        Some(d) => d,
        None => match text::split_last(raw, " => "@) {
            Some((src, dest)) => if src.len() > 0 && dest.len() > 0 {
                dest
            } else {
                raw
            },
            None => raw,
        },
    }
}

fn braced_of(raw: &str) -> (out: Option<String>)
    ensures
        text::view_opt(out) == braced_destination(raw@),
{
    proof {
        reveal_strlit("{");
        reveal_strlit("}");
        reveal_strlit(" => ");
        text::lemma_first_at(raw@, "{"@, 0);
        text::lemma_first_at(raw@, "}"@, 0);
    }
    let n: usize = raw.unicode_len();
    let open: usize = match find_str(raw, "{") {
        Some(i) => i,
        None => {
            return None;
        },
    };
    let close: usize = match find_str(raw, "}") {
        Some(i) => i,
        None => {
            return None;
        },
    };
    if open >= close {
        return None;
    }
    let inner = raw.substring_char(open, close);
    proof {
        text::lemma_first_at(inner@, " => "@, 0);
    }
    match find_str(inner, " => ") {
        Some(arrow) => {
            let head = raw.substring_char(0, open);
            let new = raw.substring_char(open + arrow + 4, close);
            let tail = raw.substring_char(close + 1, n);
            assert(head@ =~= raw@.take(open as int));
            assert(tail@ =~= raw@.skip(close + 1));
            Some(concat3(head, new, tail))
        },
        None => None,
    }
}

/// Reads the path of a change: of a rename its destination.
pub fn normalize_rename_path(raw: &str) -> (out: String)
    ensures
        out@ == destination(raw@),
{
    if let Some(d) = braced_of(raw) {
        return d;
    }
    match rsplit_once(raw, " => ") {
        Some((src, dest)) => if src.unicode_len() > 0 && dest.unicode_len() > 0 {
            dest.to_string()
        } else {
            raw.to_string()
        },
        None => raw.to_string(),
    }
}

// ---------------------------------------------------------------------------
// The log
// ---------------------------------------------------------------------------

/// The first two fields of a line and the rest of it. A missing field is
/// nothing.
pub open spec fn three_fields(s: Seq<char>, sep: Seq<char>) -> (Seq<char>, Option<Seq<char>>, Option<Seq<char>>) {
    match text::split_first(s, sep) {
        None => (s, None, None),
        Some((a, rest)) => match text::split_first(rest, sep) {
            None => (a, Some(rest), None),
            Some((b, c)) => (a, Some(b), Some(c)),
        },
    }
}

fn split_three<'a>(s: &'a str, sep: &str) -> (out: (&'a str, Option<&'a str>, Option<&'a str>))
    ensures
        three_fields(s@, sep@) == (
            out.0@,
            match out.1 {
                Some(b) => Some(b@),
                None => None,
            },
            match out.2 {
                Some(c) => Some(c@),
                None => None,
            },
        ),
{
    match split_once(s, sep) {
        None => (s, None, None),
        Some((a, rest)) => match split_once(rest, sep) {
            None => (a, Some(rest), None),
            Some((b, c)) => (a, Some(b), Some(c)),
        },
    }
}

/// The author and the subject behind a commit's time.
pub open spec fn author_and_subject(s: Seq<char>) -> (Seq<char>, Seq<char>) {
    match three_fields(s, "\u{1f}"@) {
        (email, Some(name), Some(subject)) => (
            match authors::identity(email, name) {
                Some(a) => a,
                None => Seq::empty(),
            },
            subject,
        ),
        _ => (Seq::empty(), s),
    }
}

/// The commit that a header line begins; nothing where its time cannot be read.
pub open spec fn header_commit(rest: Seq<char>) -> Option<CommitView> {
    match three_fields(rest, "\t"@) {
        (sha, Some(time), more) => match text::parsed_signed(time) {
            Some(ts) => {
                let (author, subject) = author_and_subject(
                    match more {
                        Some(m) => m,
                        None => Seq::empty(),
                    },
                );
                Some(CommitView { sha, author, timestamp: ts as i64, subject, changes: Seq::empty() })
            },
            None => None,
        },
        _ => None,
    }
}

/// The change of a line `<added> TAB <deleted> TAB <path>`; nothing for a binary
/// file or a line that is none.
pub open spec fn change_in(line: Seq<char>) -> Option<ChangeView> {
    match three_fields(line, "\t"@) {
        (added, Some(deleted), Some(path)) => match (
            text::parsed(added, u32::MAX as nat),
            text::parsed(deleted, u32::MAX as nat),
        ) {
            (Some(a), Some(d)) => if path.len() > 0 {
                Some(ChangeView { path: destination(path), added: a as u32, deleted: d as u32 })
            } else {
                None
            },
            _ => None,
        },
        _ => None,
    }
}

/// Commits that are complete, and the one that is being read.
pub struct LogView {
    pub done: Seq<CommitView>,
    pub current: Option<CommitView>,
}

pub open spec fn closed_log(log: LogView) -> Seq<CommitView> {
    match log.current {
        Some(c) => log.done.push(c),
        None => log.done,
    }
}

/// The log with one more line.
pub open spec fn with_line(log: LogView, line: Seq<char>) -> LogView {
    match text::after_prefix(line, "commit\t"@) {
        Some(rest) => LogView { done: closed_log(log), current: header_commit(rest) },
        None => match (log.current, change_in(line)) {
            (Some(c), Some(change)) => LogView {
                done: log.done,
                current: Some(CommitView { changes: c.changes.push(change), ..c }),
            },
            _ => log,
        },
    }
}

pub open spec fn log_of(lines: Seq<Seq<char>>) -> LogView
    decreases lines.len(),
{
    if lines.len() == 0 {
        LogView { done: Seq::empty(), current: None }
    } else {
        with_line(log_of(lines.drop_last()), lines.last())
    }
}

/// The commits of a printed log.
pub open spec fn commits_in(raw: Seq<char>) -> Seq<CommitView> {
    closed_log(log_of(text::lines(raw)))
}

fn header_commit_of(rest: &str) -> (out: Option<Commit>)
    ensures
        match out {
            Some(c) => header_commit(rest@) == Some(c@),
            None => header_commit(rest@) is None,
        },
{
    broadcast use text::group_views;
    let (sha, time, more) = split_three(rest, "\t");
    let ts: i64 = match time {
        Some(t) => match parse_signed(t) {
            Some(ts) => ts,
            None => {
                return None;
            },
        },
        None => {
            return None;
        },
    };
    proof {
        reveal_strlit("");
    }
    let tail = match more {
        Some(m) => m,
        None => "",
    };
    assert(tail@ =~= (match more {
        Some(m) => m@,
        None => Seq::<char>::empty(),
    }));
    let (email, name, subject) = split_three(tail, "\u{1f}");
    let (author, said) = match (name, subject) {
        (Some(n), Some(s)) => (
            match normalized_author(email, n) {
                Some(a) => a,
                None => String::new(),
            },
            s,
        ),
        _ => (String::new(), tail),
    };
    let changes: Vec<FileChange> = Vec::new();
    let c = Commit { sha: sha.to_string(), author, timestamp: ts, subject: said.to_string(), changes };
    assert(c@.changes =~= Seq::<ChangeView>::empty());
    assert(c@.author =~= author_and_subject(tail@).0);
    Some(c)
}

fn change_of(line: &str) -> (out: Option<FileChange>)
    ensures
        match out {
            Some(c) => change_in(line@) == Some(c@),
            None => change_in(line@) is None,
        },
{
    match split_three(line, "\t") {
        (added, Some(deleted), Some(path)) => {
            if path.unicode_len() == 0 {
                return None;
            }
            match (parse_up_to(added, u32::MAX as u64), parse_up_to(deleted, u32::MAX as u64)) {
                (Some(a), Some(d)) => Some(
                    FileChange { path: normalize_rename_path(path), added: a as u32, deleted: d as u32 },
                ),
                _ => None,
            }
        },
        _ => None,
    }
}

/// Reads a printed log. What cannot be read is left out: a made-up time or count
/// would become history.
pub fn parse_log(raw: &str) -> (out: Vec<Commit>)
    ensures
        text::views(out@) == commits_in(raw@),
{
    broadcast use text::group_views;
    let lines = lines_of(raw);
    let ghost ls = text::views(lines@);
    let mut done: Vec<Commit> = Vec::new();
    let mut current: Option<Commit> = None;
    let mut i: usize = 0;
    while i < lines.len()
        invariant
            i <= lines@.len(),
            ls == text::views(lines@),
            text::views(done@) == log_of(ls.take(i as int)).done,
            match current {
                Some(c) => log_of(ls.take(i as int)).current == Some(c@),
                None => log_of(ls.take(i as int)).current is None,
            },
        decreases lines@.len() - i,
    {
        broadcast use text::group_views;
        proof {
            assert(ls.take(i + 1).drop_last() =~= ls.take(i as int));
            assert(ls.take(i + 1).last() == lines@[i as int]@);
        }
        match strip_prefix(lines[i].as_str(), "commit\t") {
            Some(rest) => {
                if let Some(c) = current {
                    done.push(c);
                }
                current = header_commit_of(rest);
            },
            None => {
                match current {
                    Some(c) => {
                        let mut c = c;
                        if let Some(change) = change_of(lines[i].as_str()) {
                            let ghost was = c@;
                            c.changes.push(change);
                            assert(c@ == (CommitView { changes: was.changes.push(change@), ..was }));
                        }
                        current = Some(c);
                    },
                    None => {},
                }
            },
        }
        i += 1;
    }
    assert(ls.take(ls.len() as int) =~= ls);
    if let Some(c) = current {
        done.push(c);
    }
    done
}

} // verus!
