//! Other branches that edit the same files as a change.
use vstd::prelude::*;
use vstd::string::*;
use crate::order;
use crate::order::{among, ascending_list};
use crate::paths;
use crate::paths::{is_absolute, parts_of};
use crate::text;
use crate::text::{
    begins, concat2, concat3, concat4, concat5, decimal_of, finishes, join, lines_of, lower_ascii,
    same, split,
};

verus! {

/// Newest refs that are looked at.
pub const MAX_REFS: usize = 50;

/// Overlapping branches that are listed.
pub const MAX_ROWS: usize = 3;

/// Overlapping files that are listed of a branch.
pub const MAX_FILES: usize = 5;

// ---------------------------------------------------------------------------
// Paths that say nothing
// ---------------------------------------------------------------------------

pub open spec fn manifest_name(n: Seq<char>) -> bool {
    n == "Cargo.toml"@ || n == "package.json"@ || n == "composer.json"@ || n == "go.mod"@ || n == "pyproject.toml"@ || n
        == "Pipfile"@ || n == "requirements.txt"@ || n == "Gemfile"@ || n == "setup.py"@ || n == "pom.xml"@ || n
        == "build.gradle"@ || n == "build.gradle.kts"@
}

pub open spec fn lock_name(n: Seq<char>) -> bool {
    n == "Cargo.lock"@ || n == "package-lock.json"@ || n == "yarn.lock"@ || n == "pnpm-lock.yaml"@ || n == "bun.lock"@
        || n == "bun.lockb"@ || n == "composer.lock"@ || n == "go.sum"@ || n == "poetry.lock"@ || n == "uv.lock"@ || n
        == "Pipfile.lock"@ || n == "Gemfile.lock"@ || n == "npm-shrinkwrap.json"@
}

pub open spec fn housekeeping_name(n: Seq<char>) -> bool {
    n == ".gitlab-ci.yml"@ || n == "azure-pipelines.yml"@ || n == "Jenkinsfile"@ || n == "CHANGELOG.md"@ || n
        == "NEWS"@ || n == ".DS_Store"@ || text::starts_with(text::lowered(n), "changelog"@)
}

pub open spec fn generated_name(n: Seq<char>) -> bool {
    text::ends_with(n, ".min.js"@) || text::ends_with(n, ".min.css"@) || text::ends_with(n, ".map"@) || text::ends_with(
        n,
        ".pb.go"@,
    ) || text::ends_with(n, "_pb2.py"@) || text::ends_with(n, "_pb2_grpc.py"@) || text::ends_with(n, ".po"@)
        || text::ends_with(n, ".mo"@) || text::ends_with(n, ".prefab"@) || text::ends_with(n, ".meta"@)
        || text::ends_with(n, ".asset"@)
}

/// Directories of generated, vendored or configuration files, in lower case.
pub open spec fn noise_directory(d: Seq<char>) -> bool {
    d == ".git"@ || d == ".github"@ || d == ".circleci"@ || d == "node_modules"@ || d == "vendor"@ || d == "target"@
        || d == "dist"@ || d == "build"@ || d == "__pycache__"@ || d == "generated"@ || d == "__generated__"@ || d
        == "locales"@ || d == "locale"@ || d == "localization"@ || d == "i18n"@ || d == "translations"@
}

/// The last component of a path.
pub open spec fn file_name(path: Seq<char>) -> Seq<char> {
    let parts = paths::parts(path);
    if parts.len() > 0 {
        parts.last()
    } else {
        ""@
    }
}

/// Two branches that touch this path need not know of each other: it lies
/// outside the project, or is a manifest, a lock file, housekeeping or
/// generated.
pub open spec fn noise(path: Seq<char>) -> bool {
    let n = file_name(path);
    paths::absolute(path) || paths::parts(path).contains(".."@) || manifest_name(n) || lock_name(n)
        || housekeeping_name(n) || generated_name(n) || exists|i: int|
        0 <= i < paths::parts(path).len() && noise_directory(text::lowered(#[trigger] paths::parts(path)[i]))
}

fn is_manifest(n: &str) -> (r: bool)
    ensures
        r == manifest_name(n@),
{
    same(n, "Cargo.toml") || same(n, "package.json") || same(n, "composer.json") || same(n, "go.mod") || same(
        n,
        "pyproject.toml",
    ) || same(n, "Pipfile") || same(n, "requirements.txt") || same(n, "Gemfile") || same(n, "setup.py") || same(
        n,
        "pom.xml",
    ) || same(n, "build.gradle") || same(n, "build.gradle.kts")
}

fn is_lock(n: &str) -> (r: bool)
    ensures
        r == lock_name(n@),
{
    same(n, "Cargo.lock") || same(n, "package-lock.json") || same(n, "yarn.lock") || same(n, "pnpm-lock.yaml") || same(
        n,
        "bun.lock",
    ) || same(n, "bun.lockb") || same(n, "composer.lock") || same(n, "go.sum") || same(n, "poetry.lock") || same(
        n,
        "uv.lock",
    ) || same(n, "Pipfile.lock") || same(n, "Gemfile.lock") || same(n, "npm-shrinkwrap.json")
}

fn is_housekeeping(n: &str) -> (r: bool)
    ensures
        r == housekeeping_name(n@),
{
    same(n, ".gitlab-ci.yml") || same(n, "azure-pipelines.yml") || same(n, "Jenkinsfile") || same(n, "CHANGELOG.md")
        || same(n, "NEWS") || same(n, ".DS_Store") || begins(lower_ascii(n).as_str(), "changelog")
}

fn is_generated(n: &str) -> (r: bool)
    ensures
        r == generated_name(n@),
{
    finishes(n, ".min.js") || finishes(n, ".min.css") || finishes(n, ".map") || finishes(n, ".pb.go") || finishes(
        n,
        "_pb2.py",
    ) || finishes(n, "_pb2_grpc.py") || finishes(n, ".po") || finishes(n, ".mo") || finishes(n, ".prefab")
        || finishes(n, ".meta") || finishes(n, ".asset")
}

fn is_noise_directory(d: &str) -> (r: bool)
    ensures
        r == noise_directory(d@),
{
    same(d, ".git") || same(d, ".github") || same(d, ".circleci") || same(d, "node_modules") || same(d, "vendor")
        || same(d, "target") || same(d, "dist") || same(d, "build") || same(d, "__pycache__") || same(d, "generated")
        || same(d, "__generated__") || same(d, "locales") || same(d, "locale") || same(d, "localization") || same(
        d,
        "i18n",
    ) || same(d, "translations")
}

/// Whether a path says nothing about overlapping work.
pub fn noise_path(path: &str) -> (r: bool)
    ensures
        r == noise(path@),
{
    broadcast use text::group_views;
    if is_absolute(path) {
        return true;
    }
    let parts = parts_of(path);
    let ghost ps = paths::parts(path@);
    if among(&parts, "..") {
        return true;
    }
    let n: usize = parts.len();
    let name = if n > 0 {
        parts[n - 1].as_str()
    } else {
        ""
    };
    assert(name@ == file_name(path@));
    if is_manifest(name) || is_lock(name) || is_housekeeping(name) || is_generated(name) {
        return true;
    }
    let mut i: usize = 0;
    while i < parts.len()
        invariant
            i <= parts@.len(),
            ps == text::views(parts@),
            ps == paths::parts(path@),
            forall|j: int| 0 <= j < i ==> !noise_directory(text::lowered(#[trigger] ps[j])),
        decreases parts@.len() - i,
    {
        broadcast use text::group_views;
        assert(ps[i as int] == parts@[i as int]@);
        if is_noise_directory(lower_ascii(parts[i].as_str()).as_str()) {
            return true;
        }
        i += 1;
    }
    false
}

// ---------------------------------------------------------------------------
// The report
// ---------------------------------------------------------------------------

/// A branch that edits some of the files.
#[derive(Debug)]
pub struct BranchOverlap {
    pub branch: String,
    pub commit: String,
    pub merge_base: String,
    /// The first overlapping files, in order.
    pub files: Vec<String>,
    pub files_total: usize,
    pub basis: String,
}

pub struct OverlapView {
    pub branch: Seq<char>,
    pub commit: Seq<char>,
    pub merge_base: Seq<char>,
    pub files: Seq<Seq<char>>,
    pub files_total: nat,
    pub basis: Seq<char>,
}

impl View for BranchOverlap {
    type V = OverlapView;

    open spec fn view(&self) -> OverlapView {
        OverlapView {
            branch: self.branch@,
            commit: self.commit@,
            merge_base: self.merge_base@,
            files: text::views(self.files@),
            files_total: self.files_total as nat,
            basis: self.basis@,
        }
    }
}

/// What is known of other branches that edit the same files.
#[derive(Debug)]
pub struct BranchOverlapReport {
    pub current_commit: Option<String>,
    pub total_refs: Option<usize>,
    pub scanned_refs: usize,
    pub matching_branches: usize,
    pub branches: Vec<BranchOverlap>,
    pub note: Option<String>,
    pub complete: bool,
}

impl BranchOverlapReport {
    /// Nothing is known yet.
    pub fn blank() -> (out: Self)
        ensures
            out.current_commit is None,
            out.total_refs is None,
            out.scanned_refs == 0,
            out.matching_branches == 0,
            out.branches@.len() == 0,
            out.note is None,
            !out.complete,
    {
        BranchOverlapReport {
            current_commit: None,
            total_refs: None,
            scanned_refs: 0,
            matching_branches: 0,
            branches: Vec::new(),
            note: None,
            complete: false,
        }
    }

    /// Only the head commit is known.
    pub fn at(head: &str) -> (out: Self)
        ensures
            text::view_opt(out.current_commit) == Some(head@),
            out.total_refs is None,
            out.scanned_refs == 0,
            out.matching_branches == 0,
            out.branches@.len() == 0,
            out.note is None,
            !out.complete,
    {
        let mut out = BranchOverlapReport::blank();
        out.current_commit = Some(head.to_string());
        out
    }
}

/// A report that a failure cut short keeps what it had and names the failure.
pub fn incomplete(report: BranchOverlapReport, error: &str) -> (out: BranchOverlapReport)
    ensures
        out == (BranchOverlapReport { note: out.note, ..report }),
        text::view_opt(out.note) == Some("Branch overlap incomplete: "@ + error@),
{
    let mut out = report;
    out.note = Some(concat2("Branch overlap incomplete: ", error));
    out
}

// ---------------------------------------------------------------------------
// The scan
// ---------------------------------------------------------------------------

/// A ref and the commit it points to.
#[derive(Debug)]
pub struct RefTip {
    pub sha: String,
    pub name: String,
}

pub struct RefView {
    pub sha: Seq<char>,
    pub name: Seq<char>,
}

impl View for RefTip {
    type V = RefView;

    open spec fn view(&self) -> RefView {
        RefView { sha: self.sha@, name: self.name@ }
    }
}

/// The ref of a printed line, `<commit> TAB <name> TAB <target>`; not one that
/// only points at another ref, nor one at the head commit.
pub open spec fn ref_in(line: Seq<char>, head: Seq<char>) -> Option<RefView> {
    let parts = text::pieces(line, '\t');
    if parts.len() >= 3 && parts[2].len() == 0 && parts[0] != head {
        Some(RefView { sha: parts[0], name: parts[1] })
    } else {
        None
    }
}

pub open spec fn refs_in(lines: Seq<Seq<char>>, head: Seq<char>) -> Seq<RefView>
    decreases lines.len(),
{
    if lines.len() == 0 {
        Seq::empty()
    } else {
        let front = refs_in(lines.drop_last(), head);
        match ref_in(lines.last(), head) {
            Some(r) => front.push(r),
            None => front,
        }
    }
}

/// Reads the printed refs.
pub fn parse_refs(raw: &str, head: &str) -> (out: Vec<RefTip>)
    ensures
        text::views(out@) == refs_in(text::lines(raw@), head@),
{
    broadcast use text::group_views;
    let lines = lines_of(raw);
    let ghost ls = text::views(lines@);
    let mut out: Vec<RefTip> = Vec::new();
    let mut i: usize = 0;
    while i < lines.len()
        invariant
            i <= lines@.len(),
            ls == text::views(lines@),
            text::views(out@) == refs_in(ls.take(i as int), head@),
        decreases lines@.len() - i,
    {
        broadcast use text::group_views;
        proof {
            assert(ls.take(i + 1).drop_last() =~= ls.take(i as int));
            assert(ls.take(i + 1).last() == lines@[i as int]@);
        }
        let parts = split(lines[i].as_str(), '\t');
        let ghost ps = text::views(parts@);
        if parts.len() >= 3 {
            assert(ps[0] == parts@[0]@ && ps[1] == parts@[1]@ && ps[2] == parts@[2]@);
            if parts[2].as_str().unicode_len() == 0 && !same(parts[0].as_str(), head) {
                out.push(RefTip { sha: parts[0].clone(), name: parts[1].clone() });
            }
        }
        i += 1;
    }
    assert(ls.take(ls.len() as int) =~= ls);
    out
}

/// A scan of the refs in progress.
#[derive(Debug)]
pub struct Scan {
    pub head: String,
    pub refs: Vec<RefTip>,
    /// The files whose overlap counts.
    pub targets: Vec<String>,
    /// Commits that were already looked at.
    pub seen: Vec<String>,
    pub report: BranchOverlapReport,
}

/// What to do about the next ref.
#[derive(Debug)]
pub enum Next {
    /// Nothing is left to do.
    Finished,
    /// A ref is left, and no time for it.
    OutOfTime,
    /// The commit was looked at under another name, and is counted.
    Passed,
    /// The merge bases of the head commit and this one are needed.
    MergeBase(String),
}

/// What to do once the merge bases are known.
#[derive(Debug)]
pub enum AfterBase {
    /// The ref is counted and needs no diff.
    Passed,
    /// The diff from this merge base is needed.
    Diff(String),
}

pub const NO_BASE_NOTE: &'static str = "Some refs have no unique merge base and were skipped.";

pub const NEWEST_NOTE: &'static str = "Only the newest 50 refs were considered.";

pub const BASIS: &'static str = "same-file: HEAD...branch (three-dot diff from merge base)";

/// The files that count among some.
pub open spec fn counting(files: Seq<Seq<char>>) -> Seq<Seq<char>> {
    files.filter(|f: Seq<char>| !noise(f))
}

fn counting_of(files: &Vec<String>) -> (out: Vec<String>)
    ensures
        text::views(out@) == counting(text::views(files@)),
{
    broadcast use text::group_views;
    let ghost all = text::views(files@);
    let ghost keep = |f: Seq<char>| !noise(f);
    let mut out: Vec<String> = Vec::new();
    let mut i: usize = 0;
    assert(all.take(0).filter(keep) =~= Seq::<Seq<char>>::empty()) by {
        reveal(Seq::filter);
    }
    while i < files.len()
        invariant
            i <= files@.len(),
            all == text::views(files@),
            keep == (|f: Seq<char>| !noise(f)),
            text::views(out@) == all.take(i as int).filter(keep),
        decreases files@.len() - i,
    {
        broadcast use text::group_views;
        proof {
            reveal(Seq::filter);
            assert(all.take(i + 1).drop_last() =~= all.take(i as int));
            assert(all.take(i + 1).last() == files@[i as int]@);
        }
        if !noise_path(files[i].as_str()) {
            out.push(files[i].clone());
        }
        i += 1;
    }
    assert(all.take(all.len() as int) =~= all);
    out
}

/// The overlapping files of a branch: those of the diff that count, in order and
/// each once.
pub open spec fn overlap(targets: Seq<Seq<char>>, diff: Seq<Seq<char>>) -> Seq<Seq<char>> {
    order::ascending_set(diff.filter(|p: Seq<char>| p.len() > 0 && targets.contains(p)))
}

fn overlap_of(targets: &Vec<String>, diff: &Vec<String>) -> (out: Vec<String>)
    ensures
        text::views(out@) == overlap(text::views(targets@), text::views(diff@)),
{
    broadcast use text::group_views;
    let ghost all = text::views(diff@);
    let ghost ts = text::views(targets@);
    let ghost keep = |p: Seq<char>| p.len() > 0 && ts.contains(p);
    let mut found: Vec<String> = Vec::new();
    let mut i: usize = 0;
    assert(all.take(0).filter(keep) =~= Seq::<Seq<char>>::empty()) by {
        reveal(Seq::filter);
    }
    while i < diff.len()
        invariant
            i <= diff@.len(),
            all == text::views(diff@),
            ts == text::views(targets@),
            keep == (|p: Seq<char>| p.len() > 0 && ts.contains(p)),
            text::views(found@) == all.take(i as int).filter(keep),
        decreases diff@.len() - i,
    {
        broadcast use text::group_views;
        proof {
            reveal(Seq::filter);
            assert(all.take(i + 1).drop_last() =~= all.take(i as int));
            assert(all.take(i + 1).last() == diff@[i as int]@);
        }
        if diff[i].as_str().unicode_len() > 0 && among(targets, diff[i].as_str()) {
            found.push(diff[i].clone());
        }
        i += 1;
    }
    assert(all.take(all.len() as int) =~= all);
    ascending_list(&found)
}

/// A row lists the first of its files, as many as it may.
pub open spec fn row_of(r: RefView, base: Seq<char>, files: Seq<Seq<char>>) -> OverlapView {
    OverlapView {
        branch: r.name,
        commit: r.sha,
        merge_base: base,
        files: if files.len() > MAX_FILES {
            files.take(MAX_FILES as int)
        } else {
            files
        },
        files_total: files.len(),
        basis: BASIS@,
    }
}

impl Scan {
    /// The ref that is looked at; refs are counted one after the other.
    pub open spec fn at(self) -> int {
        self.report.scanned_refs as int
    }

    /// The refs that may be looked at.
    pub open spec fn limit(self) -> int {
        if self.refs@.len() > MAX_REFS {
            MAX_REFS as int
        } else {
            self.refs@.len() as int
        }
    }

    /// Counts stay within the refs, and the rows within their caps without
    /// losing the totals.
    pub open spec fn wf(self) -> bool {
        &&& self.at() <= self.limit()
        &&& self.report.matching_branches <= self.report.scanned_refs
        &&& self.report.branches@.len() == (if self.report.matching_branches > MAX_ROWS {
            MAX_ROWS as int
        } else {
            self.report.matching_branches as int
        })
        &&& forall|i: int|
            0 <= i < self.report.branches@.len() ==> capped((#[trigger] self.report.branches@[i])@)
    }
}

/// A row shows as many files as it may and counts them all.
pub open spec fn capped(row: OverlapView) -> bool {
    row.files_total > 0 && row.files.len() == (if row.files_total > MAX_FILES {
        MAX_FILES as nat
    } else {
        row.files_total
    })
}

impl Scan {
    /// Starts a scan at the head commit over the printed refs.
    pub fn begin(head: &str, raw_refs: &str, files: &Vec<String>) -> (out: Scan)
        ensures
            out.wf(),
            out.head@ == head@,
            text::views(out.refs@) == refs_in(text::lines(raw_refs@), head@),
            text::views(out.targets@) == counting(text::views(files@)),
            out.seen@.len() == 0,
            text::view_opt(out.report.current_commit) == Some(head@),
            out.report.total_refs == Some(out.refs@.len() as usize),
            out.report.scanned_refs == 0,
            out.report.matching_branches == 0,
            out.report.branches@.len() == 0,
            out.report.note is None,
            !out.report.complete,
    {
        let refs = parse_refs(raw_refs, head);
        let mut report = BranchOverlapReport::at(head);
        report.total_refs = Some(refs.len());
        Scan { head: head.to_string(), refs, targets: counting_of(files), seen: Vec::new(), report }
    }

    /// Turns to the next ref. Where one is left and the deadline has passed,
    /// nothing is done.
    pub fn next(&mut self, passed: bool) -> (out: Next)
        requires
            old(self).wf(),
        ensures
            final(self).wf(),
            final(self).head == old(self).head,
            final(self).refs == old(self).refs,
            final(self).targets == old(self).targets,
            match out {
                Next::Finished => old(self).at() == old(self).limit() && *final(self) == *old(self),
                Next::OutOfTime => {
                    &&& passed
                    &&& old(self).at() < old(self).limit()
                    &&& *final(self) == *old(self)
                },
                Next::Passed => {
                    &&& !passed
                    &&& old(self).at() < old(self).limit()
                    &&& text::views(old(self).seen@).contains(old(self).refs@[old(self).at()].sha@)
                    &&& final(self).seen == old(self).seen
                    &&& final(self).report == (BranchOverlapReport {
                        scanned_refs: (old(self).report.scanned_refs + 1) as usize,
                        ..old(self).report
                    })
                },
                Next::MergeBase(sha) => {
                    &&& !passed
                    &&& old(self).at() < old(self).limit()
                    &&& sha@ == old(self).refs@[old(self).at()].sha@
                    &&& !text::views(old(self).seen@).contains(sha@)
                    &&& text::views(final(self).seen@) == text::views(old(self).seen@).push(sha@)
                    &&& final(self).report == old(self).report
                },
            },
    {
        broadcast use text::group_views;
        let at: usize = self.report.scanned_refs;
        if at >= MAX_REFS || at >= self.refs.len() {
            return Next::Finished;
        }
        if passed {
            return Next::OutOfTime;
        }
        let sha = self.refs[at].sha.clone();
        if among(&self.seen, sha.as_str()) {
            self.report.scanned_refs = at + 1;
            return Next::Passed;
        }
        self.seen.push(sha.clone());
        Next::MergeBase(sha)
    }

    /// Takes the printed merge bases of the ref that was asked about. A branch
    /// that is ahead of the head commit, or behind it, does not overlap.
    pub fn with_bases(&mut self, raw: &str) -> (out: AfterBase)
        requires
            old(self).wf(),
            old(self).at() < old(self).limit(),
        ensures
            final(self).wf(),
            final(self).head == old(self).head,
            final(self).refs == old(self).refs,
            final(self).targets == old(self).targets,
            final(self).seen == old(self).seen,
            ({
                let bases = text::lines(raw@);
                let sha = old(self).refs@[old(self).at()].sha@;
                match out {
                    AfterBase::Passed => {
                        &&& bases.len() != 1 || bases[0] == old(self).head@ || bases[0] == sha
                        &&& final(self).report == (BranchOverlapReport {
                            scanned_refs: (old(self).report.scanned_refs + 1) as usize,
                            note: final(self).report.note,
                            ..old(self).report
                        })
                        &&& bases.len() == 1 ==> final(self).report.note == old(self).report.note
                        &&& bases.len() != 1 ==> text::view_opt(final(self).report.note) == Some(NO_BASE_NOTE@)
                    },
                    AfterBase::Diff(base) => {
                        &&& bases == seq![base@]
                        &&& base@ != old(self).head@
                        &&& base@ != sha
                        &&& final(self).report == old(self).report
                    },
                }
            }),
    {
        broadcast use text::group_views;
        let at: usize = self.report.scanned_refs;
        let bases = lines_of(raw);
        let ghost bs = text::views(bases@);
        if bases.len() != 1 {
            self.report.note = Some(NO_BASE_NOTE.to_string());
            self.report.scanned_refs = at + 1;
            return AfterBase::Passed;
        }
        let base = bases[0].clone();
        assert(bs =~= seq![base@]);
        if same(base.as_str(), self.head.as_str()) || same(base.as_str(), self.refs[at].sha.as_str()) {
            self.report.scanned_refs = at + 1;
            return AfterBase::Passed;
        }
        AfterBase::Diff(base)
    }

    /// Takes the paths that the branch changed since the merge base.
    pub fn with_diff(&mut self, base: &str, diff: &Vec<String>)
        requires
            old(self).wf(),
            old(self).at() < old(self).limit(),
        ensures
            final(self).wf(),
            final(self).head == old(self).head,
            final(self).refs == old(self).refs,
            final(self).targets == old(self).targets,
            final(self).seen == old(self).seen,
            ({
                let files = overlap(text::views(old(self).targets@), text::views(diff@));
                let matched = if files.len() > 0 {
                    1int
                } else {
                    0
                };
                &&& final(self).report == (BranchOverlapReport {
                    scanned_refs: (old(self).report.scanned_refs + 1) as usize,
                    matching_branches: (old(self).report.matching_branches + matched) as usize,
                    branches: final(self).report.branches,
                    ..old(self).report
                })
                &&& text::views(final(self).report.branches@) == (if files.len() > 0
                    && old(self).report.branches@.len() < MAX_ROWS {
                    text::views(old(self).report.branches@).push(
                        row_of(old(self).refs@[old(self).at()]@, base@, files),
                    )
                } else {
                    text::views(old(self).report.branches@)
                })
            }),
    {
        broadcast use text::group_views;
        let at: usize = self.report.scanned_refs;
        let mut files = overlap_of(&self.targets, diff);
        let total: usize = files.len();
        let ghost all = text::views(files@);
        self.report.scanned_refs = at + 1;
        if total > 0 {
            self.report.matching_branches = self.report.matching_branches + 1;
            if self.report.branches.len() < MAX_ROWS {
                if total > MAX_FILES {
                    files.truncate(MAX_FILES);
                    assert(text::views(files@) =~= all.take(MAX_FILES as int));
                }
                let row = BranchOverlap {
                    branch: self.refs[at].name.clone(),
                    commit: self.refs[at].sha.clone(),
                    merge_base: base.to_string(),
                    files_total: total,
                    files,
                    basis: BASIS.to_string(),
                };
                assert(row@ == row_of(self.refs@[at as int]@, base@, all));
                self.report.branches.push(row);
            }
        }
    }

    /// Ends the scan. It is complete where every ref was looked at and none had
    /// to be skipped.
    pub fn finish(self) -> (out: BranchOverlapReport)
        requires
            self.wf(),
        ensures
            out == (BranchOverlapReport { complete: out.complete, note: out.note, ..self.report }),
            out.complete == (self.report.scanned_refs == self.refs@.len() && self.report.note is None),
            if self.report.scanned_refs < self.refs@.len() {
                text::view_opt(out.note) == Some(
                    match self.report.note {
                        Some(n) => if n@.len() > 0 {
                            n@ + " "@ + NEWEST_NOTE@
                        } else {
                            NEWEST_NOTE@
                        },
                        None => NEWEST_NOTE@,
                    },
                )
            } else {
                out.note == self.report.note
            },
    {
        let total: usize = self.refs.len();
        let mut out = self.report;
        let cut = out.scanned_refs < total;
        out.complete = out.scanned_refs == total && out.note.is_none();
        if cut {
            let note = match &out.note {
                Some(n) => if n.as_str().unicode_len() > 0 {
                    concat3(n.as_str(), " ", NEWEST_NOTE)
                } else {
                    NEWEST_NOTE.to_string()
                },
                None => NEWEST_NOTE.to_string(),
            };
            out.note = Some(note);
        }
        out
    }
}

/// Capping the rows and the files of a row never loses a total: the rows are as
/// many as the matching branches up to the cap, and the files of a row as many
/// as it counts up to theirs.
pub proof fn law_caps_preserve_totals(s: Scan)
    requires
        s.wf(),
    ensures
        s.report.branches@.len() <= s.report.matching_branches,
        s.report.branches@.len() < s.report.matching_branches ==> s.report.branches@.len() == MAX_ROWS,
        forall|i: int|
            #![trigger s.report.branches@[i]]
            0 <= i < s.report.branches@.len() ==> {
                let row = s.report.branches@[i];
                &&& 0 < row.files@.len() <= row.files_total
                &&& row.files@.len() < row.files_total ==> row.files@.len() == MAX_FILES
            },
{
    assert forall|i: int|
        #![trigger s.report.branches@[i]]
        0 <= i < s.report.branches@.len() implies {
        let row = s.report.branches@[i];
        &&& 0 < row.files@.len() <= row.files_total
        &&& row.files@.len() < row.files_total ==> row.files@.len() == MAX_FILES
    } by {
        assert(capped(s.report.branches@[i]@));
        assert(text::views(s.report.branches@[i].files@).len() == s.report.branches@[i].files@.len());
    }
}

// ---------------------------------------------------------------------------
// Texts
// ---------------------------------------------------------------------------

/// The report in one line.
pub open spec fn summary(r: BranchOverlapReport) -> Seq<char> {
    "Branch overlap: "@ + text::decimal(r.matching_branches as nat) + " matching branch(es); scanned "@ + text::decimal(
        r.scanned_refs as nat,
    ) + "/"@ + (match r.total_refs {
        Some(n) => text::decimal(n as nat),
        None => "unknown"@,
    }) + " refs (local and remote-tracking refs; same-tip matches counted once; not a liveness check)."@ + (
    if r.matching_branches > r.branches@.len() {
        " Showing "@ + text::decimal(r.branches@.len()) + " branches."@
    } else {
        ""@
    }) + (match r.note {
        Some(n) => " "@ + n@,
        None => ""@,
    })
}

/// Sums the report up in one line.
pub fn branch_overlap_summary(report: &BranchOverlapReport) -> (out: String)
    ensures
        out@ == summary(*report),
{
    let total = match report.total_refs {
        Some(n) => decimal_of(n as u64),
        None => "unknown".to_string(),
    };
    let lead = concat4(
        "Branch overlap: ",
        decimal_of(report.matching_branches as u64).as_str(),
        " matching branch(es); scanned ",
        decimal_of(report.scanned_refs as u64).as_str(),
    );
    let scanned = concat4(
        lead.as_str(),
        "/",
        total.as_str(),
        " refs (local and remote-tracking refs; same-tip matches counted once; not a liveness check).",
    );
    let shown = if report.matching_branches > report.branches.len() {
        concat3(" Showing ", decimal_of(report.branches.len() as u64).as_str(), " branches.")
    } else {
        "".to_string()
    };
    let note = match &report.note {
        Some(n) => concat2(" ", n.as_str()),
        None => "".to_string(),
    };
    concat3(scanned.as_str(), shown.as_str(), note.as_str())
}

/// A text in double quotes, with what would not print escaped.
pub uninterp spec fn quoted(s: Seq<char>) -> Seq<char>;

/// Printable ASCII but for the single quote, or a tab, a line feed or a carriage
/// return.
pub open spec fn plain_char(c: char) -> bool {
    (' ' <= c <= '~' && c != '\'') || c == '\t' || c == '\n' || c == '\r'
}

/// Every character of `s` is plain.
pub open spec fn plain(s: Seq<char>) -> bool {
    forall|i: int| 0 <= i < s.len() ==> plain_char(#[trigger] s[i])
}

/// A plain character as it stands in double quotes.
pub open spec fn escaped_char(c: char) -> Seq<char> {
    if c == '\t' {
        seq!['\\', 't']
    } else if c == '\n' {
        seq!['\\', 'n']
    } else if c == '\r' {
        seq!['\\', 'r']
    } else if c == '"' || c == '\\' {
        seq!['\\', c]
    } else {
        seq![c]
    }
}

/// A plain text as it stands in double quotes.
pub open spec fn escaped(s: Seq<char>) -> Seq<char>
    decreases s.len(),
{
    if s.len() == 0 {
        Seq::empty()
    } else {
        escaped(s.drop_last()) + escaped_char(s.last())
    }
}

/// A plain text in double quotes.
pub open spec fn in_quotes(s: Seq<char>) -> Seq<char> {
    seq!['"'] + escaped(s) + seq!['"']
}

/// The `Debug` form of a `str`: in double quotes, with quotes, control
/// characters and the like escaped. Of a plain text it escapes the double quote,
/// the backslash, the tab, the line feed and the carriage return by a backslash,
/// and leaves the rest; the escapes of other texts are left to the name.
#[verifier::external_body]
fn quote(s: &str) -> (out: String)
    ensures
        out@ == quoted(s@),
        plain(s@) ==> out@ == in_quotes(s@),
{
    format!("{s:?}")
}

/// A text in double quotes: written out where it is plain.
pub open spec fn quotation(s: Seq<char>) -> Seq<char> {
    if plain(s) {
        in_quotes(s)
    } else {
        quoted(s)
    }
}

pub open spec fn all_quoted(paths: Seq<Seq<char>>) -> Seq<Seq<char>> {
    paths.map_values(|p: Seq<char>| quotation(p))
}

/// Paths in double quotes, with commas between them.
pub fn quoted_paths(paths: &Vec<String>) -> (out: String)
    ensures
        out@ == text::joined(all_quoted(text::views(paths@)), ", "@),
{
    broadcast use text::group_views;
    let ghost all = all_quoted(text::views(paths@));
    let mut parts: Vec<String> = Vec::new();
    let mut i: usize = 0;
    while i < paths.len()
        invariant
            i <= paths@.len(),
            all == all_quoted(text::views(paths@)),
            text::views(parts@) == all.take(i as int),
        decreases paths@.len() - i,
    {
        broadcast use text::group_views;
        assert(all.take(i + 1) =~= all.take(i as int).push(all[i as int]));
        parts.push(quote(paths[i].as_str()));
        i += 1;
    }
    assert(all.take(all.len() as int) =~= all);
    join(&parts, ", ")
}

/// How much an objection weighs.
#[derive(Debug, Clone, Copy, PartialEq, Eq, Structural)]
pub enum ReviewSeverity {
    Low,
    Medium,
    High,
}

/// Something that speaks against merging a change as it is.
#[derive(Debug)]
pub struct ReviewObjection {
    pub severity: ReviewSeverity,
    pub category: String,
    pub title: String,
    pub evidence: Vec<String>,
    pub files: Vec<String>,
}

/// What a row says as evidence.
pub open spec fn evidence(row: OverlapView) -> Seq<char> {
    quotation(row.branch) + " at "@ + row.commit + ": "@ + text::joined(all_quoted(row.files), ", "@) + " ("@ + row.basis
        + "; merge base "@ + row.merge_base + "; showing "@ + text::decimal(row.files.len()) + " of "@ + text::decimal(
        row.files_total,
    ) + " files)"@
}

fn evidence_of(row: &BranchOverlap) -> (out: String)
    ensures
        out@ == evidence(row@),
{
    broadcast use text::group_views;
    let lead = concat4(quote(row.branch.as_str()).as_str(), " at ", row.commit.as_str(), ": ");
    let named = concat4(lead.as_str(), quoted_paths(&row.files).as_str(), " (", row.basis.as_str());
    let based = concat4(named.as_str(), "; merge base ", row.merge_base.as_str(), "; showing ");
    concat5(
        based.as_str(),
        decimal_of(row.files.len() as u64).as_str(),
        " of ",
        decimal_of(row.files_total as u64).as_str(),
        " files)",
    )
}

pub open spec fn all_files(rows: Seq<OverlapView>) -> Seq<Seq<char>>
    decreases rows.len(),
{
    if rows.len() == 0 {
        Seq::empty()
    } else {
        all_files(rows.drop_last()) + rows.last().files
    }
}

/// The objection that overlapping branches raise, if there are any.
pub fn branch_overlap_objection(report: &BranchOverlapReport) -> (out: Option<ReviewObjection>)
    ensures
        out is Some == (report.branches@.len() > 0),
        out matches Some(o) ==> {
            let rows = text::views(report.branches@);
            &&& o.severity == ReviewSeverity::Low
            &&& o.category@ == "branch-overlap"@
            &&& o.title@ == "Other branches edit the same files; coordinate or rebase before merging"@
            &&& text::views(o.evidence@) == seq![summary(*report)] + rows.map_values(|r: OverlapView| evidence(r))
            &&& text::views(o.files@) == order::ascending_set(all_files(rows))
        },
{
    broadcast use text::group_views;
    if report.branches.len() == 0 {
        return None;
    }
    let ghost rows = text::views(report.branches@);
    let ghost said = rows.map_values(|r: OverlapView| evidence(r));
    let mut lines: Vec<String> = Vec::new();
    lines.push(branch_overlap_summary(report));
    let mut files: Vec<String> = Vec::new();
    let mut i: usize = 0;
    assert(text::views(lines@) =~= seq![summary(*report)] + said.take(0));
    while i < report.branches.len()
        invariant
            i <= report.branches@.len(),
            rows == text::views(report.branches@),
            said == rows.map_values(|r: OverlapView| evidence(r)),
            text::views(lines@) == seq![summary(*report)] + said.take(i as int),
            text::views(files@) == all_files(rows.take(i as int)),
        decreases report.branches@.len() - i,
    {
        broadcast use text::group_views;
        let row = &report.branches[i];
        proof {
            assert(rows.take(i + 1).drop_last() =~= rows.take(i as int));
            assert(rows.take(i + 1).last() == row@);
            assert(said.take(i + 1) =~= said.take(i as int).push(evidence(row@)));
        }
        lines.push(evidence_of(row));
        assert(text::views(lines@) =~= seq![summary(*report)] + said.take(i + 1));
        text::append_strings(&mut files, &row.files);
        i += 1;
    }
    assert(rows.take(rows.len() as int) =~= rows);
    assert(said.take(said.len() as int) =~= said);
    Some(
        ReviewObjection {
            severity: ReviewSeverity::Low,
            category: "branch-overlap".to_string(),
            title: "Other branches edit the same files; coordinate or rebase before merging".to_string(),
            evidence: lines,
            files: ascending_list(&files),
        },
    )
}

} // verus!
