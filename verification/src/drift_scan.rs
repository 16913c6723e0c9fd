//! Which files a commit range touched, which of them the index would hold, and
//! how their contents are compared.
use vstd::prelude::*;
use vstd::string::*;
use crate::drift;
use crate::drift::{FilesBehind, MAX_DRIFT_BLOB_BYTES};
use crate::globs;
use crate::globs::PatternSet;
use crate::order;
use crate::order::{among, before, sort, Ranked};
use crate::text;
use crate::text::{begins, concat2, concat4, hex_only, parse_up_to, same, split, split_once};

verus! {

// ---------------------------------------------------------------------------
// What discovery would index
// ---------------------------------------------------------------------------

/// The segments of a path, joined by slashes; empty segments in front leave no
/// trace.
pub open spec fn prefix(segments: Seq<Seq<char>>) -> Seq<char>
    decreases segments.len(),
{
    if segments.len() == 0 {
        Seq::empty()
    } else {
        let p = prefix(segments.drop_last());
        if p.len() == 0 {
            segments.last()
        } else {
            p + "/"@ + segments.last()
        }
    }
}

/// A directory is pruned: its name matches, with or without a slash behind it,
/// or a child of it would.
pub open spec fn pruned(patterns: Seq<Seq<char>>, dir: Seq<char>) -> bool {
    globs::any_matches(patterns, dir) || globs::any_matches(patterns, dir + "/"@) || globs::any_matches(patterns, dir + "/_"@)
}

/// A path is excluded when it matches, or a directory above it is pruned.
pub open spec fn excluded(patterns: Seq<Seq<char>>, path: Seq<char>) -> bool {
    let segments = text::pieces(path, '/');
    globs::any_matches(patterns, path) || exists|n: int|
        0 < n < segments.len() && pruned(patterns, #[trigger] prefix(segments.take(n)))
}

/// Some segment of the path begins with a dot.
pub open spec fn hidden(path: Seq<char>) -> bool {
    let segments = text::pieces(path, '/');
    exists|i: int| 0 <= i < segments.len() && text::starts_with(#[trigger] segments[i], "."@)
}

/// Would indexing pick up a path that the index does not hold? A path passes
/// with a supported language, no hidden component, and no match against the
/// patterns.
pub struct IndexableFilter {
    excludes: PatternSet,
}

impl IndexableFilter {
    /// The patterns of the filter.
    pub closed spec fn globs(&self) -> Seq<Seq<char>> {
        self.excludes.globs()
    }

    /// The filter passes a path; `supported` says whether its language is
    /// known.
    pub open spec fn passes(&self, path: Seq<char>, supported: bool) -> bool {
        supported && !hidden(path) && !excluded(self.globs(), path)
    }

    /// Exactly these patterns; an invalid one drops only itself.
    pub fn from_patterns(patterns: &Vec<String>) -> (out: Self)
        ensures
            out.globs() == globs::usable(text::views(patterns@)),
    {
        IndexableFilter { excludes: PatternSet::lenient(patterns) }
    }

    fn path_or_ancestor_excluded(&self, path: &str) -> (r: bool)
        ensures
            r == excluded(self.globs(), path@),
    {
        broadcast use text::group_views;
        let texts = exclusion_texts(path);
        let ghost all = tried(path@);
        proof {
            lemma_tried_decides(self.globs(), path@);
        }
        let mut i: usize = 0;
        while i < texts.len()
            invariant
                i <= texts@.len(),
                all == text::views(texts@),
                all == tried(path@),
                forall|j: int| 0 <= j < i ==> !globs::any_matches(self.globs(), #[trigger] all[j]),
                excluded(self.globs(), path@) <==> some_matches(self.globs(), all),
            decreases texts@.len() - i,
        {
            broadcast use text::group_views;
            assert(all[i as int] == texts@[i as int]@);
            if self.excludes.matches(texts[i].as_str()) {
                return true;
            }
            i += 1;
        }
        false
    }

    /// Whether indexing would pick up the path.
    pub fn admits(&self, rel_path: &str, supported: bool) -> (r: bool)
        ensures
            r == self.passes(rel_path@, supported),
    {
        indexable(rel_path, supported, self.path_or_ancestor_excluded(rel_path))
    }
}

/// The texts that stand for the first `n` directories above a path: each with
/// nothing behind it, with a slash, and with a child.
pub open spec fn directories_tried(path: Seq<char>, n: int) -> Seq<Seq<char>>
    decreases n,
{
    if n <= 0 {
        Seq::empty()
    } else {
        let dir = prefix(text::pieces(path, '/').take(n));
        directories_tried(path, n - 1).push(dir).push(dir + "/"@).push(dir + "/_"@)
    }
}

/// The texts that are matched to decide whether a path is excluded.
pub open spec fn tried(path: Seq<char>) -> Seq<Seq<char>> {
    seq![path] + directories_tried(path, text::pieces(path, '/').len() - 1)
}

/// Some of the texts match.
pub open spec fn some_matches(patterns: Seq<Seq<char>>, texts: Seq<Seq<char>>) -> bool {
    exists|i: int| 0 <= i < texts.len() && globs::any_matches(patterns, #[trigger] texts[i])
}

/// Lists the texts that are matched to decide whether a path is excluded: the
/// path itself, and the directories above it.
pub fn exclusion_texts(path: &str) -> (out: Vec<String>)
    ensures
        text::views(out@) == tried(path@),
{
    broadcast use text::group_views;
    let segments = split(path, '/');
    let ghost all = text::pieces(path@, '/');
    proof {
        text::lemma_pieces_nonempty(path@, '/', 0, 0);
    }
    let dirs: usize = segments.len() - 1;
    let mut out: Vec<String> = Vec::new();
    out.push(path.to_string());
    let mut above = String::new();
    let mut i: usize = 0;
    assert(all.take(0) =~= Seq::<Seq<char>>::empty());
    assert(text::views(out@) =~= seq![path@] + directories_tried(path@, 0));
    while i < dirs
        invariant
            i <= dirs,
            dirs + 1 == segments@.len(),
            all == text::views(segments@),
            all == text::pieces(path@, '/'),
            above@ == prefix(all.take(i as int)),
            text::views(out@) == seq![path@] + directories_tried(path@, i as int),
        decreases dirs - i,
    {
        broadcast use text::group_views;
        proof {
            assert(all.take(i + 1).drop_last() =~= all.take(i as int));
            assert(all.take(i + 1).last() == all[i as int]);
        }
        let empty = above.as_str().unicode_len() == 0;
        if empty {
            above = segments[i].clone();
        } else {
            above = text::concat3(above.as_str(), "/", segments[i].as_str());
        }
        assert(above@ == prefix(all.take(i + 1)));
        out.push(above.clone());
        out.push(concat2(above.as_str(), "/"));
        out.push(concat2(above.as_str(), "/_"));
        assert(text::views(out@) =~= seq![path@] + directories_tried(path@, i + 1));
        i += 1;
    }
    out
}

proof fn lemma_directories_tried_decide(patterns: Seq<Seq<char>>, path: Seq<char>, k: int)
    ensures
        some_matches(patterns, directories_tried(path, k)) <==> exists|n: int|
            0 < n <= k && pruned(patterns, #[trigger] prefix(text::pieces(path, '/').take(n))),
    decreases k,
{
    if k > 0 {
        lemma_directories_tried_decide(patterns, path, k - 1);
        let dir = prefix(text::pieces(path, '/').take(k));
        let less = directories_tried(path, k - 1);
        let all = directories_tried(path, k);
        let m = less.len() as int;
        assert(all[m] == dir && all[m + 1] == dir + "/"@ && all[m + 2] == dir + "/_"@);
        if some_matches(patterns, less) {
            let i = choose|i: int| 0 <= i < less.len() && globs::any_matches(patterns, #[trigger] less[i]);
            assert(globs::any_matches(patterns, all[i]));
        }
        if some_matches(patterns, all) && !pruned(patterns, dir) {
            let i = choose|i: int| 0 <= i < all.len() && globs::any_matches(patterns, #[trigger] all[i]);
            assert(i < m);
            assert(globs::any_matches(patterns, less[i]));
        }
    }
}

proof fn lemma_tried_decides(patterns: Seq<Seq<char>>, path: Seq<char>)
    ensures
        excluded(patterns, path) <==> some_matches(patterns, tried(path)),
{
    let k = text::pieces(path, '/').len() - 1;
    lemma_directories_tried_decide(patterns, path, k);
    let dirs = directories_tried(path, k);
    let all = tried(path);
    assert(all[0] == path);
    if some_matches(patterns, dirs) {
        let i = choose|i: int| 0 <= i < dirs.len() && globs::any_matches(patterns, #[trigger] dirs[i]);
        assert(all[i + 1] == dirs[i]);
        assert(globs::any_matches(patterns, all[i + 1]));
    }
    if some_matches(patterns, all) && !globs::any_matches(patterns, path) {
        let i = choose|i: int| 0 <= i < all.len() && globs::any_matches(patterns, #[trigger] all[i]);
        assert(dirs[i - 1] == all[i]);
        assert(globs::any_matches(patterns, dirs[i - 1]));
    }
}

/// Whether indexing would pick up a path of a supported language or not, that
/// the patterns exclude or not.
pub fn indexable(path: &str, supported: bool, excluded: bool) -> (r: bool)
    ensures
        r == (supported && !hidden(path@) && !excluded),
{
    supported && !is_hidden(path) && !excluded
}

fn is_hidden(path: &str) -> (r: bool)
    ensures
        r == hidden(path@),
{
    broadcast use text::group_views;
    let segments = split(path, '/');
    let mut i: usize = 0;
    while i < segments.len()
        invariant
            i <= segments.len(),
            text::views(segments@) == text::pieces(path@, '/'),
            forall|j: int| 0 <= j < i ==> !text::starts_with(#[trigger] text::pieces(path@, '/')[j], "."@),
        decreases segments.len() - i,
    {
        broadcast use text::group_views;
        assert(text::pieces(path@, '/')[i as int] == segments@[i as int]@);
        if begins(segments[i].as_str(), ".") {
            return true;
        }
        i += 1;
    }
    false
}

/// What one directory prunes stays pruned below it.
pub proof fn law_a_pruned_directory_excludes_what_lies_below(patterns: Seq<Seq<char>>, path: Seq<char>, n: int)
    requires
        0 < n < text::pieces(path, '/').len(),
        pruned(patterns, prefix(text::pieces(path, '/').take(n))),
    ensures
        excluded(patterns, path),
{
}

// ---------------------------------------------------------------------------
// Candidates
// ---------------------------------------------------------------------------

/// A path that the commit range touched, and whether indexing would pick it up.
#[derive(Debug)]
pub struct TouchedPath {
    pub path: String,
    pub admitted: bool,
}

/// The content hash that the index holds for a path.
#[derive(Debug)]
pub struct IndexedHash {
    pub path: String,
    pub hash: String,
}

/// A touched path with the content hash the index holds for it. Without one
/// the index does not hold the path.
#[derive(Debug)]
pub struct Candidate {
    pub path: String,
    pub hash: Option<String>,
}

pub struct TouchedView {
    pub path: Seq<char>,
    pub admitted: bool,
}

pub struct IndexedView {
    pub path: Seq<char>,
    pub hash: Seq<char>,
}

pub struct CandidateView {
    pub path: Seq<char>,
    pub hash: Option<Seq<char>>,
}

impl View for TouchedPath {
    type V = TouchedView;

    open spec fn view(&self) -> TouchedView {
        TouchedView { path: self.path@, admitted: self.admitted }
    }
}

impl View for IndexedHash {
    type V = IndexedView;

    open spec fn view(&self) -> IndexedView {
        IndexedView { path: self.path@, hash: self.hash@ }
    }
}

impl View for Candidate {
    type V = CandidateView;

    open spec fn view(&self) -> CandidateView {
        CandidateView { path: self.path@, hash: text::view_opt(self.hash) }
    }
}

/// By path; with equal paths an unindexed one first, then by hash.
pub open spec fn candidate_before(a: CandidateView, b: CandidateView) -> bool {
    order::text_before(a.path, b.path) || (a.path == b.path && match (a.hash, b.hash) {
        (None, Some(_)) => true,
        (Some(x), Some(y)) => order::text_before(x, y),
        _ => false,
    })
}

impl Ranked for Candidate {
    open spec fn ahead(a: CandidateView, b: CandidateView) -> bool {
        candidate_before(a, b)
    }

    fn is_ahead(&self, other: &Candidate) -> (r: bool) {
        if before(self.path.as_str(), other.path.as_str()) {
            return true;
        }
        same(self.path.as_str(), other.path.as_str()) && match (&self.hash, &other.hash) {
            (None, Some(_)) => true,
            (Some(x), Some(y)) => before(x.as_str(), y.as_str()),
            _ => false,
        }
    }

    proof fn ahead_is_asymmetric(a: CandidateView, b: CandidateView) {
        assert(<Candidate as Ranked>::ahead(a, b) == candidate_before(a, b));
        if order::text_before(b.path, a.path) {
            if order::text_before(a.path, b.path) {
                order::lemma_text_before_transitive(a.path, b.path, a.path);
            }
            order::lemma_text_before_irreflexive(a.path);
        } else if a.path == b.path {
            order::lemma_text_before_irreflexive(a.path);
            if let (Some(x), Some(y)) = (a.hash, b.hash) {
                if order::text_before(y, x) {
                    order::lemma_text_before_transitive(x, y, x);
                    order::lemma_text_before_irreflexive(x);
                }
            }
        }
    }

    proof fn ahead_is_negatively_transitive(a: CandidateView, b: CandidateView, c: CandidateView) {
        order::lemma_text_before_total(a.path, b.path);
        order::lemma_text_before_total(b.path, c.path);
        order::lemma_text_before_irreflexive(a.path);
        if order::text_before(a.path, c.path) && a.path != b.path {
            order::lemma_text_before_transitive(b.path, a.path, c.path);
        }
        if a.path == c.path && a.path != b.path {
            order::lemma_text_before_transitive(b.path, a.path, b.path);
            order::lemma_text_before_irreflexive(b.path);
        }
        if a.path == b.path && b.path == c.path {
            if let (Some(x), Some(z)) = (a.hash, c.hash) {
                if let Some(y) = b.hash {
                    order::lemma_text_before_total(x, y);
                    order::lemma_text_before_total(y, z);
                    if order::text_before(x, z) && x != y {
                        order::lemma_text_before_transitive(y, x, z);
                    }
                }
            }
        }
    }
}

/// The hash that the index holds for a path.
pub open spec fn hash_at(indexed: Seq<IndexedView>, path: Seq<char>) -> Option<Seq<char>>
    decreases indexed.len(),
{
    if indexed.len() == 0 {
        None
    } else if indexed[0].path == path {
        Some(indexed[0].hash)
    } else {
        hash_at(indexed.skip(1), path)
    }
}

fn hash_of(indexed: &Vec<IndexedHash>, path: &str) -> (out: Option<String>)
    ensures
        text::view_opt(out) == hash_at(text::views(indexed@), path@),
{
    broadcast use text::group_views;
    let ghost all = text::views(indexed@);
    let mut i: usize = 0;
    assert(all.skip(0) =~= all);
    while i < indexed.len()
        invariant
            i <= indexed.len(),
            all == text::views(indexed@),
            hash_at(all, path@) == hash_at(all.skip(i as int), path@),
        decreases indexed.len() - i,
    {
        broadcast use text::group_views;
        assert(all.skip(i as int)[0] == indexed@[i as int]@);
        assert(all.skip(i as int).skip(1) =~= all.skip(i + 1));
        if same(indexed[i].path.as_str(), path) {
            return Some(indexed[i].hash.clone());
        }
        i += 1;
    }
    assert(all.skip(i as int).len() == 0);
    None
}

/// The touched paths that are worth comparing: those the index holds, and those
/// it would pick up.
pub open spec fn worth_comparing(touched: Seq<TouchedView>, indexed: Seq<IndexedView>) -> Seq<CandidateView>
    decreases touched.len(),
{
    if touched.len() == 0 {
        Seq::empty()
    } else {
        let t = touched.last();
        let hash = hash_at(indexed, t.path);
        let rest = worth_comparing(touched.drop_last(), indexed);
        if hash is Some || t.admitted {
            rest.push(CandidateView { path: t.path, hash })
        } else {
            rest
        }
    }
}

/// The candidates worth comparing, up to a number, and whether some were left out.
pub open spec fn selects(
    out: (Seq<CandidateView>, bool),
    touched: Seq<TouchedView>,
    indexed: Seq<IndexedView>,
    max: usize,
) -> bool {
    &&& ({
        let all = order::sorted::<Candidate>(
            worth_comparing(touched, indexed),
        );
        &&& out.1 == (all.len() > max)
        &&& out.0 == (if all.len() > max {
            all.take(max as int)
        } else {
            all
        })
    })
}

/// The candidates of a comparison, in order and no more than `max` of them, and
/// whether some had to be left out.
pub fn select_candidates(touched: &Vec<TouchedPath>, indexed: &Vec<IndexedHash>, max: usize) -> (out: (
    Vec<Candidate>,
    bool,
))
    ensures
        selects((text::views(out.0@), out.1), text::views(touched@), text::views(indexed@), max),
{
    broadcast use text::group_views;
    let ghost ts = text::views(touched@);
    let ghost ix = text::views(indexed@);
    let mut found: Vec<Candidate> = Vec::new();
    let mut i: usize = 0;
    while i < touched.len()
        invariant
            i <= touched.len(),
            ts == text::views(touched@),
            ix == text::views(indexed@),
            text::views(found@) == worth_comparing(ts.take(i as int), ix),
        decreases touched.len() - i,
    {
        broadcast use text::group_views;
        proof {
            assert(ts.take(i + 1).drop_last() =~= ts.take(i as int));
            assert(ts.take(i + 1).last() == touched@[i as int]@);
        }
        let t = &touched[i];
        let hash = hash_of(indexed, t.path.as_str());
        if hash.is_some() || t.admitted {
            found.push(Candidate { path: t.path.clone(), hash });
        }
        i += 1;
    }
    assert(ts.take(ts.len() as int) =~= ts);
    let mut all = sort(found);
    let over = all.len() > max;
    if over {
        let ghost sorted = text::views(all@);
        all.truncate(max);
        assert(text::views(all@) =~= sorted.take(max as int));
    }
    (all, over)
}

/// A candidate that discovery would not skip: an indexed one, or one that is
/// neither ignored nor a symbolic link.
pub open spec fn discoverable(c: CandidateView, ignored: Seq<Seq<char>>, symlinks: Seq<Seq<char>>) -> bool {
    c.hash is Some || !(ignored.contains(c.path) || symlinks.contains(c.path))
}

/// The candidates that discovery would not skip.
pub fn retain_discoverable(candidates: Vec<Candidate>, ignored: &Vec<String>, symlinks: &Vec<String>) -> (out: Vec<
    Candidate,
>)
    ensures
        text::views(out@) == text::views(candidates@).filter(
            |c: CandidateView| discoverable(c, text::views(ignored@), text::views(symlinks@)),
        ),
{
    broadcast use text::group_views;
    let ghost all = text::views(candidates@);
    let ghost keep = |c: CandidateView| discoverable(c, text::views(ignored@), text::views(symlinks@));
    let ghost items = candidates@;
    let mut out: Vec<Candidate> = Vec::new();
    assert(all.take(0).filter(keep) =~= Seq::<CandidateView>::empty()) by {
        reveal(Seq::filter);
    }
    for c in it: candidates
        invariant
            it.seq() == items,
            all == text::views(items),
            keep == (|c: CandidateView| discoverable(c, text::views(ignored@), text::views(symlinks@))),
            text::views(out@) == all.take(it.index()).filter(keep),
    {
        broadcast use text::group_views;
        proof {
            reveal(Seq::filter);
            assert(all.take(it.index() + 1).drop_last() =~= all.take(it.index()));
            assert(all.take(it.index() + 1).last() == c@);
        }
        if c.hash.is_some() || !(among(ignored, c.path.as_str()) || among(symlinks, c.path.as_str())) {
            out.push(c);
        }
    }
    assert(all.take(all.len() as int) =~= all);
    out
}

/// No candidate that the index holds is dropped.
pub proof fn law_indexed_candidates_are_never_dropped(
    c: CandidateView,
    candidates: Seq<CandidateView>,
    ignored: Seq<Seq<char>>,
    symlinks: Seq<Seq<char>>,
)
    requires
        candidates.contains(c),
        c.hash is Some,
    ensures
        candidates.filter(|c: CandidateView| discoverable(c, ignored, symlinks)).contains(c),
    decreases candidates.len(),
{
    reveal(Seq::filter);
    let keep = |c: CandidateView| discoverable(c, ignored, symlinks);
    let front = candidates.drop_last();
    let kept = front.filter(keep);
    if candidates.last() == c {
        assert(kept.push(c).last() == c);
        assert(kept.push(c).contains(c));
    } else {
        let i = choose|i: int| 0 <= i < candidates.len() && candidates[i] == c;
        assert(front[i] == c);
        law_indexed_candidates_are_never_dropped(c, front, ignored, symlinks);
        let j = choose|j: int| 0 <= j < kept.len() && kept[j] == c;
        let full = candidates.filter(keep);
        assert(full[j] == c);
    }
}

// ---------------------------------------------------------------------------
// What the version control prints
// ---------------------------------------------------------------------------

/// A commit name that nothing can take for an option or a path.
pub open spec fn object_name(sha: Seq<char>) -> bool {
    0 < sha.len() <= 64 && text::all_hex(sha)
}

/// Whether a text is a commit name.
pub fn is_object_name(sha: &str) -> (r: bool)
    ensures
        r == object_name(sha@),
{
    let n: usize = sha.unicode_len();
    0 < n && n <= 64 && hex_only(sha)
}

/// The paths of a list that is separated by NUL characters.
pub open spec fn listed(raw: Seq<char>) -> Seq<Seq<char>> {
    text::pieces(raw, '\0').filter(|p: Seq<char>| p.len() > 0)
}

/// Reads a list of paths that is separated by NUL characters.
pub fn listed_paths(raw: &str) -> (out: Vec<String>)
    ensures
        text::views(out@) == listed(raw@),
{
    broadcast use text::group_views;
    let all = split(raw, '\0');
    let ghost ps = text::views(all@);
    let ghost keep = |p: Seq<char>| p.len() > 0;
    let mut out: Vec<String> = Vec::new();
    let mut i: usize = 0;
    assert(ps.take(0).filter(keep) =~= Seq::<Seq<char>>::empty()) by {
        reveal(Seq::filter);
    }
    while i < all.len()
        invariant
            i <= all.len(),
            ps == text::views(all@),
            keep == (|p: Seq<char>| p.len() > 0),
            text::views(out@) == ps.take(i as int).filter(keep),
        decreases all.len() - i,
    {
        broadcast use text::group_views;
        proof {
            reveal(Seq::filter);
            assert(ps.take(i + 1).drop_last() =~= ps.take(i as int));
            assert(ps.take(i + 1).last() == all@[i as int]@);
        }
        if all[i].as_str().unicode_len() > 0 {
            out.push(all[i].clone());
        }
        i += 1;
    }
    assert(ps.take(ps.len() as int) =~= ps);
    out
}

/// The path of a tree record, where it is a symbolic link: the mode stands in
/// front, the path behind the first tabulator.
pub open spec fn symlink_in(record: Seq<char>) -> Option<Seq<char>> {
    match text::split_first(record, "\t"@) {
        Some((meta, path)) => if text::starts_with(meta, "120000 "@) {
            Some(path)
        } else {
            None
        },
        None => None,
    }
}

pub open spec fn symlinks_in(records: Seq<Seq<char>>) -> Seq<Seq<char>>
    decreases records.len(),
{
    if records.len() == 0 {
        Seq::empty()
    } else {
        let rest = symlinks_in(records.drop_last());
        match symlink_in(records.last()) {
            Some(path) => rest.push(path),
            None => rest,
        }
    }
}

/// The symbolic links of a tree listing.
pub fn symlink_paths(raw: &str) -> (out: Vec<String>)
    ensures
        text::views(out@) == symlinks_in(text::pieces(raw@, '\0')),
{
    broadcast use text::group_views;
    let all = split(raw, '\0');
    let ghost rs = text::views(all@);
    let mut out: Vec<String> = Vec::new();
    let mut i: usize = 0;
    while i < all.len()
        invariant
            i <= all.len(),
            rs == text::views(all@),
            text::views(out@) == symlinks_in(rs.take(i as int)),
        decreases all.len() - i,
    {
        broadcast use text::group_views;
        proof {
            assert(rs.take(i + 1).drop_last() =~= rs.take(i as int));
            assert(rs.take(i + 1).last() == all@[i as int]@);
        }
        if let Some((meta, path)) = split_once(all[i].as_str(), "\t") {
            if begins(meta, "120000 ") {
                out.push(path.to_string());
            }
        }
        i += 1;
    }
    assert(rs.take(rs.len() as int) =~= rs);
    out
}

// ---------------------------------------------------------------------------
// Comparing the contents
// ---------------------------------------------------------------------------

/// A path can be asked for: the requests are lines, so it holds no newline.
pub open spec fn askable(path: Seq<char>) -> bool {
    !path.contains('\n')
}

fn is_askable(path: &str) -> (r: bool)
    ensures
        r == askable(path@),
{
    let cs = text::chars_of(path);
    let mut i: usize = 0;
    while i < cs.len()
        invariant
            i <= cs.len(),
            cs@ == path@,
            forall|j: int| 0 <= j < i ==> path@[j] != '\n',
        decreases cs.len() - i,
    {
        if cs[i] == '\n' {
            assert(path@[i as int] == '\n');
            return false;
        }
        i += 1;
    }
    true
}

/// The sample after some paths have been recorded one after the other.
pub open spec fn sampled(sample: Seq<Seq<char>>, paths: Seq<CandidateView>) -> Seq<Seq<char>>
    decreases paths.len(),
{
    if paths.len() == 0 {
        sample
    } else {
        let s = sampled(sample, paths.drop_last());
        if s.len() < drift::DRIFT_SAMPLE {
            s.push(paths.last().path)
        } else {
            s
        }
    }
}

/// The candidates that can be asked for. The others are counted as affected:
/// what cannot be verified speaks for reindexing.
pub fn set_aside_unaskable(candidates: Vec<Candidate>, behind: &mut FilesBehind) -> (out: Vec<Candidate>)
    requires
        old(behind).count + candidates@.len() <= usize::MAX,
    ensures
        ({
            let all = text::views(candidates@);
            let unaskable = all.filter(|c: CandidateView| !askable(c.path));
            &&& text::views(out@) == all.filter(|c: CandidateView| askable(c.path))
            &&& final(behind).count == old(behind).count + unaskable.len()
            &&& text::views(final(behind).sample@) == sampled(text::views(old(behind).sample@), unaskable)
            &&& final(behind).bounded == old(behind).bounded
            &&& old(behind).wf() ==> final(behind).wf()
        }),
{
    broadcast use text::group_views;
    let ghost all = text::views(candidates@);
    let ghost yes = |c: CandidateView| askable(c.path);
    let ghost no = |c: CandidateView| !askable(c.path);
    let ghost items = candidates@;
    let ghost start = *behind;
    let mut out: Vec<Candidate> = Vec::new();
    assert(all.take(0).filter(yes) =~= Seq::<CandidateView>::empty() && all.take(0).filter(no) =~= Seq::<
        CandidateView,
    >::empty()) by {
        reveal(Seq::filter);
    }
    for c in it: candidates
        invariant
            it.seq() == items,
            all == text::views(items),
            yes == (|c: CandidateView| askable(c.path)),
            no == (|c: CandidateView| !askable(c.path)),
            start.count + items.len() <= usize::MAX,
            text::views(out@) == all.take(it.index()).filter(yes),
            behind.count == start.count + all.take(it.index()).filter(no).len(),
            all.take(it.index()).filter(no).len() <= it.index(),
            text::views(behind.sample@) == sampled(text::views(start.sample@), all.take(it.index()).filter(no)),
            behind.bounded == start.bounded,
            start.wf() ==> behind.wf(),
    {
        broadcast use text::group_views;
        let ghost i = it.index();
        let ghost gone = all.take(i).filter(no);
        proof {
            reveal(Seq::filter);
            assert(all.take(i + 1).drop_last() =~= all.take(i));
            assert(all.take(i + 1).last() == c@);
        }
        if is_askable(c.path.as_str()) {
            out.push(c);
        } else {
            assert(gone.push(c@).drop_last() =~= gone);
            assert(text::views(behind.sample@).len() == behind.sample@.len());
            behind.record(c.path.as_str());
        }
    }
    assert(all.take(all.len() as int) =~= all);
    out
}

/// The requests for the contents of the candidates at a commit, one per line.
pub open spec fn requested(head: Seq<char>, candidates: Seq<CandidateView>) -> Seq<char>
    decreases candidates.len(),
{
    if candidates.len() == 0 {
        ""@
    } else {
        requested(head, candidates.drop_last()) + (head + ":./"@ + candidates.last().path + "\n"@)
    }
}

/// Writes the requests for the contents of the candidates.
pub fn batch_requests(head: &str, candidates: &Vec<Candidate>) -> (out: String)
    ensures
        out@ == requested(head@, text::views(candidates@)),
{
    broadcast use text::group_views;
    let ghost all = text::views(candidates@);
    let mut out = "".to_string();
    let mut i: usize = 0;
    while i < candidates.len()
        invariant
            i <= candidates.len(),
            all == text::views(candidates@),
            out@ == requested(head@, all.take(i as int)),
        decreases candidates.len() - i,
    {
        broadcast use text::group_views;
        proof {
            assert(all.take(i + 1).drop_last() =~= all.take(i as int));
            assert(all.take(i + 1).last() == candidates@[i as int]@);
        }
        let line = concat4(head, ":./", candidates[i].path.as_str(), "\n");
        out = concat2(out.as_str(), line.as_str());
        i += 1;
    }
    assert(all.take(all.len() as int) =~= all);
    out
}

/// The header of an object, `<name> <type> <size>`: whether it is a blob, and
/// its size. Nothing where the line is no such header. The shape of the name is
/// checked, so that a path that looks like a header cannot be taken for one.
pub open spec fn batch_header(header: Seq<char>) -> Option<(bool, nat)> {
    let fields = text::pieces(header, ' ');
    if fields.len() != 3 || fields[0].len() < 40 || !text::all_hex(fields[0]) {
        None
    } else {
        match text::parsed(fields[2], u64::MAX as nat) {
            Some(size) => Some((fields[1] == "blob"@, size)),
            None => None,
        }
    }
}

/// Reads the header of an object.
pub fn parse_batch_header(header: &str) -> (out: Option<(bool, u64)>)
    ensures
        match out {
            Some(h) => batch_header(header@) == Some((h.0, h.1 as nat)),
            None => batch_header(header@) is None,
        },
{
    broadcast use text::group_views;
    let fields = split(header, ' ');
    if fields.len() != 3 || fields[0].as_str().unicode_len() < 40 || !hex_only(fields[0].as_str()) {
        return None;
    }
    match parse_up_to(fields[2].as_str(), u64::MAX) {
        Some(size) => Some((same(fields[1].as_str(), "blob"), size)),
        None => None,
    }
}

/// What to do with the record of one candidate.
#[derive(Debug, Clone, Copy, PartialEq, Eq, Structural)]
pub enum Verdict {
    /// The record has no payload; the candidate is affected or not.
    Absent { affected: bool },
    /// The payload of this many bytes is passed over.
    Skip { affected: bool, size: u64 },
    /// The payload of this many bytes is read and its hash compared.
    Read { size: u64 },
}

/// The verdict on a record. `indexable` is the largest file that is indexed.
pub open spec fn judged(header: Option<(bool, nat)>, indexed: bool, indexable: nat) -> Verdict {
    match header {
        None => Verdict::Absent { affected: indexed },
        Some((blob, size)) => if !indexed {
            Verdict::Skip { affected: blob && size <= indexable, size: size as u64 }
        } else if !blob || size > MAX_DRIFT_BLOB_BYTES {
            Verdict::Skip { affected: true, size: size as u64 }
        } else {
            Verdict::Read { size: size as u64 }
        },
    }
}

/// Judges the record of one candidate by its first line. A line that is no
/// header says that the commit no longer carries the path: that affects an
/// indexed one. An added file need not be read: a blob of an indexable size is
/// affected, whatever it holds.
pub fn judge(line: &str, indexed: bool, indexable: u64) -> (out: Verdict)
    ensures
        out == judged(batch_header(text::without_trailing(line@, '\n')), indexed, indexable as nat),
{
    match parse_batch_header(text::drop_trailing(line, '\n')) {
        None => Verdict::Absent { affected: indexed },
        Some((blob, size)) => if !indexed {
            Verdict::Skip { affected: blob && size <= indexable, size }
        } else if !blob || size > MAX_DRIFT_BLOB_BYTES {
            Verdict::Skip { affected: true, size }
        } else {
            Verdict::Read { size }
        },
    }
}

} // verus!
