//! How far an index is behind its repository.
use vstd::prelude::*;
use crate::drift;
use crate::drift::{CommitsBetween, DriftKind, DriftReport, FilesBehind};
use crate::drift_log;
use crate::drift_log::LogLineView;
use crate::drift_scan;
use crate::drift_scan::{Candidate, CandidateView, IndexedView, TouchedView, Verdict};
use crate::laws::sorting;
use crate::order;
use crate::text;

verus! {

// ---------------------------------------------------------------------------
// Reports
// ---------------------------------------------------------------------------

/// What a report says: without a head commit there is nothing to measure; without
/// a stamp the index was never built; the same commit is fresh; an ancestor is
/// behind by the commits between, and any other commit is unrelated.
pub proof fn law_two_commits_say_how_far_the_index_is_behind(
    out: DriftReport,
    stored: Option<(String, i64)>,
    head: Option<String>,
    in_git: bool,
    way: CommitsBetween,
    behind: Option<FilesBehind>,
)
    requires
        drift::tells_drift(out, stored, head, in_git, way, behind),
    ensures
        head is None && !in_git ==> out.kind == DriftKind::NotGit,
        head is None && in_git ==> out.kind == DriftKind::NeverIndexed,
        head is Some && stored is None ==> out.kind == DriftKind::NeverIndexed,
        (head matches Some(h) && (stored matches Some(s) && s.0@ == h@)) ==> out.kind == DriftKind::Fresh
            && out.commits_between == Some(0u32) && out.indexed_files_behind == Some(0usize),
        (head matches Some(h) && (stored matches Some(s) && s.0@ != h@)) ==> {
            &&& way matches CommitsBetween::Count(n) ==> out.kind == DriftKind::BehindHead && out.commits_between == Some(n)
            &&& way is NotAncestor ==> out.kind == DriftKind::UnrelatedAncestor && out.commits_between is None
            &&& way is Unknown ==> out.kind == DriftKind::Unknown && out.commits_between is None
            &&& behind matches Some(b) ==> out.indexed_files_behind == Some(b.count) && out.indexed_files_behind_bounded
                == b.bounded && out.indexed_files_behind_sample == b.sample
            &&& behind is None ==> out.indexed_files_behind is None
        },
        stored matches Some(s) ==> out.stored_at == Some(s.1),
        out.head_sha == head,
{
}

/// Indexing again is due where the index is off the head commit, unless a
/// complete comparison found every indexed file as it is; where the two commits
/// cannot be related, only a comparison that found something says so.
pub proof fn law_reindexing_is_due_where_content_may_differ(r: DriftReport)
    ensures
        r.kind == DriftKind::NotGit || r.kind == DriftKind::NeverIndexed || r.kind == DriftKind::Fresh ==> !drift::stale(
            r,
        ),
        r.kind == DriftKind::BehindHead || r.kind == DriftKind::UnrelatedAncestor ==> {
            &&& r.indexed_files_behind is None ==> drift::stale(r)
            &&& r.indexed_files_behind_bounded ==> drift::stale(r)
            &&& r.indexed_files_behind matches Some(n) ==> (n > 0 ==> drift::stale(r)) && (n == 0
                && !r.indexed_files_behind_bounded ==> !drift::stale(r))
        },
        r.kind == DriftKind::Unknown ==> {
            &&& r.indexed_files_behind is None ==> !drift::stale(r)
            &&& r.indexed_files_behind matches Some(n) ==> (drift::stale(r) <==> n > 0 || r.indexed_files_behind_bounded)
        },
{
}

/// The commits between two: none are counted without an answer to whether the one
/// is an ancestor of the other, or where it is not; else the count is read.
pub proof fn law_commits_are_counted_between_an_ancestor_and_its_descendant(raw: Option<Seq<char>>, n: nat)
    ensures
        drift::between(None, raw) == CommitsBetween::Unknown,
        drift::between(Some(false), raw) == CommitsBetween::NotAncestor,
        drift::between(Some(true), None) == CommitsBetween::Unknown,
        (raw matches Some(s) && text::parsed(text::trimmed(s), u32::MAX as nat) == Some(n)) ==> drift::between(
            Some(true),
            raw,
        ) == CommitsBetween::Count(n as u32),
{
}

/// A moment is told by the largest whole unit that has passed since.
pub proof fn law_an_age_is_told_in_its_largest_unit(now: int, unix: int)
    ensures
        0 <= now - unix < 60 ==> drift::age(now, unix) == "just now"@,
        60 <= now - unix < 3600 ==> drift::age(now, unix) == drift::units_ago(((now - unix) / 60) as nat, " minute"@),
        3600 <= now - unix < 86_400 ==> drift::age(now, unix) == drift::units_ago(
            ((now - unix) / 3600) as nat,
            " hour"@,
        ),
        86_400 <= now - unix ==> drift::age(now, unix) == drift::units_ago(((now - unix) / 86_400) as nat, " day"@),
        now < unix ==> drift::age(now, unix) == "in the future? ts="@ + text::signed(unix),
{
}

/// One is told without a plural, any other number with it.
pub proof fn law_one_has_no_plural(n: nat)
    ensures
        drift::plural(1) == ""@,
        n != 1 ==> drift::plural(n) == "s"@,
{
}

/// A hash is told by its first twelve digits; anything else is told whole.
pub proof fn law_a_long_hash_is_told_by_twelve_digits(sha: Seq<char>)
    ensures
        sha.len() > 12 && text::all_hex(sha) ==> drift::shortened(sha) == sha.take(12),
        sha.len() <= 12 || !text::all_hex(sha) ==> drift::shortened(sha) == sha,
{
}

// ---------------------------------------------------------------------------
// Candidates
// ---------------------------------------------------------------------------

proof fn lemma_hash_at(indexed: Seq<IndexedView>, path: Seq<char>)
    ensures
        drift_scan::hash_at(indexed, path) is Some <==> exists|k: int|
            0 <= k < indexed.len() && (#[trigger] indexed[k]).path == path,
        drift_scan::hash_at(indexed, path) matches Some(h) ==> exists|k: int|
            0 <= k < indexed.len() && (#[trigger] indexed[k]).path == path && indexed[k].hash == h,
    decreases indexed.len(),
{
    if indexed.len() > 0 && indexed[0].path != path {
        let rest = indexed.skip(1);
        lemma_hash_at(rest, path);
        if drift_scan::hash_at(rest, path) is Some {
            let k = choose|k: int|
                0 <= k < rest.len() && (#[trigger] rest[k]).path == path && rest[k].hash == drift_scan::hash_at(
                    rest,
                    path,
                )->0;
            assert(indexed[k + 1] == rest[k]);
        }
        if exists|k: int| 0 <= k < indexed.len() && (#[trigger] indexed[k]).path == path {
            let k = choose|k: int| 0 <= k < indexed.len() && (#[trigger] indexed[k]).path == path;
            assert(rest[k - 1] == indexed[k]);
        }
    }
}

proof fn lemma_worth_comparing(touched: Seq<TouchedView>, indexed: Seq<IndexedView>, c: CandidateView)
    ensures
        drift_scan::worth_comparing(touched, indexed).contains(c) <==> exists|k: int|
            0 <= k < touched.len() && (#[trigger] touched[k]).path == c.path && c.hash == drift_scan::hash_at(
                indexed,
                c.path,
            ) && (c.hash is Some || touched[k].admitted),
    decreases touched.len(),
{
    if touched.len() > 0 {
        let less = touched.drop_last();
        lemma_worth_comparing(less, indexed, c);
        let front = drift_scan::worth_comparing(less, indexed);
        let all = drift_scan::worth_comparing(touched, indexed);
        assert(touched[touched.len() - 1] == touched.last());
        if front.contains(c) {
            let i = choose|i: int| 0 <= i < front.len() && front[i] == c;
            assert(all[i] == c);
            let k = choose|k: int|
                0 <= k < less.len() && (#[trigger] less[k]).path == c.path && c.hash == drift_scan::hash_at(
                    indexed,
                    c.path,
                ) && (c.hash is Some || less[k].admitted);
            assert(touched[k] == less[k]);
        }
        if all.contains(c) && !front.contains(c) {
            let i = choose|i: int| 0 <= i < all.len() && all[i] == c;
            if i < front.len() {
                assert(front[i] == c);
            }
        }
        if exists|k: int|
            0 <= k < touched.len() && (#[trigger] touched[k]).path == c.path && c.hash == drift_scan::hash_at(
                indexed,
                c.path,
            ) && (c.hash is Some || touched[k].admitted) {
            let k = choose|k: int|
                0 <= k < touched.len() && (#[trigger] touched[k]).path == c.path && c.hash == drift_scan::hash_at(
                    indexed,
                    c.path,
                ) && (c.hash is Some || touched[k].admitted);
            if k < less.len() {
                assert(less[k] == touched[k]);
            } else {
                assert(all[all.len() - 1] == c);
            }
        }
    }
}

/// A touched path is compared where it is indexed, or where indexing would pick
/// it up; one that is neither is not. While there is room every such path is a
/// candidate, with its indexed hash, and what was left out is said.
pub proof fn law_touched_paths_are_compared_where_indexing_is_concerned(
    out: (Seq<CandidateView>, bool),
    touched: Seq<TouchedView>,
    indexed: Seq<IndexedView>,
    max: usize,
)
    requires
        drift_scan::selects(out, touched, indexed, max),
    ensures
        out.0.len() <= max,
        out.1 ==> out.0.len() == max,
        forall|i: int|
            0 <= i < out.0.len() ==> exists|k: int|
                0 <= k < touched.len() && (#[trigger] touched[k]).path == (#[trigger] out.0[i]).path && (
                out.0[i].hash is None ==> touched[k].admitted),
        forall|i: int|
            0 <= i < out.0.len() ==> ((#[trigger] out.0[i]).hash is Some <==> exists|k: int|
                0 <= k < indexed.len() && (#[trigger] indexed[k]).path == out.0[i].path),
        !out.1 ==> forall|k: int|
            0 <= k < touched.len() && ((#[trigger] touched[k]).admitted || exists|j: int|
                0 <= j < indexed.len() && (#[trigger] indexed[j]).path == touched[k].path) ==> exists|i: int|
                0 <= i < out.0.len() && (#[trigger] out.0[i]).path == touched[k].path,
{
    let worth = drift_scan::worth_comparing(touched, indexed);
    let all = order::sorted::<Candidate>(worth);
    sorting::law_sorting_keeps_what_is_listed::<Candidate>(worth);
    assert forall|i: int| 0 <= i < out.0.len() implies (exists|k: int|
        0 <= k < touched.len() && (#[trigger] touched[k]).path == (#[trigger] out.0[i]).path && (out.0[i].hash is None
            ==> touched[k].admitted)) && ((out.0[i].hash is Some) <==> exists|k: int|
        0 <= k < indexed.len() && (#[trigger] indexed[k]).path == out.0[i].path) by {
        assert(all[i] == out.0[i]);
        assert(all.contains(out.0[i]));
        lemma_worth_comparing(touched, indexed, out.0[i]);
        lemma_hash_at(indexed, out.0[i].path);
    }
    if !out.1 {
        assert forall|k: int|
            0 <= k < touched.len() && ((#[trigger] touched[k]).admitted || exists|j: int|
                0 <= j < indexed.len() && (#[trigger] indexed[j]).path == touched[k].path) implies exists|i: int|
            0 <= i < out.0.len() && (#[trigger] out.0[i]).path == touched[k].path by {
            let c = CandidateView { path: touched[k].path, hash: drift_scan::hash_at(indexed, touched[k].path) };
            lemma_hash_at(indexed, touched[k].path);
            lemma_worth_comparing(touched, indexed, c);
            assert(all.contains(c));
            let i = choose|i: int| 0 <= i < all.len() && all[i] == c;
            assert(out.0[i].path == touched[k].path);
        }
    }
}

/// What becomes of a candidate: one that is gone counts where it was indexed; a
/// new one counts where it is a file that indexing would take; an indexed one
/// counts where it is no file any more or too large, and else its text is read.
pub proof fn law_a_candidate_is_judged_by_what_head_holds(blob: bool, size: nat, indexed: bool, indexable: nat)
    requires
        size <= u64::MAX,
    ensures
        drift_scan::judged(None, indexed, indexable) == (Verdict::Absent { affected: indexed }),
        drift_scan::judged(Some((blob, size)), false, indexable) == (Verdict::Skip {
            affected: blob && size <= indexable,
            size: size as u64,
        }),
        !blob || size > 16_777_216 ==> drift_scan::judged(Some((blob, size)), true, indexable) == (Verdict::Skip {
            affected: true,
            size: size as u64,
        }),
        blob && size <= 16_777_216 ==> drift_scan::judged(Some((blob, size)), true, indexable) == (Verdict::Read {
            size: size as u64,
        }),
{
}

/// A new path is dropped where it is ignored or a symbolic link; an indexed one is
/// always kept.
pub proof fn law_new_paths_that_indexing_skips_are_dropped(
    c: CandidateView,
    ignored: Seq<Seq<char>>,
    symlinks: Seq<Seq<char>>,
)
    ensures
        c.hash is Some ==> drift_scan::discoverable(c, ignored, symlinks),
        c.hash is None && ignored.contains(c.path) ==> !drift_scan::discoverable(c, ignored, symlinks),
        c.hash is None && symlinks.contains(c.path) ==> !drift_scan::discoverable(c, ignored, symlinks),
        c.hash is None && !ignored.contains(c.path) && !symlinks.contains(c.path) ==> drift_scan::discoverable(
            c,
            ignored,
            symlinks,
        ),
{
}

/// A path is hidden where one of its components begins with a dot.
pub proof fn law_a_dot_at_the_front_of_a_component_hides_a_path(path: Seq<char>, i: int)
    requires
        0 <= i < text::pieces(path, '/').len(),
    ensures
        text::pieces(path, '/')[i].len() > 0 && text::pieces(path, '/')[i][0] == '.' ==> drift_scan::hidden(path),
        drift_scan::hidden(path) ==> exists|k: int|
            0 <= k < text::pieces(path, '/').len() && (#[trigger] text::pieces(path, '/')[k]).len() > 0 && text::pieces(
                path,
                '/',
            )[k][0] == '.',
{
    reveal_strlit(".");
    let parts = text::pieces(path, '/');
    if parts[i].len() > 0 && parts[i][0] == '.' {
        assert(parts[i].subrange(0, 1) =~= "."@);
        assert(text::starts_with(parts[i], "."@));
    }
    if drift_scan::hidden(path) {
        let k = choose|k: int| 0 <= k < parts.len() && text::starts_with(#[trigger] parts[k], "."@);
        assert(parts[k].subrange(0, 1)[0] == "."@[0]);
        assert(parts[k].len() > 0 && parts[k][0] == '.');
    }
}

// ---------------------------------------------------------------------------
// Logs
// ---------------------------------------------------------------------------

/// Some line holds these bytes, and they are a document.
pub open spec fn is_line(lines: Seq<LogLineView>, bytes: Seq<u8>) -> bool {
    exists|k: int|
        0 <= k < lines.len() && (#[trigger] lines[k]).bytes == bytes && lines[k].bytes.len() > 0 && lines[k].json
}

proof fn lemma_records(lines: Seq<LogLineView>)
    ensures
        drift_log::records_among(lines).len() <= drift_log::filled_among(lines) <= lines.len(),
        forall|k: int|
            0 <= k < lines.len() && (#[trigger] lines[k]).bytes.len() > 0 && lines[k].json ==> drift_log::records_among(
                lines,
            ).contains(lines[k].bytes),
        forall|i: int|
            0 <= i < drift_log::records_among(lines).len() ==> is_line(
                lines,
                #[trigger] drift_log::records_among(lines)[i],
            ),
        drift_log::records_among(lines).len() == drift_log::filled_among(lines) <==> forall|k: int|
            0 <= k < lines.len() && (#[trigger] lines[k]).bytes.len() > 0 ==> lines[k].json,
    decreases lines.len(),
{
    if lines.len() > 0 {
        let less = lines.drop_last();
        lemma_records(less);
        let front = drift_log::records_among(less);
        let all = drift_log::records_among(lines);
        assert(lines[lines.len() - 1] == lines.last());
        assert forall|k: int|
            0 <= k < lines.len() && (#[trigger] lines[k]).bytes.len() > 0 && lines[k].json implies all.contains(
            lines[k].bytes,
        ) by {
            if k < less.len() {
                assert(less[k] == lines[k]);
                let i = choose|i: int| 0 <= i < front.len() && front[i] == less[k].bytes;
                assert(all[i] == lines[k].bytes);
            } else {
                assert(all[all.len() - 1] == lines[k].bytes);
            }
        }
        assert forall|i: int| 0 <= i < all.len() implies is_line(lines, #[trigger] all[i]) by {
            if i < front.len() {
                assert(front[i] == all[i]);
                assert(is_line(less, front[i]));
                let k = choose|k: int|
                    0 <= k < less.len() && (#[trigger] less[k]).bytes == front[i] && less[k].bytes.len() > 0
                        && less[k].json;
                assert(lines[k] == less[k]);
            }
        }
        assert((forall|k: int| 0 <= k < lines.len() && (#[trigger] lines[k]).bytes.len() > 0 ==> lines[k].json) <==> (
        forall|k: int| 0 <= k < less.len() && (#[trigger] less[k]).bytes.len() > 0 ==> less[k].json) && (
        lines.last().bytes.len() > 0 ==> lines.last().json)) by {
            assert forall|k: int| 0 <= k < less.len() implies #[trigger] less[k] == lines[k] by {
            }
            if forall|k: int| 0 <= k < lines.len() && (#[trigger] lines[k]).bytes.len() > 0 ==> lines[k].json {
                assert forall|k: int| 0 <= k < less.len() && (#[trigger] less[k]).bytes.len() > 0 implies less[k].json by {
                    assert(lines[k] == less[k]);
                }
            }
            if (forall|k: int| 0 <= k < less.len() && (#[trigger] less[k]).bytes.len() > 0 ==> less[k].json) && (
            lines.last().bytes.len() > 0 ==> lines.last().json) {
                assert forall|k: int|
                    0 <= k < lines.len() && (#[trigger] lines[k]).bytes.len() > 0 implies lines[k].json by {
                    if k < less.len() {
                        assert(less[k] == lines[k]);
                    }
                }
            }
        }
    }
}

/// A log is left alone where it was read whole, holds at most ten thousand
/// records and nothing else; otherwise it is written anew.
pub proof fn law_a_log_is_rotated_where_it_is_long_cut_or_spoilt(lines: Seq<LogLineView>, cut: bool)
    ensures
        drift_log::rotation_of(lines, cut) is None <==> !cut && drift_log::records_among(lines).len() <= 10_000
            && forall|k: int| 0 <= k < lines.len() && (#[trigger] lines[k]).bytes.len() > 0 ==> lines[k].json,
        drift_log::records_among(lines).len() <= 10_000 ==> drift_log::kept(drift_log::records_among(lines))
            == drift_log::records_among(lines),
        drift_log::records_among(lines).len() > 10_000 ==> drift_log::kept(drift_log::records_among(lines)).len()
            == 10_000 && drift_log::kept(drift_log::records_among(lines)).last() == drift_log::records_among(lines).last(),
{
    lemma_records(lines);
}

/// The records of a log are its lines that hold a document, and only these.
pub proof fn law_records_are_the_lines_that_hold_a_document(lines: Seq<LogLineView>, k: int)
    requires
        0 <= k < lines.len(),
    ensures
        lines[k].bytes.len() > 0 && lines[k].json ==> drift_log::records_among(lines).contains(lines[k].bytes),
        forall|i: int|
            0 <= i < drift_log::records_among(lines).len() ==> is_line(
                lines,
                #[trigger] drift_log::records_among(lines)[i],
            ),
{
    lemma_records(lines);
}

} // verus!
