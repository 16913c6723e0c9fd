//! What is told of drift, of coupling and of overlap.
use vstd::prelude::*;
use crate::branch_overlap;
use crate::branch_overlap::OverlapView;
use crate::drift;
use crate::drift::DriftReport;
use crate::history::coupling;
use crate::history::coupling::TableFacts;
use crate::history::inline_tests;
use crate::history::shell;
use crate::laws::sorting;
use crate::laws::words;
use crate::text;

verus! {

broadcast use text::group_views;

/// Files that differ are counted, with a lower bound where the comparison
/// stopped, and named as far as a sample is known.
pub proof fn law_differing_files_are_counted_and_named(r: DriftReport)
    ensures
        r.indexed_files_behind is None <==> drift::affected(r) is None,
        r.indexed_files_behind == Some(0usize) && !r.indexed_files_behind_bounded ==> drift::affected(r) == Some(
            "0 indexed files affected (index content matches HEAD)"@,
        ),
        r.indexed_files_behind == Some(0usize) && r.indexed_files_behind_bounded ==> drift::affected(r) == Some(
            "no differing indexed file found before the comparison stopped"@,
        ),
        r.indexed_files_behind matches Some(n) ==> n > 0 ==> text::starts_with(
            drift::affected(r)->0,
            if r.indexed_files_behind_bounded {
                "at least "@ + text::decimal(n as nat) + " indexed file"@
            } else {
                text::decimal(n as nat) + " indexed file"@
            },
        ),
        r.indexed_files_behind matches Some(n) ==> n > r.indexed_files_behind_sample@.len() > 0 ==> text::ends_with(
            drift::affected(r)->0,
            " ("@ + text::joined(text::views(r.indexed_files_behind_sample@), ", "@) + ", …)"@,
        ),
        r.indexed_files_behind matches Some(n) ==> n == r.indexed_files_behind_sample@.len() && n > 0 ==> text::ends_with(
            drift::affected(r)->0,
            " ("@ + text::joined(text::views(r.indexed_files_behind_sample@), ", "@) + ")"@,
        ),
{
    reveal_strlit("");
    reveal_strlit(", …");
    reveal_strlit(", …)");
    reveal_strlit(")");
    if let Some(n) = r.indexed_files_behind {
        if n > 0 {
            let sample = text::views(r.indexed_files_behind_sample@);
            let count = drift::affected_count(n as nat, r.indexed_files_behind_bounded);
            let names = drift::affected_names(n as nat, sample);
            let front = if r.indexed_files_behind_bounded {
                "at least "@ + text::decimal(n as nat) + " indexed file"@
            } else {
                text::decimal(n as nat) + " indexed file"@
            };
            let tail = drift::plural(n as nat) + " affected"@;
            assert(count =~= front + tail);
            assert(count + names =~= front + (tail + names));
            words::law_a_text_begins_and_ends_with_its_parts(front, tail + names, Seq::empty());
            words::law_a_text_begins_and_ends_with_its_parts(count, names, Seq::empty());
            if sample.len() > 0 {
                let list = " ("@ + text::joined(sample, ", "@);
                assert(", …"@ + ")"@ =~= ", …)"@);
                assert(list + ", …"@ + ")"@ =~= list + ", …)"@);
                assert(list + ""@ + ")"@ =~= list + ")"@);
            }
        }
    }
}

/// Pairs that all co-changed within a short time are told as such, and as what
/// the rest of the table lets them be: a burst beside recurring pairs, pairs whose
/// spans are partly unknown, a history that is too short, or bursts throughout.
pub proof fn law_short_spans_are_told_by_what_is_known(max_span: nat, t: TableFacts, first: i64, last: i64)
    requires
        t.history is Some ==> t.history == Some((first, last)),
        first <= last < first + 31_536_000_000,
    ensures
        ({
            let out = coupling::one_off_text(max_span, t);
            let days = (last - first) / 86_400;
            &&& t.any_recurring ==> text::starts_with(out, "every returned pair co-changed only "@)
            &&& !t.any_recurring && t.any_span_missing ==> text::starts_with(
                out,
                "every returned pair co-changed "@ + coupling::span_words(max_span) + ", and no baselined pair"@,
            )
            &&& !t.any_recurring && !t.any_span_missing && t.history is Some && days < 30 ==> text::starts_with(
                out,
                "indexed co-change evidence spans only "@ + text::decimal(days as nat) + " days"@,
            )
            &&& !t.any_recurring && !t.any_span_missing && (t.history is None || days >= 30) ==> text::starts_with(
                out,
                "no pair in this history spans 30+ days"@,
            )
        }),
{
    let out = coupling::one_off_text(max_span, t);
    let span = coupling::span_words(max_span);
    let days = (last - first) / 86_400;
    assert(coupling::days(Some(first), Some(last)) == days);
    if t.any_recurring {
        lemma_recurring_text(span);
    } else if t.any_span_missing {
        lemma_missing_text(span);
    } else if t.history is Some && days < 30 {
        lemma_young_text(days as nat, span);
    } else {
        lemma_burst_text(span);
    }
}

proof fn lemma_recurring_text(span: Seq<char>)
    ensures
        text::starts_with(
            "every returned pair co-changed only "@ + span
                + "; short-burst evidence (one mass commit or a brief stretch of work), not a recurring pattern"@,
            "every returned pair co-changed only "@,
        ),
{
    let h = "every returned pair co-changed only "@;
    let t = "; short-burst evidence (one mass commit or a brief stretch of work), not a recurring pattern"@;
    assert(h + span + t =~= h + (span + t));
    words::law_a_text_begins_and_ends_with_its_parts(h, span + t, Seq::empty());
}

proof fn lemma_missing_text(span: Seq<char>)
    ensures
        text::starts_with(
            "every returned pair co-changed "@ + span
                + ", and no baselined pair in the index spans 30+ days; some pairs predate recurrence tracking, so run `codesage git-index --full` to populate it"@,
            "every returned pair co-changed "@ + span + ", and no baselined pair"@,
        ),
{
    reveal_strlit(", and no baselined pair");
    reveal_strlit(", and no baselined pair in the index spans 30+ days; some pairs predate recurrence tracking, so run `codesage git-index --full` to populate it");
    let h = "every returned pair co-changed "@ + span;
    let p = ", and no baselined pair"@;
    let m = ", and no baselined pair in the index spans 30+ days; some pairs predate recurrence tracking, so run `codesage git-index --full` to populate it"@;
    assert(m =~= p + m.skip(23));
    assert(h + m =~= (h + p) + m.skip(23));
    words::law_a_text_begins_and_ends_with_its_parts(h + p, m.skip(23), Seq::empty());
}

proof fn lemma_young_text(days: nat, span: Seq<char>)
    ensures
        text::starts_with(
            "indexed co-change evidence spans only "@ + text::decimal(days)
                + " days; recurrence cannot be observed yet, and every returned pair co-changed "@ + span,
            "indexed co-change evidence spans only "@ + text::decimal(days) + " days"@,
        ),
{
    reveal_strlit(" days");
    reveal_strlit("; recurrence cannot be observed yet, and every returned pair co-changed ");
    reveal_strlit(" days; recurrence cannot be observed yet, and every returned pair co-changed ");
    let h = "indexed co-change evidence spans only "@ + text::decimal(days);
    let m = " days; recurrence cannot be observed yet, and every returned pair co-changed "@;
    let rest = "; recurrence cannot be observed yet, and every returned pair co-changed "@;
    assert(m =~= " days"@ + rest);
    assert(h + m + span =~= (h + " days"@) + (rest + span));
    words::law_a_text_begins_and_ends_with_its_parts(h + " days"@, rest + span, Seq::empty());
}

proof fn lemma_burst_text(span: Seq<char>)
    ensures
        text::starts_with(coupling::short_burst_text(span), "no pair in this history spans 30+ days"@),
{
    reveal_strlit("no pair in this history spans 30+ days");
    reveal_strlit("no pair in this history spans 30+ days; this project's coupling is short-burst throughout, and every returned pair co-changed ");
    let all = coupling::short_burst_text(span);
    assert(all.subrange(0, 38) =~= "no pair in this history spans 30+ days"@);
}

/// One command runs all Python tests that stand in sources, each file once as
/// often as it is given, in the order of their names.
pub proof fn law_one_command_runs_the_python_tests(files: Seq<Seq<char>>, x: Seq<char>)
    ensures
        files.len() == 0 ==> inline_tests::python_command(files).len() == 0,
        files.len() > 0 ==> inline_tests::python_command(files).len() == 1,
        files.len() > 0 ==> ({
            let c = inline_tests::python_command(files)[0];
            &&& c.covers.contains(x) <==> files.contains(x)
            &&& c.covers.len() == files.len()
            &&& c.command == "pytest "@ + shell::arguments(c.covers)
            &&& c.framework == "pytest"@
        }),
{
    sorting::law_sorting_keeps_what_is_listed::<String>(files);
}

/// What a branch shares is told with the branch, the commit, the merge base, and
/// how many of the shared files are shown.
pub proof fn law_overlap_is_told_with_its_counts(row: OverlapView)
    ensures
        text::ends_with(
            branch_overlap::evidence(row),
            "; merge base "@ + row.merge_base + "; showing "@ + text::decimal(row.files.len()) + " of "@
                + text::decimal(row.files_total) + " files)"@,
        ),
        text::starts_with(
            branch_overlap::evidence(row),
            branch_overlap::quotation(row.branch) + " at "@ + row.commit + ": "@,
        ),
{
    let front = branch_overlap::quotation(row.branch) + " at "@ + row.commit + ": "@;
    let mid = text::joined(branch_overlap::all_quoted(row.files), ", "@) + " ("@ + row.basis;
    let tail = "; merge base "@ + row.merge_base + "; showing "@ + text::decimal(row.files.len()) + " of "@
        + text::decimal(row.files_total) + " files)"@;
    let out = branch_overlap::evidence(row);
    assert(out =~= (front + mid) + tail);
    assert(out =~= front + (mid + tail));
    words::law_a_text_begins_and_ends_with_its_parts(front + mid, tail, Seq::empty());
    words::law_a_text_begins_and_ends_with_its_parts(front, mid + tail, Seq::empty());
}

} // verus!
