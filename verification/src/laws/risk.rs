//! What makes a file risky to change.
use vstd::prelude::*;
use crate::history::coupling;
use crate::history::coupling::CoChangeRow;
use crate::history::risk;
use crate::history::risk::{CycleEdge, CycleEntry, RiskAssessment, RiskSignals};
use crate::impact::EntryView;
use crate::model::FileCategory;
use crate::order;
use crate::text;

verus! {

proof fn lemma_some_test_is_nearest(e: Seq<EntryView>, n: int)
    requires
        0 <= n <= e.len(),
        exists|k: int| 0 <= k < n && (#[trigger] e[k]).category == FileCategory::Test,
    ensures
        exists|i: int| #[trigger] risk::is_nearest_test(e.take(n), i),
    decreases n,
{
    let head = e.take(n);
    if exists|k: int| 0 <= k < n - 1 && (#[trigger] e[k]).category == FileCategory::Test {
        lemma_some_test_is_nearest(e, n - 1);
        let less = e.take(n - 1);
        let b = choose|i: int| #[trigger] risk::is_nearest_test(less, i);
        assert(less[b] == head[b]);
        if e[n - 1].category == FileCategory::Test && e[n - 1].distance < e[b].distance {
            assert forall|j: int| 0 <= j < n && (#[trigger] head[j]).category == FileCategory::Test implies head[n
                - 1].distance < head[j].distance || (head[n - 1].distance == head[j].distance && n - 1 <= j) by {
                if j < n - 1 {
                    assert(less[j] == head[j]);
                }
            }
            assert(risk::is_nearest_test(head, n - 1));
        } else {
            assert forall|j: int| 0 <= j < n && (#[trigger] head[j]).category == FileCategory::Test implies head[b].distance
                < head[j].distance || (head[b].distance == head[j].distance && b <= j) by {
                if j < n - 1 {
                    assert(less[j] == head[j]);
                }
            }
            assert(risk::is_nearest_test(head, b));
        }
    } else {
        assert(head[n - 1].category == FileCategory::Test);
        assert forall|j: int| 0 <= j < n && (#[trigger] head[j]).category == FileCategory::Test implies head[n
            - 1].distance < head[j].distance || (head[n - 1].distance == head[j].distance && n - 1 <= j) by {
            assert(head[j] == e[j]);
        }
        assert(risk::is_nearest_test(head, n - 1));
    }
}

/// A file has a test gap exactly where no test is known to reach it: none
/// beside it, none among the files it changes with, and none among its
/// dependents.
pub proof fn law_a_test_gap_means_that_no_test_was_found(out: RiskAssessment, s: RiskSignals)
    requires
        risk::assesses(out, s),
    ensures
        s.has_sibling_test ==> !out.test_gap,
        (exists|k: int| 0 <= k < s.dependents@.len() && (#[trigger] s.dependents@[k]).category == FileCategory::Test)
            ==> !out.test_gap,
        (exists|k: int| 0 <= k < s.coupled@.len() && (#[trigger] s.coupled@[k]).is_test) ==> !out.test_gap,
        (exists|k: int| 0 <= k < s.ranked@.len() && (#[trigger] s.ranked@[k]).is_test) ==> !out.test_gap,
        ({
            &&& !s.has_sibling_test
            &&& forall|k: int|
                0 <= k < s.dependents@.len() ==> (#[trigger] s.dependents@[k]).category != FileCategory::Test
            &&& forall|k: int| 0 <= k < s.coupled@.len() ==> !(#[trigger] s.coupled@[k]).is_test
            &&& forall|k: int| 0 <= k < s.ranked@.len() ==> !(#[trigger] s.ranked@[k]).is_test
        }) ==> out.test_gap,
        out.gap_check_partial <==> out.test_gap && (s.walk_capped || (s.dependents@.len() == 0 && !s.has_symbols)),
{
    broadcast use text::group_views;

    let e = risk::dependents(s);
    if exists|k: int| 0 <= k < s.dependents@.len() && (#[trigger] s.dependents@[k]).category == FileCategory::Test {
        let k = choose|k: int|
            0 <= k < s.dependents@.len() && (#[trigger] s.dependents@[k]).category == FileCategory::Test;
        assert(e[k] == s.dependents@[k]@);
        assert(e[k].category == FileCategory::Test);
        lemma_some_test_is_nearest(e, e.len() as int);
        assert(e.take(e.len() as int) =~= e);
        let i = choose|i: int| #[trigger] risk::is_nearest_test(e, i);
        assert(risk::is_nearest_test(e, i));
        assert(risk::nearest_test(e) is Some);
    } else {
        assert forall|i: int| !(#[trigger] risk::is_nearest_test(e, i)) by {
            if 0 <= i < e.len() {
                assert(e[i] == s.dependents@[i]@);
            }
        }
    }
}

/// A file is heavy in fixes where it has at least five commits and two in five
/// of them are fixes.
pub proof fn law_fix_heavy_files_have_two_fixes_in_five_commits(out: RiskAssessment, s: RiskSignals)
    requires
        risk::assesses(out, s),
    ensures
        s.history is None ==> !out.fix_heavy && out.total_commits == 0 && out.fix_count == 0,
        s.history matches Some(h) ==> {
            &&& h.total_commits < 5 ==> !out.fix_heavy
            &&& h.total_commits >= 5 ==> (out.fix_heavy <==> 5 * h.fix_count >= 2 * h.total_commits)
            &&& out.total_commits == h.total_commits
            &&& out.fix_count == h.fix_count
        },
        out.hotspot <==> s.hotspot_percent is Some,
{
}

/// Only source files count as dependents: a test or a configuration that
/// depends on the file does not widen its blast radius.
pub proof fn law_only_source_files_count_as_dependents(e: Seq<EntryView>, x: EntryView)
    ensures
        crate::impact_report::of_category(Seq::empty(), FileCategory::Source) == 0,
        x.category == FileCategory::Source ==> crate::impact_report::of_category(e.push(x), FileCategory::Source)
            == crate::impact_report::of_category(e, FileCategory::Source) + 1,
        x.category != FileCategory::Source ==> crate::impact_report::of_category(e.push(x), FileCategory::Source)
            == crate::impact_report::of_category(e, FileCategory::Source),
{
    reveal(Seq::filter);
    assert(e.push(x).drop_last() =~= e);
}

/// The count of dependents that an assessment gives is that of the source files
/// among them, and every pair counts as coupled.
pub proof fn law_an_assessment_counts_dependents_and_pairs(out: RiskAssessment, s: RiskSignals)
    requires
        risk::assesses(out, s),
    ensures
        out.dependent_files == text::views(s.dependents@).filter(
            |e: EntryView| e.category == FileCategory::Source,
        ).len(),
        out.coupled_files == s.coupled@.len(),
        out.found,
        out.file@ == s.file@,
{
    assert((|e: EntryView| e.category == FileCategory::Source) =~= (|e: EntryView| e.category
        == FileCategory::Source));
}

// ---------------------------------------------------------------------------
// Cycles
// ---------------------------------------------------------------------------

proof fn lemma_cycle_from(cycles: Seq<CycleEntry>, file: Seq<char>, i: int)
    requires
        0 <= i,
    ensures
        match risk::cycle_from(cycles, file, i) {
            Some(k) => i <= k < cycles.len() && text::views(cycles[k].members@).contains(file) && forall|j: int|
                i <= j < k ==> !text::views((#[trigger] cycles[j]).members@).contains(file),
            None => forall|j: int|
                i <= j < cycles.len() ==> !text::views((#[trigger] cycles[j]).members@).contains(file),
        },
    decreases cycles.len() - i,
{
    if i < cycles.len() && !text::views(cycles[i].members@).contains(file) {
        lemma_cycle_from(cycles, file, i + 1);
    }
}

/// The cycle is the first that holds the file, and its size and its other
/// members are told.
pub open spec fn tells_cycle(out: RiskAssessment, c: CycleEntry, file: Seq<char>) -> bool {
    &&& text::views(c.members@).contains(file)
    &&& out.cycle_size == c.size
    &&& forall|x: Seq<char>| #[trigger]
        text::views(out.cycle_files@).contains(x) <==> text::views(c.members@).contains(x) && x != file
}

/// A file is in a cycle exactly where some cycle lists it, and its peers are the
/// other members of that cycle.
pub proof fn law_a_file_is_in_the_cycle_that_lists_it(out: RiskAssessment, s: RiskSignals)
    requires
        risk::assesses(out, s),
    ensures
        out.in_cycle <==> exists|k: int|
            0 <= k < s.cycles@.len() && text::views((#[trigger] s.cycles@[k]).members@).contains(s.file@),
        out.in_cycle ==> exists|k: int|
            0 <= k < s.cycles@.len() && tells_cycle(out, #[trigger] s.cycles@[k], s.file@),
        !out.in_cycle ==> out.cycle_size == 0 && out.cycle_files@.len() == 0,
{
    broadcast use text::group_views;

    lemma_cycle_from(s.cycles@, s.file@, 0);
    if let Some(k) = risk::cycle_from(s.cycles@, s.file@, 0) {
        let members = text::views(s.cycles@[k].members@);
        let p = |m: Seq<char>| m != s.file@;
        let peers = text::views(out.cycle_files@);
        assert(peers == members.filter(p));
        assert forall|x: Seq<char>| #[trigger] peers.contains(x) <==> members.contains(x) && x != s.file@ by {
            if peers.contains(x) {
                let j = choose|j: int| 0 <= j < peers.len() && peers[j] == x;
                members.lemma_filter_pred(p, j);
                members.lemma_filter_contains_rev(p, x);
            }
            if members.contains(x) && x != s.file@ {
                let j = choose|j: int| 0 <= j < members.len() && members[j] == x;
                members.lemma_filter_contains(p, j);
            }
        }
        assert(tells_cycle(out, s.cycles@[k], s.file@));
    }
}

/// A ring is cut at an edge that no other edge is lighter than; of those that are
/// as light, at the first by the importing file and by the imported one.
pub proof fn law_a_ring_is_cut_at_its_lightest_edge(edges: Seq<CycleEdge>, i: int, j: int)
    requires
        risk::is_weakest(edges, i),
        0 <= j < edges.len(),
    ensures
        edges[i].rank <= edges[j].rank,
        edges[i].rank == edges[j].rank ==> !order::text_before(edges[j].from@, edges[i].from@),
        edges[i].rank == edges[j].rank && edges[i].from@ == edges[j].from@ ==> !order::text_before(
            edges[j].to@,
            edges[i].to@,
        ),
{
    assert(!risk::weaker(edges[j], edges[i]));
}

/// A cycle in which some file is imported three times is no ring, and neither is
/// one with over half again as many imports as files; any other is one.
pub proof fn law_a_ring_has_few_imports(edges: Seq<CycleEdge>, files: nat)
    ensures
        risk::ring_like(edges, files) <==> 2 * edges.len() <= 3 * files && forall|i: int|
            0 <= i < edges.len() ==> edges.filter(|e: CycleEdge| e.to@ == (#[trigger] edges[i]).to@).len() <= 2,
{
    assert forall|i: int| 0 <= i < edges.len() implies edges.filter(
        |e: CycleEdge| e.to@ == (#[trigger] edges[i]).to@,
    ).len() == risk::in_degree(edges, edges[i].to@) by {
        let f = edges[i].to@;
        assert((|e: CycleEdge| e.to@ == edges[i].to@) =~= (|e: CycleEdge| e.to@ == f));
    }
}

// ---------------------------------------------------------------------------
// Notes
// ---------------------------------------------------------------------------

proof fn lemma_part(before: Seq<Seq<char>>, part: Seq<Seq<char>>, after: Seq<Seq<char>>)
    ensures
        forall|x: Seq<char>| #[trigger] part.contains(x) ==> (before + part + after).contains(x),
{
    assert forall|x: Seq<char>| #[trigger] part.contains(x) implies (before + part + after).contains(x) by {
        let k = choose|k: int| 0 <= k < part.len() && part[k] == x;
        assert((before + part + after)[before.len() + k] == x);
    }
}

proof fn lemma_parts(
    m: Seq<Seq<char>>,
    p: Seq<Seq<char>>,
    t: Seq<Seq<char>>,
    c: Seq<Seq<char>>,
    b: Seq<Seq<char>>,
    a: Seq<Seq<char>>,
)
    ensures
        forall|x: Seq<char>| #[trigger] m.contains(x) ==> (m + p + t + c + b + a).contains(x),
        forall|x: Seq<char>| #[trigger] p.contains(x) ==> (m + p + t + c + b + a).contains(x),
        forall|x: Seq<char>| #[trigger] t.contains(x) ==> (m + p + t + c + b + a).contains(x),
        forall|x: Seq<char>| #[trigger] c.contains(x) ==> (m + p + t + c + b + a).contains(x),
        forall|x: Seq<char>| #[trigger] b.contains(x) ==> (m + p + t + c + b + a).contains(x),
{
    let n = m + p + t + c + b + a;
    let none = Seq::<Seq<char>>::empty();
    lemma_part(none, m, p + t + c + b + a);
    assert(n =~= none + m + (p + t + c + b + a));
    lemma_part(m, p, t + c + b + a);
    assert(n =~= m + p + (t + c + b + a));
    lemma_part(m + p, t, c + b + a);
    assert(n =~= (m + p) + t + (c + b + a));
    lemma_part(m + p + t, c, b + a);
    assert(n =~= (m + p + t) + c + (b + a));
    lemma_part(m + p + t + c, b, a);
}

/// The notes of every part are among the notes.
pub proof fn lemma_note_parts(s: RiskSignals)
    ensures
        forall|x: Seq<char>| #[trigger] risk::measurement_notes(s).contains(x) ==> risk::risk_notes(s).contains(x),
        forall|x: Seq<char>| #[trigger] risk::pressure_notes(s).contains(x) ==> risk::risk_notes(s).contains(x),
        forall|x: Seq<char>| #[trigger] risk::test_notes(s).contains(x) ==> risk::risk_notes(s).contains(x),
        forall|x: Seq<char>| #[trigger] risk::cycle_notes(s).contains(x) ==> risk::risk_notes(s).contains(x),
        forall|x: Seq<char>| #[trigger] risk::boundary_notes(s).contains(x) ==> risk::risk_notes(s).contains(x),
        risk::risk_notes(s).len() > 0 && risk::risk_notes(s).last() == s.author_note@,
{
    lemma_parts(
        risk::measurement_notes(s),
        risk::pressure_notes(s),
        risk::test_notes(s),
        risk::cycle_notes(s),
        risk::boundary_notes(s),
        seq![s.author_note@],
    );
}

/// What is missing or bounded is said, a test gap is said with what was checked,
/// and the note on authors comes last.
pub proof fn law_what_could_not_be_measured_is_said(out: RiskAssessment, s: RiskSignals)
    requires
        risk::assesses(out, s),
    ensures
        s.history is None ==> text::views(out.notes@).contains(risk::NO_HISTORY_NOTE@),
        s.dependents@.len() == 0 && !s.has_symbols ==> text::views(out.notes@).contains(
            risk::NO_STRUCTURAL_SIGNALS_NOTE@,
        ),
        s.cycle_failed ==> text::views(out.notes@).contains(risk::CYCLE_SIGNAL_FAILED_NOTE@),
        s.walk_capped ==> text::views(out.notes@).contains(
            "reverse-dependency walk was truncated at its internal frontier cap; "@ + text::decimal(
                out.dependent_files as nat,
            ) + " dependents is a lower bound"@,
        ),
        out.test_gap && s.dependents@.len() == 0 && !s.has_symbols ==> text::views(out.notes@).contains(
            risk::TEST_GAP_UNMEASURED_NOTE@,
        ),
        out.test_gap && (s.dependents@.len() > 0 || s.has_symbols) && s.walk_capped ==> text::views(
            out.notes@,
        ).contains(risk::TEST_GAP_CAPPED_NOTE@),
        out.test_gap && (s.dependents@.len() > 0 || s.has_symbols) && !s.walk_capped ==> text::views(
            out.notes@,
        ).contains(risk::TEST_GAP_NOTE@),
        text::views(out.notes@).len() > 0 && text::views(out.notes@).last() == s.author_note@,
{
    lemma_note_parts(s);
    let m = risk::measurement_notes(s);
    let a = risk::maybe(s.history is None, risk::NO_HISTORY_NOTE@);
    let b = risk::maybe(risk::unmeasured(s), risk::NO_STRUCTURAL_SIGNALS_NOTE@);
    let c = risk::maybe(
        s.walk_capped,
        "reverse-dependency walk was truncated at its internal frontier cap; "@ + text::decimal(
            risk::source_dependents(s),
        ) + " dependents is a lower bound"@,
    );
    let d = risk::maybe(s.cycle_failed, risk::CYCLE_SIGNAL_FAILED_NOTE@);
    assert(m == a + b + c + d);
    if s.history is None {
        assert(m[0] == a[0]);
        assert(m.contains(a[0]));
    }
    if risk::unmeasured(s) {
        assert(m[a.len() as int] == b[0]);
        assert(m.contains(b[0]));
    }
    if s.walk_capped {
        assert(m[(a + b).len() as int] == c[0]);
        assert(m.contains(c[0]));
    }
    if s.cycle_failed {
        assert(m[(a + b + c).len() as int] == d[0]);
        assert(m.contains(d[0]));
    }
    let t = risk::test_notes(s);
    if out.test_gap {
        assert(t[0] == risk::gap_text(risk::unmeasured(s), s.walk_capped));
        assert(t.contains(t[0]));
    }
}

/// The pressures on a file are said from these thresholds on: ten dependents,
/// five coupled files, three trust boundaries.
pub proof fn law_pressures_are_said_from_their_thresholds_on(out: RiskAssessment, s: RiskSignals)
    requires
        risk::assesses(out, s),
    ensures
        s.hotspot_percent matches Some(p) ==> text::views(out.notes@).contains(
            "hotspot: churn percentile "@ + text::decimal(p as nat) + "%"@,
        ),
        out.fix_heavy ==> text::views(out.notes@).contains(
            "fix-heavy: "@ + text::decimal(out.fix_count as nat) + "/"@ + text::decimal(out.total_commits as nat)
                + " commits ("@ + text::decimal(s.fix_percent as nat) + "%) tagged as fixes"@,
        ),
        out.dependent_files >= 10 ==> text::views(out.notes@).contains(
            "wide blast radius: "@ + text::decimal(out.dependent_files as nat) + " files depend on this (depth-2)"@,
        ),
        s.coupled@.len() >= 5 ==> text::views(out.notes@).contains(
            "high coupling: "@ + text::decimal(s.coupled@.len()) + " files historically change with this"@,
        ),
        s.trust_boundaries@.len() >= 3 ==> text::views(out.notes@).contains(
            "crosses "@ + text::decimal(s.trust_boundaries@.len()) + " trust boundaries ("@ + text::joined(
                text::views(s.trust_boundaries@),
                ", "@,
            ) + ") — security review recommended"@,
        ),
{
    lemma_note_parts(s);
    let p = risk::pressure_notes(s);
    let a = match s.hotspot_percent {
        Some(p) => seq!["hotspot: churn percentile "@ + text::decimal(p as nat) + "%"@],
        None => Seq::empty(),
    };
    let b = match s.history {
        Some(h) => risk::maybe(
            risk::fix_heavy(s.history),
            "fix-heavy: "@ + text::decimal(h.fix_count as nat) + "/"@ + text::decimal(h.total_commits as nat)
                + " commits ("@ + text::decimal(s.fix_percent as nat) + "%) tagged as fixes"@,
        ),
        None => Seq::empty(),
    };
    let c = risk::maybe(
        risk::source_dependents(s) >= 10,
        "wide blast radius: "@ + text::decimal(risk::source_dependents(s)) + " files depend on this (depth-2)"@,
    );
    let d = risk::maybe(
        s.coupled@.len() >= 5,
        "high coupling: "@ + text::decimal(s.coupled@.len()) + " files historically change with this"@,
    );
    let e = risk::maybe(
        coupling::unknown_spans(s.ranked@) > 0,
        coupling::span_unknown_text(
            coupling::unknown_spans(s.ranked@),
            "this file's top "@ + text::decimal(s.ranked@.len()) + " co-change pairs"@,
        ),
    );
    assert(p == a + b + c + d + e);
    if s.hotspot_percent is Some {
        assert(p[0] == a[0]);
        assert(p.contains(a[0]));
    }
    if risk::fix_heavy(s.history) {
        assert(p[a.len() as int] == b[0]);
        assert(p.contains(b[0]));
    }
    if risk::source_dependents(s) >= 10 {
        assert(p[(a + b).len() as int] == c[0]);
        assert(p.contains(c[0]));
    }
    if s.coupled@.len() >= 5 {
        assert(p[(a + b + c).len() as int] == d[0]);
        assert(p.contains(d[0]));
    }
    if s.trust_boundaries@.len() >= 3 {
        let g = risk::boundary_notes(s);
        assert(g.contains(g[0]));
    }
}

/// Of a file on which nothing presses only its authors are said.
pub proof fn law_a_quiet_file_gets_no_other_note(out: RiskAssessment, s: RiskSignals)
    requires
        risk::assesses(out, s),
        s.history matches Some(h) && (h.total_commits < 5 || 5 * h.fix_count < 2 * h.total_commits),
        s.dependents@.len() > 0 || s.has_symbols,
        !s.walk_capped,
        !s.cycle_failed,
        s.hotspot_percent is None,
        out.dependent_files < 10,
        s.coupled@.len() < 5,
        forall|k: int| 0 <= k < s.ranked@.len() ==> (#[trigger] s.ranked@[k]).first_observed_at is Some,
        s.has_sibling_test,
        forall|k: int| 0 <= k < s.coupled@.len() ==> !(#[trigger] s.coupled@[k]).is_test,
        forall|k: int|
            0 <= k < s.cycles@.len() ==> !text::views((#[trigger] s.cycles@[k]).members@).contains(s.file@),
        s.trust_boundaries@.len() < 3,
    ensures
        text::views(out.notes@) == seq![s.author_note@],
{
    lemma_cycle_from(s.cycles@, s.file@, 0);
    lemma_no_span_unknown(s.ranked@);
    let hid = |r: CoChangeRow| r.is_test && !risk::pair_files(s.ranked@).contains(r.file@);
    let hidden = s.coupled@.filter(hid);
    if hidden.len() > 0 {
        s.coupled@.lemma_filter_pred(hid, 0);
        assert(hidden.contains(hidden[0]));
        s.coupled@.lemma_filter_contains_rev(hid, hidden[0]);
        let k = choose|k: int| 0 <= k < s.coupled@.len() && s.coupled@[k] == hidden[0];
        assert(!s.coupled@[k].is_test);
    }
    assert(risk::hidden_tests(s) == hidden);
    assert(text::views(out.notes@) =~= seq![s.author_note@]);
}

proof fn lemma_no_span_unknown(rows: Seq<CoChangeRow>)
    requires
        forall|k: int| 0 <= k < rows.len() ==> (#[trigger] rows[k]).first_observed_at is Some,
    ensures
        coupling::unknown_spans(rows) == 0,
    decreases rows.len(),
{
    reveal(Seq::filter);
    if rows.len() > 0 {
        let front = rows.drop_last();
        assert forall|k: int| 0 <= k < front.len() implies (#[trigger] front[k]).first_observed_at is Some by {
            assert(front[k] == rows[k]);
        }
        lemma_no_span_unknown(front);
        assert(rows.last() == rows[rows.len() - 1]);
    }
}

} // verus!
