//! What the notes of an assessment and of an answer say.
use vstd::prelude::*;
use crate::history::answer;
use crate::history::answer::InputsView;
use crate::history::coupling::CoChangeRow;
use crate::history::reach::ReachabilityOptions;
use crate::history::recommend;
use crate::history::recommend::{AbsenceOverride, BaseRecommendations, InputTriage, TestRecommendations};
use crate::history::risk;
use crate::history::risk::{RiskAssessment, RiskSignals};
use crate::history::top_symbols;
use crate::laws;
use crate::laws::words;
use crate::model::{FileCategory, Symbol};
use crate::text;

verus! {

broadcast use text::group_views;

/// A list of names that is too long shows its first names and counts the others;
/// any other is shown whole.
pub proof fn law_a_long_list_shows_its_first_names(shown: Seq<Seq<char>>, more: Seq<Seq<char>>)
    ensures
        more.len() > 0 ==> risk::sampled(shown + more, shown.len()) == text::joined(shown, ", "@) + " (+"@
            + text::decimal(more.len()) + " more)"@,
        risk::sampled(shown, shown.len()) == text::joined(shown, ", "@),
        risk::sampled(shown, shown.len() + more.len()) == text::joined(shown, ", "@),
        shown.len() == 5 && more.len() > 0 ==> recommend::abbreviated(shown + more) == text::joined(shown, ", "@)
            + " and "@ + text::decimal(more.len()) + " more"@,
        shown.len() <= 5 ==> recommend::abbreviated(shown) == text::joined(shown, ", "@),
{
    assert((shown + more).take(shown.len() as int) =~= shown);
}

/// A note about a test that reaches the file in some hops.
pub open spec fn reach_note(path: Seq<char>, distance: u32) -> Seq<char> {
    "no direct test; test "@ + path + " reaches this file in "@ + text::decimal(distance as nat)
        + " dependency hop(s)"@
}

/// `k` is a test among the dependents, none is nearer, and none that is as near
/// comes before it.
pub open spec fn nearest(s: RiskSignals, k: int) -> bool {
    &&& 0 <= k < s.dependents@.len()
    &&& s.dependents@[k]@.category == FileCategory::Test
    &&& forall|j: int|
        0 <= j < s.dependents@.len() && (#[trigger] s.dependents@[j])@.category == FileCategory::Test ==> s.dependents@[k]@.distance
            < s.dependents@[j]@.distance || (s.dependents@[k]@.distance == s.dependents@[j]@.distance && k <= j)
}

/// Where nothing but a dependent test covers a file, the nearest such test is
/// named with its distance.
pub proof fn law_a_distant_test_is_named(out: RiskAssessment, s: RiskSignals)
    requires
        risk::assesses(out, s),
        !out.test_gap,
        !s.has_sibling_test,
        forall|i: int| 0 <= i < s.coupled@.len() ==> !(#[trigger] s.coupled@[i]).is_test,
        forall|i: int| 0 <= i < s.ranked@.len() ==> !(#[trigger] s.ranked@[i]).is_test,
    ensures
        exists|k: int| #[trigger]
            nearest(s, k) && text::views(out.notes@).contains(
                reach_note(s.dependents@[k]@.path, s.dependents@[k]@.distance),
            ),
{
    laws::risk::lemma_note_parts(s);
    let none = risk::hidden_tests(s);
    assert(none.len() == 0) by {
        lemma_hidden(s);
        if none.len() > 0 {
            assert(none[0].is_test);
        }
    }
    let d = risk::dependents(s);
    let k = risk::nearest_test(d)->0;
    assert(risk::is_nearest_test(d, k));
    assert forall|j: int|
        0 <= j < s.dependents@.len() && (#[trigger] s.dependents@[j])@.category == FileCategory::Test implies s.dependents@[k]@.distance
        < s.dependents@[j]@.distance || (s.dependents@[k]@.distance == s.dependents@[j]@.distance && k <= j) by {
        assert(d[j] == s.dependents@[j]@);
    }
    assert(d[k] == s.dependents@[k]@);
    let notes = risk::test_notes(s);
    assert(notes[0] == reach_note(d[k].path, d[k].distance));
    assert(notes.contains(notes[0]));
    assert(nearest(s, k));
}

proof fn lemma_hidden(s: RiskSignals)
    ensures
        forall|i: int|
            0 <= i < risk::hidden_tests(s).len() ==> (#[trigger] risk::hidden_tests(s)[i]).is_test && s.coupled@.contains(
                risk::hidden_tests(s)[i],
            ),
        forall|i: int|
            0 <= i < s.coupled@.len() && (#[trigger] s.coupled@[i]).is_test && !risk::pair_files(s.ranked@).contains(
                s.coupled@[i].file@,
            ) ==> risk::hidden_tests(s).contains(s.coupled@[i]),
{
    broadcast use {vstd::seq_lib::group_filter_ensures, vstd::seq::Seq::lemma_filter_contains_rev};

    let f = |r: CoChangeRow| r.is_test && !risk::pair_files(s.ranked@).contains(r.file@);
    let all = risk::hidden_tests(s);
    assert(all == s.coupled@.filter(f));
    assert forall|i: int| 0 <= i < all.len() implies (#[trigger] all[i]).is_test && s.coupled@.contains(all[i]) by {
        assert(f(all[i]));
        assert(all.contains(all[i]));
    }
    assert forall|i: int|
        0 <= i < s.coupled@.len() && (#[trigger] s.coupled@[i]).is_test && !risk::pair_files(s.ranked@).contains(
            s.coupled@[i].file@,
        ) implies all.contains(s.coupled@[i]) by {
        assert(f(s.coupled@[i]));
    }
}

/// Some note begins in this way.
pub open spec fn some_note_begins(notes: Seq<Seq<char>>, beginning: Seq<char>) -> bool {
    exists|i: int| 0 <= i < notes.len() && text::starts_with(#[trigger] notes[i], beginning)
}

/// A coupled test that no ranked pair shows is told apart by whether the time of
/// its first observation is known.
pub proof fn law_a_test_below_the_ranked_pairs_is_told(out: RiskAssessment, s: RiskSignals, k: int)
    requires
        risk::assesses(out, s),
        forall|i: int| 0 <= i < s.ranked@.len() ==> !(#[trigger] s.ranked@[i]).is_test && s.ranked@[i].file@
            != s.coupled@[k].file@,
        0 <= k < s.coupled@.len(),
        s.coupled@[k].is_test,
    ensures
        !out.test_gap,
        s.coupled@[k].first_observed_at is Some ==> some_note_begins(
            text::views(out.notes@),
            "one-off coupled test(s) exist below the ranked `top_coupled` list: "@,
        ),
        s.coupled@[k].first_observed_at is None ==> some_note_begins(
            text::views(out.notes@),
            "span unknown coupled test(s) exist below the ranked `top_coupled` list: "@,
        ),
{
    laws::risk::lemma_note_parts(s);
    lemma_hidden(s);
    let r = s.coupled@[k];
    let files = risk::pair_files(s.ranked@);
    assert(!files.contains(r.file@)) by {
        if files.contains(r.file@) {
            let i = choose|i: int| 0 <= i < files.len() && files[i] == r.file@;
            assert(s.ranked@[i].file@ == r.file@);
        }
    }
    assert(risk::hidden_tests(s).contains(r));
    assert(risk::any_test(s.coupled@));
    let unknown = r.first_observed_at is None;
    lemma_hidden_files(s, r, unknown);
    let a = risk::maybe(risk::hidden_files(s, false).len() > 0, risk::hidden_text(s, false));
    let b = risk::maybe(risk::hidden_files(s, true).len() > 0, risk::hidden_text(s, true));
    let notes = risk::test_notes(s);
    assert(notes == a + b);
    let n = risk::hidden_text(s, unknown);
    if unknown {
        assert(notes[a.len() as int] == n);
    } else {
        assert(notes[0] == n);
    }
    assert(notes.contains(n));
    let all = text::views(out.notes@);
    assert(all.contains(n));
    let i = choose|i: int| 0 <= i < all.len() && all[i] == n;
    let names = risk::sampled(risk::hidden_files(s, unknown), 3);
    if unknown {
        let head = "span unknown coupled test(s) exist below the ranked `top_coupled` list: "@;
        let tail = "; indexed before recurrence tracking, run `codesage git-index --full`"@;
        assert(n == head + names + tail);
        assert(n =~= head + (names + tail));
        words::law_a_text_begins_and_ends_with_its_parts(head, names + tail, Seq::empty());
    } else {
        let head = "one-off coupled test(s) exist below the ranked `top_coupled` list: "@;
        words::law_a_text_begins_and_ends_with_its_parts(head, names, Seq::empty());
    }
    assert(text::starts_with(all[i], if unknown {
        "span unknown coupled test(s) exist below the ranked `top_coupled` list: "@
    } else {
        "one-off coupled test(s) exist below the ranked `top_coupled` list: "@
    }));
}

proof fn lemma_hidden_files(s: RiskSignals, r: CoChangeRow, unknown: bool)
    requires
        risk::hidden_tests(s).contains(r),
        unknown == (r.first_observed_at is None),
    ensures
        risk::hidden_files(s, unknown).len() > 0,
{
    broadcast use {vstd::seq_lib::group_filter_ensures, vstd::seq::Seq::lemma_filter_contains_rev};

    let f = |r: CoChangeRow| (r.first_observed_at is None) == unknown;
    let all = risk::hidden_tests(s);
    assert(f(r));
    let i = choose|i: int| 0 <= i < all.len() && all[i] == r;
    assert(all.filter(f).contains(all[i]));
    assert(risk::hidden_files(s, unknown).len() == all.filter(f).len());
}

/// A file in a cycle is told how many files the cycle has, a file in none hears
/// nothing of cycles.
pub proof fn law_a_cycle_is_told_with_its_size(out: RiskAssessment, s: RiskSignals)
    requires
        risk::assesses(out, s),
    ensures
        out.in_cycle ==> some_note_begins(
            text::views(out.notes@),
            "in import cycle of "@ + text::decimal(out.cycle_size as nat) + " files: "@,
        ),
        !out.in_cycle ==> risk::cycle_notes(s).len() == 0,
{
    laws::risk::lemma_note_parts(s);
    if out.in_cycle {
        let (_, size, peers) = risk::membership(s.cycles@, s.file@);
        let head = "in import cycle of "@ + text::decimal(size as nat) + " files: "@;
        let notes = risk::cycle_notes(s);
        assert(notes[0] == head + risk::sampled(peers, 5));
        assert(notes.contains(notes[0]));
        words::law_a_text_begins_and_ends_with_its_parts(head, risk::sampled(peers, 5), Seq::empty());
        let all = text::views(out.notes@);
        assert(all.contains(notes[0]));
        let i = choose|i: int| 0 <= i < all.len() && all[i] == notes[0];
        assert(text::starts_with(all[i], head));
    }
}

/// References that other symbols of the same name share are said to be shared; a
/// symbol in a cycle is told the size of the cycle.
pub proof fn law_shared_references_are_said_to_be_shared(symbols: Seq<Symbol>, i: int, j: int, refs: u32, cycle: Option<u32>)
    requires
        0 <= i < symbols.len(),
        0 <= j < symbols.len(),
        i != j,
        symbols[i].line_start <= symbols[i].line_end < u32::MAX,
    ensures
        ({
            let head = "hot: "@ + text::decimal((symbols[i].line_end - symbols[i].line_start + 1) as nat) + " lines, "@
                + text::decimal(refs as nat);
            let ring = match cycle {
                Some(n) => ", in "@ + text::decimal(n as nat) + "-file cycle"@,
                None => Seq::empty(),
            };
            &&& symbols[i].name@ == symbols[j].name@ ==> top_symbols::why_hot(symbols, i, refs, cycle) == head
                + " refs (shared across same-named symbols in this file)"@ + ring
            &&& (forall|k: int| 0 <= k < symbols.len() && k != i ==> (#[trigger] symbols[k]).name@ != symbols[i].name@)
                ==> top_symbols::why_hot(symbols, i, refs, cycle) == head + " refs"@ + ring
        }),
{
    let d = text::decimal(refs as nat);
    let l = "hot: "@ + text::decimal((symbols[i].line_end - symbols[i].line_start + 1) as nat) + " lines, "@;
    let ring = match cycle {
        Some(n) => ", in "@ + text::decimal(n as nat) + "-file cycle"@,
        None => Seq::empty(),
    };
    let shared = " refs (shared across same-named symbols in this file)"@;
    if symbols[i].name@ == symbols[j].name@ {
        assert(top_symbols::shares_name(symbols, i));
        assert(l + (d + shared) + ring =~= l + d + shared + ring);
    }
    assert(l + (d + " refs"@) + ring =~= l + d + " refs"@ + ring);
}

proof fn lemma_in_sum(a: Seq<Seq<char>>, b: Seq<Seq<char>>)
    ensures
        forall|x: Seq<char>| #[trigger] a.contains(x) ==> (a + b).contains(x),
        forall|x: Seq<char>| #[trigger] b.contains(x) ==> (a + b).contains(x),
{
    assert forall|x: Seq<char>| #[trigger] a.contains(x) implies (a + b).contains(x) by {
        let i = choose|i: int| 0 <= i < a.len() && a[i] == x;
        assert((a + b)[i] == x);
    }
    assert forall|x: Seq<char>| #[trigger] b.contains(x) implies (a + b).contains(x) by {
        let i = choose|i: int| 0 <= i < b.len() && b[i] == x;
        assert((a + b)[a.len() + i] == x);
    }
}

proof fn lemma_maybe(condition: bool, note: Seq<char>)
    ensures
        condition ==> risk::maybe(condition, note).contains(note),
{
    if condition {
        assert(risk::maybe(condition, note)[0] == note);
    }
}

/// Tests that were found are counted by how they were found; only where nothing
/// speaks for any test is it said that none was found.
pub proof fn law_found_tests_are_counted(siblings: nat, coupled: nat, suppressed: Seq<Seq<char>>, absent: Option<AbsenceOverride>)
    ensures
        siblings > 0 ==> recommend::base_text(siblings, coupled, suppressed, absent).contains(
            text::decimal(siblings) + " sibling test file(s) found by language convention"@,
        ),
        coupled > 0 ==> recommend::base_text(siblings, coupled, suppressed, absent).contains(
            text::decimal(coupled) + " additional test file(s) suggested by co-change history"@,
        ),
        recommend::base_text(siblings, coupled, suppressed, absent).len() == if siblings == 0 && coupled == 0
            && suppressed.len() == 0 {
            if absent is None {
                1int
            } else {
                0
            }
        } else {
            (if siblings > 0 { 1int } else { 0 }) + (if coupled > 0 { 1int } else { 0 }) + (if suppressed.len() > 0 {
                1int
            } else {
                0
            })
        },
{
    let out = recommend::base_text(siblings, coupled, suppressed, absent);
    if siblings > 0 {
        assert(out[0] == text::decimal(siblings) + " sibling test file(s) found by language convention"@);
    }
    if coupled > 0 {
        assert(out[if siblings > 0 { 1int } else { 0 }] == text::decimal(coupled)
            + " additional test file(s) suggested by co-change history"@);
    }
}

/// Inputs that were ignored are counted by why.
pub proof fn law_ignored_inputs_are_counted(v: InputsView)
    ensures
        v.blank > 0 ==> answer::ignored(v).contains(text::decimal(v.blank) + " empty input(s) ignored"@),
        v.roots > 0 ==> answer::ignored(v).contains(
            text::decimal(v.roots) + " input(s) ignored: the project root names no file"@,
        ),
        v.duplicates > 0 ==> answer::ignored(v).contains(
            text::decimal(v.duplicates) + " duplicate input(s) ignored: another spelling of the same path"@,
        ),
        v.blank == 0 && v.roots == 0 && v.duplicates == 0 ==> answer::ignored(v).len() == 0,
{
    let x = text::decimal(v.blank) + " empty input(s) ignored"@;
    let y = text::decimal(v.roots) + " input(s) ignored: the project root names no file"@;
    let z = text::decimal(v.duplicates) + " duplicate input(s) ignored: another spelling of the same path"@;
    let (a, b, c) = (
        risk::maybe(v.blank > 0, x),
        risk::maybe(v.roots > 0, y),
        risk::maybe(v.duplicates > 0, z),
    );
    lemma_maybe(v.blank > 0, x);
    lemma_maybe(v.roots > 0, y);
    lemma_maybe(v.duplicates > 0, z);
    lemma_in_sum(a, b);
    lemma_in_sum(a + b, c);
    assert(answer::ignored(v) == a + b + c);
}

/// An answer says which inputs it had no parser for, that no test is indexed,
/// what it ignored, and how far reach goes wherever reach says anything.
pub proof fn law_an_answer_says_what_it_left_out(
    r: TestRecommendations,
    v: InputsView,
    base: BaseRecommendations,
    t: InputTriage,
    opts: ReachabilityOptions,
    x: Seq<char>,
)
    ensures
        answer::ignored(v).contains(x) ==> answer::answer_notes(r, v, base, t, opts).contains(x),
        r.indexed_test_files == 0 ==> answer::answer_notes(r, v, base, t, opts).contains(
            "the index contains no test files (check `[index] exclude_patterns`); reachability walk skipped"@,
        ),
        r.reachable_total > 0 || r.unmodelled > 0 || r.reach_walk_capped ==> answer::answer_notes(
            r,
            v,
            base,
            t,
            opts,
        ).contains(answer::reach_text(r, opts.depth, opts.list_cap)),
        r.unsupported_files@.len() > 0 ==> answer::answer_notes(r, v, base, t, opts).contains(
            text::decimal(r.unsupported_files@.len()) + " file(s) skipped, no parser for their type: "@
                + recommend::abbreviated(text::views(r.unsupported_files@)),
        ),
{
    let changed = answer::changed_count(text::views(base.primary@), text::views(t.changed_tests@));
    let a = recommend::base_text(
        base.primary@.len(),
        base.coupled@.len(),
        text::views(base.suppressed_sources@),
        answer::absence(r.reachable_total as nat, changed, r.indexed_test_files as nat, r.reach_walk_capped),
    );
    let b = risk::maybe(changed > 0, answer::changed_text(changed as nat, text::views(t.unparsed_changed_tests@)));
    let c = answer::ignored(v);
    let none = "the index contains no test files (check `[index] exclude_patterns`); reachability walk skipped"@;
    let d = risk::maybe(r.indexed_test_files == 0, none);
    let far = answer::reach_text(r, opts.depth, opts.list_cap);
    let told = r.reachable_total > 0 || r.unmodelled > 0 || r.reach_walk_capped;
    let e = risk::maybe(told, far);
    let skipped = answer::unsupported_text(text::views(r.unsupported_files@));
    let f = risk::maybe(r.unsupported_files@.len() > 0, skipped);
    assert(answer::answer_notes(r, v, base, t, opts) == a + b + c + d + e + f);
    lemma_maybe(r.indexed_test_files == 0, none);
    lemma_maybe(told, far);
    lemma_maybe(r.unsupported_files@.len() > 0, skipped);
    lemma_in_sum(a + b, c);
    lemma_in_sum(a + b + c, d);
    lemma_in_sum(a + b + c + d, e);
    lemma_in_sum(a + b + c + d + e, f);
}

/// Reach that was cut short is told as a lower bound with the files that are to
/// blame; reach that was not, with the tests that nothing vouches for.
pub proof fn law_reach_is_told_with_its_bounds(r: TestRecommendations, depth: u32, list_cap: usize)
    ensures
        ({
            let head = text::decimal(r.reachable_total as nat)
                + " reachable test file(s) via call/import edges (distance ≤ "@ + text::decimal(depth as nat) + ")"@;
            let out = answer::reach_text(r, depth, list_cap);
            &&& text::starts_with(out, head)
            &&& r.reachable_capped ==> text::starts_with(out, head + (", capped at "@ + text::decimal(list_cap as nat)))
            &&& answer::cap_clause(r) is None ==> text::ends_with(
                out,
                text::decimal(r.unmodelled as nat) + " of "@ + text::decimal(r.indexed_test_files as nat)
                    + " indexed test files have no resolved edge into the changed set and are not vouched for"@,
            )
            &&& answer::cap_clause(r) matches Some(clause) ==> text::ends_with(
                out,
                "; reachable is a lower bound ("@ + clause + ")"@,
            )
        }),
{
    let head = text::decimal(r.reachable_total as nat)
        + " reachable test file(s) via call/import edges (distance ≤ "@ + text::decimal(depth as nat) + ")"@;
    let cap = ", capped at "@ + text::decimal(list_cap as nat);
    let front = head + if r.reachable_capped {
        cap
    } else {
        Seq::empty()
    };
    let out = answer::reach_text(r, depth, list_cap);
    let tail = match answer::cap_clause(r) {
        Some(clause) => "; reachable is a lower bound ("@ + clause + ")"@,
        None => "; "@ + (text::decimal(r.unmodelled as nat) + " of "@ + text::decimal(r.indexed_test_files as nat)
            + " indexed test files have no resolved edge into the changed set and are not vouched for"@),
    };
    assert(out =~= front + tail);
    words::law_a_text_begins_and_ends_with_its_parts(front, tail, Seq::empty());
    let more = if r.reachable_capped {
        cap
    } else {
        Seq::empty()
    };
    assert(out =~= head + (more + tail));
    words::law_a_text_begins_and_ends_with_its_parts(head, more + tail, Seq::empty());
    if answer::cap_clause(r) is None {
        let last = text::decimal(r.unmodelled as nat) + " of "@ + text::decimal(r.indexed_test_files as nat)
            + " indexed test files have no resolved edge into the changed set and are not vouched for"@;
        assert(out =~= (front + "; "@) + last);
        words::law_a_text_begins_and_ends_with_its_parts(front + "; "@, last, Seq::empty());
    }
}

} // verus!
