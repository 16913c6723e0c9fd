//! Which tests reach the changed files.
use vstd::prelude::*;
use crate::history::answer;
use crate::history::answer::{IndexedPath, InputsView};
use crate::history::reach;
use crate::history::reach::ReachOutcome;
use crate::history::recommend::{
    AbsenceOverride, BaseRecommendations, InputTriage, ReachableTestEntry, ReachableView, TestRecommendations,
};
use crate::history::siblings;
use crate::impact::EntryView;
use crate::laws;
use crate::laws::sorting;
use crate::model::FileCategory;
use crate::order;
use crate::paths;
use crate::text;

verus! {

// ---------------------------------------------------------------------------
// Inputs
// ---------------------------------------------------------------------------

/// Every input is taken or counted as ignored, one for one.
pub proof fn law_every_input_is_taken_or_counted(given: Seq<Seq<char>>, root: Option<Seq<char>>)
    ensures
        ({
            let v = answer::taken(given, root);
            &&& v.paths.len() + v.blank + v.roots + v.duplicates == given.len()
            &&& v.paths.len() == v.given.len()
        }),
    decreases given.len(),
{
    if given.len() > 0 {
        law_every_input_is_taken_or_counted(given.drop_last(), root);
    }
}

/// An input of blanks is ignored, and so is one that names the project root or a
/// file that an earlier input named; any other is taken, under the path that it
/// means and as it was given.
pub proof fn law_an_input_is_taken_once(given: Seq<Seq<char>>, root: Option<Seq<char>>, g: Seq<char>)
    ensures
        ({
            let a = answer::taken(given, root);
            let b = answer::taken(given.push(g), root);
            let p = paths::normalized(root, g);
            &&& text::trimmed(g).len() == 0 ==> b.blank == a.blank + 1 && b.paths == a.paths
            &&& text::trimmed(g).len() > 0 && p.len() == 0 ==> b.roots == a.roots + 1 && b.paths == a.paths
            &&& text::trimmed(g).len() > 0 && p.len() > 0 && a.paths.contains(p) ==> b.duplicates == a.duplicates + 1
                && b.paths == a.paths
            &&& text::trimmed(g).len() > 0 && p.len() > 0 && !a.paths.contains(p) ==> b.paths == a.paths.push(p)
                && b.given == a.given.push(g)
        }),
{
    assert(given.push(g).drop_last() =~= given);
}

proof fn lemma_spelled_from(v: InputsView, p: Seq<char>, i: int, k: int)
    requires
        0 <= i <= k < v.paths.len(),
        v.paths[k] == p,
        forall|j: int| i <= j < k ==> v.paths[j] != p,
    ensures
        answer::spelled_from(v, p, i) == v.given[k],
    decreases k - i,
{
    if i < k {
        lemma_spelled_from(v, p, i + 1, k);
    }
}

/// A path is told as it was given.
pub proof fn law_a_path_is_told_as_it_was_given(v: InputsView, s: Seq<Seq<char>>, n: int, k: int)
    requires
        0 <= n < s.len(),
        0 <= k < v.paths.len(),
        v.paths[k] == s[n],
        forall|j: int| 0 <= j < k ==> v.paths[j] != s[n],
    ensures
        answer::spelled(v, s).len() == s.len(),
        answer::spelled(v, s)[n] == v.given[k],
{
    lemma_spelled_from(v, s[n], 0, k);
}

// ---------------------------------------------------------------------------
// Reached tests
// ---------------------------------------------------------------------------

proof fn lemma_reached_at(reached: Seq<ReachableView>, path: Seq<char>)
    ensures
        match reach::reached_at(reached, path) {
            Some(i) => 0 <= i < reached.len() && reached[i].path == path,
            None => forall|i: int| 0 <= i < reached.len() ==> (#[trigger] reached[i]).path != path,
        },
    decreases reached.len(),
{
    if reached.len() > 0 && reached.last().path != path {
        let front = reached.drop_last();
        lemma_reached_at(front, path);
        assert forall|i: int|
            reach::reached_at(front, path) is None && 0 <= i < reached.len() implies (#[trigger] reached[i]).path
            != path by {
            if i < front.len() {
                assert(front[i] == reached[i]);
            }
        }
    }
}

/// A test is reached within so many steps.
pub open spec fn within(reached: Seq<ReachableView>, path: Seq<char>, distance: u32) -> bool {
    exists|i: int| 0 <= i < reached.len() && (#[trigger] reached[i]).path == path && reached[i].distance <= distance
}

proof fn lemma_with_reach(reached: Seq<ReachableView>, e: ReachableView)
    ensures
        within(reach::with_reach(reached, e), e.path, e.distance),
        forall|p: Seq<char>, d: u32| #[trigger] within(reached, p, d) ==> within(reach::with_reach(reached, e), p, d),
        forall|i: int|
            0 <= i < reach::with_reach(reached, e).len() ==> reached.contains(
                #[trigger] reach::with_reach(reached, e)[i],
            ) || reach::with_reach(reached, e)[i] == e,
{
    lemma_reached_at(reached, e.path);
    let out = reach::with_reach(reached, e);
    match reach::reached_at(reached, e.path) {
        Some(i) => {
            assert(out[i].path == e.path);
        },
        None => {
            assert(out[reached.len() as int] == e);
        },
    }
    assert forall|p: Seq<char>, d: u32| #[trigger] within(reached, p, d) implies within(out, p, d) by {
        let i = choose|i: int|
            0 <= i < reached.len() && (#[trigger] reached[i]).path == p && reached[i].distance <= d;
        assert(out[i].path == p && out[i].distance <= d);
    }
    assert forall|i: int| 0 <= i < out.len() implies reached.contains(#[trigger] out[i]) || out[i] == e by {
        if i < reached.len() {
            assert(reached.contains(reached[i]));
        }
    }
}

/// A reached test comes from an entry of a walk: a test, no fixture and no input.
pub open spec fn is_test_of(r: ReachableView, entries: Seq<EntryView>, input: Seq<char>, inputs: Seq<Seq<char>>) -> bool {
    exists|k: int| {
        &&& 0 <= k < entries.len()
        &&& (#[trigger] entries[k]).path == r.path
        &&& entries[k].distance == r.distance
        &&& entries[k].category == FileCategory::Test
        &&& !siblings::fixture(r.path)
        &&& !inputs.contains(r.path)
        &&& r.input == input
    }
}

/// A walk adds every test that it reached, unless it is a fixture or an input,
/// at its distance or at a smaller one; and it adds nothing else.
pub proof fn law_a_walk_adds_the_tests_that_it_reached(
    reached: Seq<ReachableView>,
    entries: Seq<EntryView>,
    counts: Seq<(Seq<char>, u32)>,
    input: Seq<char>,
    inputs: Seq<Seq<char>>,
)
    ensures
        ({
            let out = reach::absorbed(reached, entries, counts, input, inputs);
            &&& forall|k: int|
                0 <= k < entries.len() && (#[trigger] entries[k]).category == FileCategory::Test && !siblings::fixture(
                    entries[k].path,
                ) && !inputs.contains(entries[k].path) ==> within(out, entries[k].path, entries[k].distance)
            &&& forall|p: Seq<char>, d: u32| #[trigger] within(reached, p, d) ==> within(out, p, d)
            &&& forall|i: int|
                0 <= i < out.len() ==> reached.contains(#[trigger] out[i]) || is_test_of(out[i], entries, input, inputs)
        }),
    decreases entries.len(),
{
    let out = reach::absorbed(reached, entries, counts, input, inputs);
    if entries.len() == 0 {
        assert forall|i: int| 0 <= i < out.len() implies reached.contains(#[trigger] out[i]) || is_test_of(
            out[i],
            entries,
            input,
            inputs,
        ) by {
            assert(reached.contains(reached[i]));
        }
    } else {
        let less = entries.drop_last();
        let front = reach::absorbed(reached, less, counts, input, inputs);
        let e = entries.last();
        let r = ReachableView {
            path: e.path,
            distance: e.distance,
            edge_count: reach::count_of(counts, e.path)->0,
            input: input,
        };
        law_a_walk_adds_the_tests_that_it_reached(reached, less, counts, input, inputs);
        lemma_with_reach(front, r);
        assert(entries[entries.len() - 1] == e);
        assert forall|k: int|
            0 <= k < entries.len() && (#[trigger] entries[k]).category == FileCategory::Test && !siblings::fixture(
                entries[k].path,
            ) && !inputs.contains(entries[k].path) implies within(out, entries[k].path, entries[k].distance) by {
            if k < less.len() {
                assert(less[k] == entries[k]);
                assert(within(front, entries[k].path, entries[k].distance));
            }
        }
        assert forall|i: int| 0 <= i < out.len() implies reached.contains(#[trigger] out[i]) || is_test_of(
            out[i],
            entries,
            input,
            inputs,
        ) by {
            if front.contains(out[i]) {
                let j = choose|j: int| 0 <= j < front.len() && front[j] == out[i];
                assert(reached.contains(front[j]) || is_test_of(front[j], less, input, inputs));
                if is_test_of(front[j], less, input, inputs) {
                    let k = choose|k: int| {
                        &&& 0 <= k < less.len()
                        &&& (#[trigger] less[k]).path == out[i].path
                        &&& less[k].distance == out[i].distance
                        &&& less[k].category == FileCategory::Test
                        &&& !siblings::fixture(out[i].path)
                        &&& !inputs.contains(out[i].path)
                        &&& out[i].input == input
                    };
                    assert(entries[k] == less[k]);
                }
            } else if !reach::is_reaching_test(e, inputs) {
                assert(front.contains(front[i]));
            }
        }
    }
}

// ---------------------------------------------------------------------------
// Answers
// ---------------------------------------------------------------------------

proof fn lemma_reaching(reached: Seq<ReachableView>, vouched: Seq<Seq<char>>, x: ReachableView)
    ensures
        answer::reaching(reached, vouched).contains(x) <==> reached.contains(x) && !vouched.contains(x.path),
{
    let keep = |e: ReachableView| !vouched.contains(e.path);
    let kept = reached.filter(keep);
    sorting::law_sorting_keeps_what_is_listed::<ReachableTestEntry>(kept);
    assert(answer::reaching(reached, vouched) == order::sorted::<ReachableTestEntry>(kept));
    if kept.contains(x) {
        let i = choose|i: int| 0 <= i < kept.len() && kept[i] == x;
        reached.lemma_filter_pred(keep, i);
        reached.lemma_filter_contains_rev(keep, x);
    }
    if reached.contains(x) && !vouched.contains(x.path) {
        let i = choose|i: int| 0 <= i < reached.len() && reached[i] == x;
        reached.lemma_filter_contains(keep, i);
    }
}

/// What an answer lists as reachable was reached and is recommended nowhere else
/// in it. Where the list is not cut, everything of that kind is listed; where it
/// is cut, it holds as many as allowed, and the total counts them all.
pub proof fn law_an_answer_lists_what_is_reached_and_not_vouched_for(
    r: TestRecommendations,
    v: InputsView,
    base: BaseRecommendations,
    t: InputTriage,
    tests: Seq<Seq<char>>,
    o: ReachOutcome,
    list_cap: usize,
    x: ReachableView,
)
    requires
        answer::lists(r, v, base, t, tests, o, list_cap),
    ensures
        text::views(r.reachable@).contains(x) ==> {
            &&& text::views(o.reached@).contains(x)
            &&& !text::views(r.primary@).contains(x.path)
            &&& !answer::coupled_paths(base.coupled@).contains(x.path)
            &&& !text::views(base.withheld@).contains(x.path)
        },
        !r.reachable_capped && text::views(o.reached@).contains(x) && !text::views(r.primary@).contains(x.path)
            && !answer::coupled_paths(base.coupled@).contains(x.path) && !text::views(base.withheld@).contains(x.path)
            ==> text::views(r.reachable@).contains(x),
        r.reachable@.len() <= list_cap,
        !r.reachable_capped ==> r.reachable@.len() == r.reachable_total,
        r.reachable_capped <==> r.reachable_total > list_cap,
        r.reachable_capped ==> r.reachable@.len() == list_cap,
        r.indexed_test_files == tests.len(),
{
    broadcast use text::group_views;

    let primary = text::views(r.primary@);
    let first = answer::vouched(primary, base);
    let all = answer::reaching(text::views(o.reached@), first);
    lemma_reaching(text::views(o.reached@), first, x);
    let c = answer::coupled_paths(base.coupled@);
    let w = text::views(base.withheld@);
    assert(first.contains(x.path) <==> primary.contains(x.path) || c.contains(x.path) || w.contains(x.path)) by {
        assert(first == primary + c + w);
        if primary.contains(x.path) {
            let i = choose|i: int| 0 <= i < primary.len() && primary[i] == x.path;
            assert(first[i] == x.path);
        }
        if c.contains(x.path) {
            let i = choose|i: int| 0 <= i < c.len() && c[i] == x.path;
            assert(first[primary.len() + i] == x.path);
        }
        if w.contains(x.path) {
            let i = choose|i: int| 0 <= i < w.len() && w[i] == x.path;
            assert(first[primary.len() + c.len() + i] == x.path);
        }
        if first.contains(x.path) {
            let i = choose|i: int| 0 <= i < first.len() && first[i] == x.path;
            if i < primary.len() {
                assert(primary[i] == x.path);
            } else if i < primary.len() + c.len() {
                assert(c[i - primary.len()] == x.path);
            } else {
                assert(w[i - primary.len() - c.len()] == x.path);
            }
        }
    }
    let shown = text::views(r.reachable@);
    assert(shown.len() == r.reachable@.len());
    if shown.contains(x) {
        let i = choose|i: int| 0 <= i < shown.len() && shown[i] == x;
        assert(all[i] == x);
    }
}

/// An answer is a lower bound exactly where some input was not walked, was cut
/// short, is not indexed or defines no symbol; each of these is named.
pub proof fn law_an_incomplete_answer_says_so(
    r: TestRecommendations,
    v: InputsView,
    base: BaseRecommendations,
    t: InputTriage,
    tests: Seq<Seq<char>>,
    o: ReachOutcome,
    list_cap: usize,
)
    requires
        answer::lists(r, v, base, t, tests, o, list_cap),
    ensures
        r.reach_walk_capped <==> r.unwalked_files@.len() > 0 || r.partial_files@.len() > 0 || r.unindexed_files@.len()
            > 0 || r.no_symbol_files@.len() > 0,
        r.unwalked_files@.len() == o.unwalked@.len(),
        r.partial_files@.len() == o.partial@.len(),
        r.no_symbol_files@.len() == o.no_symbol@.len(),
        r.unindexed_files@.len() == t.unindexed@.len(),
        r.unsupported_files@.len() == t.unsupported@.len(),
        answer::cap_clause(r) is Some <==> r.reach_walk_capped,
{
    broadcast use text::group_views;

    assert(text::views(r.unwalked_files@).len() == r.unwalked_files@.len());
    assert(text::views(r.partial_files@).len() == r.partial_files@.len());
    assert(text::views(r.unindexed_files@).len() == r.unindexed_files@.len());
    assert(text::views(r.no_symbol_files@).len() == r.no_symbol_files@.len());
    assert(text::views(r.unsupported_files@).len() == r.unsupported_files@.len());
    assert(text::views(o.unwalked@).len() == o.unwalked@.len());
    assert(text::views(o.partial@).len() == o.partial@.len());
    assert(text::views(o.no_symbol@).len() == o.no_symbol@.len());
    assert(text::views(t.unindexed@).len() == t.unindexed@.len());
    assert(text::views(t.unsupported@).len() == t.unsupported@.len());
}

/// A test among the inputs is itself recommended, beside what convention gives.
pub proof fn law_changed_tests_are_run(
    r: TestRecommendations,
    v: InputsView,
    base: BaseRecommendations,
    t: InputTriage,
    tests: Seq<Seq<char>>,
    o: ReachOutcome,
    list_cap: usize,
    x: Seq<char>,
)
    requires
        answer::lists(r, v, base, t, tests, o, list_cap),
    ensures
        text::views(r.primary@).contains(x) <==> text::views(base.primary@).contains(x) || text::views(
            t.changed_tests@,
        ).contains(x),
{
    let b = text::views(base.primary@);
    let c = text::views(t.changed_tests@);
    let all = siblings::joined_unique(b, c);
    laws::siblings::lemma_joined_unique(b, c, x);
    sorting::law_sorting_keeps_what_is_listed::<String>(all);
    lemma_nothing_new(b, c);
}

/// Where changed tests join the others, all are listed in the order of their
/// names.
pub proof fn law_joined_tests_are_listed_by_name(
    r: TestRecommendations,
    v: InputsView,
    base: BaseRecommendations,
    t: InputTriage,
    tests: Seq<Seq<char>>,
    o: ReachOutcome,
    list_cap: usize,
    i: int,
    j: int,
)
    requires
        answer::lists(r, v, base, t, tests, o, list_cap),
        0 <= i < j < r.primary@.len(),
        r.primary@.len() != base.primary@.len(),
    ensures
        !order::text_before(r.primary@[j]@, r.primary@[i]@),
{
    broadcast use text::group_views;

    let b = text::views(base.primary@);
    let all = siblings::joined_unique(b, text::views(t.changed_tests@));
    order::lemma_sorted::<String>(all);
    let p = text::views(r.primary@);
    assert(p.len() == r.primary@.len());
    assert(b.len() == base.primary@.len());
    assert(p == order::sorted::<String>(all));
    assert(p[i] == r.primary@[i]@ && p[j] == r.primary@[j]@);
    assert(!<String as order::Ranked>::ahead(p[j], p[i]));
}

proof fn lemma_nothing_new(found: Seq<Seq<char>>, more: Seq<Seq<char>>)
    ensures
        siblings::joined_unique(found, more).len() >= found.len(),
        siblings::joined_unique(found, more).len() == found.len() ==> siblings::joined_unique(found, more) == found,
    decreases more.len(),
{
    if more.len() > 0 {
        lemma_nothing_new(found, more.drop_last());
    }
}

/// Why a lack of tests is not put down to the files: another signal found some,
/// the index holds no tests, or the walk was cut short, in this order.
pub proof fn law_an_absence_has_its_reason(total: nat, changed: int, tests: nat, capped: bool)
    ensures
        total > 0 || changed > 0 ==> answer::absence(total, changed, tests, capped) == Some(AbsenceOverride::OtherSignal),
        total == 0 && changed <= 0 && tests == 0 ==> answer::absence(total, changed, tests, capped) == Some(
            AbsenceOverride::NoTestFilesIndexed,
        ),
        total == 0 && changed <= 0 && tests > 0 && capped ==> answer::absence(total, changed, tests, capped) == Some(
            AbsenceOverride::WalkCapped,
        ),
        total == 0 && changed <= 0 && tests > 0 && !capped ==> answer::absence(total, changed, tests, capped) is None,
{
}

/// The test files of the index: every test that is no fixture, and what the
/// conventions found, listed or withheld.
pub proof fn law_the_test_files_are_tests_and_no_fixtures(
    index: Seq<IndexedPath>,
    base: BaseRecommendations,
    x: Seq<char>,
)
    ensures
        answer::test_files(index, base).contains(x) <==> (exists|k: int|
            0 <= k < index.len() && (#[trigger] index[k]).path@ == x && index[k].is_test && !siblings::fixture(x))
            || text::views(base.primary@).contains(x) || text::views(base.withheld@).contains(x),
{
    let a = answer::index_tests(index);
    let b = text::views(base.primary@);
    let c = text::views(base.withheld@);
    let all = a + b + c;
    order::lemma_ascending_set_holds(all);
    lemma_index_tests(index, x);
    if a.contains(x) {
        let i = choose|i: int| 0 <= i < a.len() && a[i] == x;
        assert(all[i] == x);
    }
    if b.contains(x) {
        let i = choose|i: int| 0 <= i < b.len() && b[i] == x;
        assert(all[a.len() + i] == x);
    }
    if c.contains(x) {
        let i = choose|i: int| 0 <= i < c.len() && c[i] == x;
        assert(all[a.len() + b.len() + i] == x);
    }
    if all.contains(x) {
        let i = choose|i: int| 0 <= i < all.len() && all[i] == x;
        if i < a.len() {
            assert(a[i] == x);
        } else if i < a.len() + b.len() {
            assert(b[i - a.len()] == x);
        } else {
            assert(c[i - a.len() - b.len()] == x);
        }
    }
}

proof fn lemma_index_tests(index: Seq<IndexedPath>, x: Seq<char>)
    ensures
        answer::index_tests(index).contains(x) <==> exists|k: int|
            0 <= k < index.len() && (#[trigger] index[k]).path@ == x && index[k].is_test && !siblings::fixture(x),
    decreases index.len(),
{
    if index.len() > 0 {
        let less = index.drop_last();
        lemma_index_tests(less, x);
        let front = answer::index_tests(less);
        let all = answer::index_tests(index);
        assert(index[index.len() - 1] == index.last());
        if front.contains(x) {
            let i = choose|i: int| 0 <= i < front.len() && front[i] == x;
            assert(all[i] == x);
            let k = choose|k: int|
                0 <= k < less.len() && (#[trigger] less[k]).path@ == x && less[k].is_test && !siblings::fixture(x);
            assert(index[k] == less[k]);
        }
        if all.contains(x) && !front.contains(x) {
            let i = choose|i: int| 0 <= i < all.len() && all[i] == x;
            if i < front.len() {
                assert(front[i] == x);
            }
        }
        if exists|k: int|
            0 <= k < index.len() && (#[trigger] index[k]).path@ == x && index[k].is_test && !siblings::fixture(x) {
            let k = choose|k: int|
                0 <= k < index.len() && (#[trigger] index[k]).path@ == x && index[k].is_test && !siblings::fixture(x);
            if k < less.len() {
                assert(less[k] == index[k]);
            } else {
                assert(all[all.len() - 1] == x);
            }
        }
    }
}

/// A test of the index is not vouched for exactly where nothing recommends it
/// and it is no input; each such test counts once.
pub proof fn law_tests_that_nothing_vouches_for_are_counted(
    tests: Seq<Seq<char>>,
    x: Seq<char>,
    vouched: Seq<Seq<char>>,
    inputs: Seq<Seq<char>>,
)
    ensures
        answer::unvouched(Seq::empty(), vouched, inputs) == 0,
        vouched.contains(x) || inputs.contains(x) ==> answer::unvouched(tests.push(x), vouched, inputs)
            == answer::unvouched(tests, vouched, inputs),
        !vouched.contains(x) && !inputs.contains(x) ==> answer::unvouched(tests.push(x), vouched, inputs)
            == answer::unvouched(tests, vouched, inputs) + 1,
{
    reveal(Seq::filter);
    assert(tests.push(x).drop_last() =~= tests);
}

/// Nothing can be walked where no input is indexed, none is a test and none lacks
/// its index entry.
pub proof fn law_nothing_is_usable_without_an_indexed_input(t: InputTriage)
    ensures
        answer::nothing_usable(t) <==> t.walkable@.len() == 0 && t.changed_tests@.len() == 0 && t.unindexed@.len() == 0,
{
}

/// An input may spend what the queued inputs do not need, and at least its own
/// minimum where the pool holds it.
pub proof fn law_an_input_spends_what_the_queue_leaves(pool: int, floor: int, queued: int)
    requires
        0 <= pool,
        0 <= floor,
        0 <= queued,
    ensures
        queued == 0 ==> reach::share(pool, floor, queued) == pool,
        pool >= floor * queued + floor ==> reach::share(pool, floor, queued) == pool - floor * queued,
        pool <= floor ==> reach::share(pool, floor, queued) == pool || queued == 0,
        reach::share(pool, floor, queued) == 0 ==> pool == 0 || floor == 0,
{
    assert(floor * queued >= 0) by (nonlinear_arith)
        requires
            0 <= floor,
            0 <= queued,
    ;
    assert(queued == 0 ==> floor * queued == 0) by (nonlinear_arith);
    assert(queued > 0 ==> floor * queued >= floor) by (nonlinear_arith)
        requires
            0 <= floor,
            0 <= queued,
    ;
}

} // verus!
