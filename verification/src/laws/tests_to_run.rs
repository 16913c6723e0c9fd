//! Which tests are recommended.
use vstd::prelude::*;
use crate::history::recommend;
use crate::history::recommend::{
    CoupledInput, CoupledRow, CoupledTestEntry, CoupledView, InputTriage, KnownInput, TestRecommendations,
};
use crate::history::siblings;
use crate::laws::sorting;
use crate::order;
use crate::order::Ranked;
use crate::text;

verus! {

// ---------------------------------------------------------------------------
// Tests that co-change
// ---------------------------------------------------------------------------

/// A row of an input is a test that co-changes with it and is none of `primary`.
pub open spec fn counts_as_test(r: CoupledRow, primary: Seq<Seq<char>>) -> bool {
    r.is_test && !siblings::fixture(r.file@) && !primary.contains(r.file@)
}

/// An entry comes from a row of an input: a test that is listed nowhere else.
pub open spec fn comes_from(e: CoupledView, inputs: Seq<CoupledInput>, primary: Seq<Seq<char>>, n: int, m: int) -> bool {
    &&& 0 <= n < inputs.len()
    &&& 0 <= m < inputs[n].rows@.len()
    &&& inputs[n].rows@[m].is_test
    &&& !siblings::fixture(inputs[n].rows@[m].file@)
    &&& !primary.contains(inputs[n].rows@[m].file@)
    &&& e.file == inputs[n].rows@[m].file@
    &&& e.rank == inputs[n].rows@[m].rank
    &&& e.count == inputs[n].rows@[m].count
    &&& e.source == inputs[n].path@
}

/// An entry comes from some row of some input.
pub open spec fn comes_from_a_row(e: CoupledView, inputs: Seq<CoupledInput>, primary: Seq<Seq<char>>) -> bool {
    exists|n: int, m: int| #[trigger] comes_from(e, inputs, primary, n, m)
}

spec fn row_of(rows: Seq<CoupledRow>, source: Seq<char>, m: int) -> CoupledView {
    CoupledView { file: rows[m].file@, rank: rows[m].rank, count: rows[m].count, source: source }
}

proof fn lemma_coupled_rows(rows: Seq<CoupledRow>, source: Seq<char>, primary: Seq<Seq<char>>)
    ensures
        forall|x: CoupledView| #[trigger]
            recommend::coupled_rows(rows, source, primary).contains(x) ==> exists|m: int|
                0 <= m < rows.len() && counts_as_test(rows[m], primary) && x == #[trigger] row_of(rows, source, m),
        forall|m: int|
            0 <= m < rows.len() && counts_as_test(rows[m], primary) ==> recommend::coupled_rows(
                rows,
                source,
                primary,
            ).contains(#[trigger] row_of(rows, source, m)),
    decreases rows.len(),
{
    if rows.len() > 0 {
        let front = rows.drop_last();
        lemma_coupled_rows(front, source, primary);
        let a = recommend::coupled_rows(front, source, primary);
        let b = recommend::coupled_rows(rows, source, primary);
        let n = rows.len() - 1;
        assert forall|x: CoupledView| #[trigger] b.contains(x) implies exists|m: int|
            0 <= m < rows.len() && counts_as_test(rows[m], primary) && x == #[trigger] row_of(rows, source, m) by {
            let i = choose|i: int| 0 <= i < b.len() && b[i] == x;
            if i < a.len() {
                assert(a[i] == x);
                assert(a.contains(x));
                let m = choose|m: int|
                    0 <= m < front.len() && counts_as_test(front[m], primary) && x == #[trigger] row_of(front, source, m);
                assert(row_of(rows, source, m) == x);
            } else {
                assert(row_of(rows, source, n) == x);
            }
        }
        assert forall|m: int| 0 <= m < rows.len() && counts_as_test(rows[m], primary) implies b.contains(
            #[trigger] row_of(rows, source, m),
        ) by {
            if m < n {
                let x = row_of(front, source, m);
                assert(a.contains(x));
                let i = choose|i: int| 0 <= i < a.len() && a[i] == x;
                assert(b[i] == row_of(rows, source, m));
            } else {
                assert(b[b.len() - 1] == row_of(rows, source, n));
            }
        }
    }
}

proof fn lemma_all_coupled_come(inputs: Seq<CoupledInput>, primary: Seq<Seq<char>>, x: CoupledView)
    requires
        recommend::all_coupled(inputs, primary).contains(x),
    ensures
        exists|n: int, m: int| #[trigger] comes_from(x, inputs, primary, n, m),
    decreases inputs.len(),
{
    let front = inputs.drop_last();
    let last = inputs.last();
    let a = recommend::all_coupled(front, primary);
    let b = recommend::coupled_rows(last.rows@, last.path@, primary);
    let all = recommend::all_coupled(inputs, primary);
    let i = choose|i: int| 0 <= i < all.len() && all[i] == x;
    if i < a.len() {
        assert(a[i] == x);
        lemma_all_coupled_come(front, primary, x);
        let (n, m) = choose|n: int, m: int| #[trigger] comes_from(x, front, primary, n, m);
        assert(comes_from(x, inputs, primary, n, m));
    } else {
        assert(b[i - a.len()] == x);
        lemma_coupled_rows(last.rows@, last.path@, primary);
        assert(b.contains(x));
        let m = choose|m: int|
            0 <= m < last.rows@.len() && counts_as_test(last.rows@[m], primary) && x == #[trigger] row_of(
                last.rows@,
                last.path@,
                m,
            );
        assert(comes_from(x, inputs, primary, inputs.len() - 1, m));
    }
}

proof fn lemma_all_coupled_hold(inputs: Seq<CoupledInput>, primary: Seq<Seq<char>>, n: int, m: int)
    requires
        0 <= n < inputs.len(),
        0 <= m < inputs[n].rows@.len(),
        counts_as_test(inputs[n].rows@[m], primary),
    ensures
        recommend::all_coupled(inputs, primary).contains(row_of(inputs[n].rows@, inputs[n].path@, m)),
    decreases inputs.len(),
{
    let front = inputs.drop_last();
    let last = inputs.last();
    let x = row_of(inputs[n].rows@, inputs[n].path@, m);
    let a = recommend::all_coupled(front, primary);
    let b = recommend::coupled_rows(last.rows@, last.path@, primary);
    let all = recommend::all_coupled(inputs, primary);
    if n < front.len() {
        lemma_all_coupled_hold(front, primary, n, m);
        let i = choose|i: int| 0 <= i < a.len() && a[i] == x;
        assert(all[i] == x);
    } else {
        lemma_coupled_rows(last.rows@, last.path@, primary);
        assert(b.contains(x));
        let i = choose|i: int| 0 <= i < b.len() && b[i] == x;
        assert(all[a.len() + i] == x);
    }
}

proof fn lemma_first_by_file(s: Seq<CoupledView>)
    ensures
        forall|x: CoupledView| #[trigger] recommend::first_by_file(s).contains(x) ==> s.contains(x),
        forall|k: int|
            0 <= k < s.len() ==> recommend::coupled_files(recommend::first_by_file(s)).contains((#[trigger] s[k]).file),
        forall|i: int, j: int|
            0 <= i < j < recommend::first_by_file(s).len() ==> (#[trigger] recommend::first_by_file(s)[i]).file != (
            #[trigger] recommend::first_by_file(s)[j]).file,
    decreases s.len(),
{
    if s.len() > 0 {
        let front = s.drop_last();
        lemma_first_by_file(front);
        let a = recommend::first_by_file(front);
        let b = recommend::first_by_file(s);
        let n = s.len() - 1;
        assert forall|x: CoupledView| #[trigger] b.contains(x) implies s.contains(x) by {
            let i = choose|i: int| 0 <= i < b.len() && b[i] == x;
            if i < a.len() {
                assert(a[i] == x);
                assert(a.contains(x));
                let k = choose|k: int| 0 <= k < front.len() && front[k] == x;
                assert(s[k] == x);
            } else {
                assert(s[n] == x);
            }
        }
        assert forall|k: int| 0 <= k < s.len() implies recommend::coupled_files(b).contains((#[trigger] s[k]).file) by {
            if k < n {
                assert(front[k] == s[k]);
                let fa = recommend::coupled_files(a);
                let i = choose|i: int| 0 <= i < fa.len() && fa[i] == front[k].file;
                assert(recommend::coupled_files(b)[i] == s[k].file);
            } else if !recommend::coupled_files(a).contains(s[n].file) {
                assert(recommend::coupled_files(b)[b.len() - 1] == s[n].file);
            }
        }
        assert forall|i: int, j: int| 0 <= i < j < b.len() implies (#[trigger] b[i]).file != (#[trigger] b[j]).file by {
            if j < a.len() {
                assert(a[i].file != a[j].file);
            } else {
                assert(recommend::coupled_files(a)[i] == a[i].file);
            }
        }
    }
}

/// The tests that co-change with the inputs: every one of them is the file of a
/// row that is a test, no fixture and not listed already; every such row has its
/// file listed; and no file is listed twice.
pub proof fn law_coupled_tests_are_the_tests_among_the_rows(
    inputs: Seq<CoupledInput>,
    primary: Seq<Seq<char>>,
    out: Seq<CoupledView>,
)
    requires
        out == recommend::coupled_tests(inputs, primary),
    ensures
        forall|i: int|
            0 <= i < out.len() ==> #[trigger] comes_from_a_row(out[i], inputs, primary),
        forall|n: int, m: int|
            0 <= n < inputs.len() && 0 <= m < inputs[n].rows@.len() && (#[trigger] inputs[n].rows@[m]).is_test
                && !siblings::fixture(inputs[n].rows@[m].file@) && !primary.contains(inputs[n].rows@[m].file@)
                ==> exists|i: int| 0 <= i < out.len() && (#[trigger] out[i]).file == inputs[n].rows@[m].file@,
        forall|i: int, j: int| 0 <= i < j < out.len() ==> (#[trigger] out[i]).file != (#[trigger] out[j]).file,
{
    let all = recommend::all_coupled(inputs, primary);
    let ranked = order::sorted::<CoupledTestEntry>(all);
    sorting::law_sorting_keeps_what_is_listed::<CoupledTestEntry>(all);
    lemma_first_by_file(ranked);
    assert forall|i: int| 0 <= i < out.len() implies #[trigger] comes_from_a_row(out[i], inputs, primary) by {
        assert(out.contains(out[i]));
        assert(ranked.contains(out[i]));
        assert(all.contains(out[i]));
        lemma_all_coupled_come(inputs, primary, out[i]);
    }
    assert forall|n: int, m: int|
        0 <= n < inputs.len() && 0 <= m < inputs[n].rows@.len() && (#[trigger] inputs[n].rows@[m]).is_test
            && !siblings::fixture(inputs[n].rows@[m].file@) && !primary.contains(
            inputs[n].rows@[m].file@,
        ) implies exists|i: int| 0 <= i < out.len() && (#[trigger] out[i]).file == inputs[n].rows@[m].file@ by {
        lemma_all_coupled_hold(inputs, primary, n, m);
        let x = row_of(inputs[n].rows@, inputs[n].path@, m);
        assert(ranked.contains(x));
        let k = choose|k: int| 0 <= k < ranked.len() && ranked[k] == x;
        let files = recommend::coupled_files(out);
        assert(files.contains(ranked[k].file));
        let i = choose|i: int| 0 <= i < files.len() && files[i] == ranked[k].file;
        assert(out[i].file == x.file);
    }
}

proof fn lemma_first_is_strongest(s: Seq<CoupledView>, k: int, i: int)
    requires
        order::in_order::<CoupledTestEntry>(s),
        0 <= k < s.len(),
        0 <= i < recommend::first_by_file(s).len(),
        recommend::first_by_file(s)[i].file == s[k].file,
    ensures
        recommend::first_by_file(s)[i].rank >= s[k].rank,
    decreases s.len(),
{
    let front = s.drop_last();
    let a = recommend::first_by_file(front);
    let b = recommend::first_by_file(s);
    lemma_first_by_file(front);
    lemma_first_by_file(s);
    assert(order::in_order::<CoupledTestEntry>(front)) by {
        assert forall|x: int, y: int|
            #![trigger CoupledTestEntry::ahead(front[y], front[x])]
            0 <= x < y < front.len() implies !CoupledTestEntry::ahead(front[y], front[x]) by {
            assert(!CoupledTestEntry::ahead(s[y], s[x]));
        }
    }
    if k < front.len() {
        assert(front[k] == s[k]);
        let fa = recommend::coupled_files(a);
        let j = choose|j: int| 0 <= j < fa.len() && fa[j] == front[k].file;
        assert(b[j] == a[j]);
        if j != i {
            assert(b[if i < j { i } else { j }].file != b[if i < j { j } else { i }].file);
        }
        lemma_first_is_strongest(front, k, i);
    } else if i < a.len() {
        assert(b[i] == a[i]);
        assert(a.contains(a[i]));
        let m = choose|m: int| 0 <= m < front.len() && front[m] == a[i];
        assert(s[m] == a[i]);
        assert(!CoupledTestEntry::ahead(s[k], s[m]));
    }
}

/// The strongest pairs come first, and a file is listed with the strongest of
/// its pairs.
pub proof fn law_coupled_tests_are_ranked_by_their_strongest_pair(
    inputs: Seq<CoupledInput>,
    primary: Seq<Seq<char>>,
    out: Seq<CoupledView>,
    i: int,
    n: int,
    m: int,
)
    requires
        out == recommend::coupled_tests(inputs, primary),
        0 <= i < out.len(),
        0 <= n < inputs.len(),
        0 <= m < inputs[n].rows@.len(),
        counts_as_test(inputs[n].rows@[m], primary),
        out[i].file == inputs[n].rows@[m].file@,
    ensures
        out[i].rank >= inputs[n].rows@[m].rank,
        forall|j: int| i < j < out.len() ==> out[i].rank >= (#[trigger] out[j]).rank,
{
    let all = recommend::all_coupled(inputs, primary);
    let ranked = order::sorted::<CoupledTestEntry>(all);
    sorting::law_sorting_keeps_what_is_listed::<CoupledTestEntry>(all);
    order::lemma_sorted::<CoupledTestEntry>(all);
    lemma_all_coupled_hold(inputs, primary, n, m);
    let x = row_of(inputs[n].rows@, inputs[n].path@, m);
    assert(ranked.contains(x));
    let k = choose|k: int| 0 <= k < ranked.len() && ranked[k] == x;
    lemma_first_is_strongest(ranked, k, i);
    assert forall|j: int| i < j < out.len() implies out[i].rank >= (#[trigger] out[j]).rank by {
        lemma_firsts_in_order(ranked, i, j);
    }
}

proof fn lemma_firsts_in_order(s: Seq<CoupledView>, i: int, j: int)
    requires
        order::in_order::<CoupledTestEntry>(s),
        0 <= i < j < recommend::first_by_file(s).len(),
    ensures
        recommend::first_by_file(s)[i].rank >= recommend::first_by_file(s)[j].rank,
    decreases s.len(),
{
    let front = s.drop_last();
    let a = recommend::first_by_file(front);
    let b = recommend::first_by_file(s);
    assert(order::in_order::<CoupledTestEntry>(front)) by {
        assert forall|x: int, y: int|
            #![trigger CoupledTestEntry::ahead(front[y], front[x])]
            0 <= x < y < front.len() implies !CoupledTestEntry::ahead(front[y], front[x]) by {
            assert(!CoupledTestEntry::ahead(s[y], s[x]));
        }
    }
    if j < a.len() {
        lemma_firsts_in_order(front, i, j);
        assert(b[i] == a[i] && b[j] == a[j]);
    } else {
        lemma_first_by_file(front);
        assert(b[i] == a[i]);
        assert(a.contains(a[i]));
        let m = choose|m: int| 0 <= m < front.len() && front[m] == a[i];
        assert(s[m] == a[i]);
        assert(!CoupledTestEntry::ahead(s[s.len() - 1], s[m]));
    }
}

/// What is recommended by co-change, said of the answer itself: every file that
/// it lists is the file of a test row of an input, and every test row whose file
/// is no fixture and no sibling test is listed.
pub proof fn law_recommended_tests_are_tests(out: TestRecommendations, index: Seq<Seq<char>>, inputs: Seq<CoupledInput>)
    requires
        recommend::suggests(out, index, inputs),
    ensures
        forall|i: int|
            0 <= i < out.coupled@.len() ==> #[trigger] comes_from_a_row(
                out.coupled@[i]@,
                inputs,
                text::views(out.primary@),
            ),
        forall|n: int, m: int|
            0 <= n < inputs.len() && 0 <= m < inputs[n].rows@.len() && (#[trigger] inputs[n].rows@[m]).is_test
                && !siblings::fixture(inputs[n].rows@[m].file@) && !text::views(out.primary@).contains(
                inputs[n].rows@[m].file@,
            ) ==> exists|i: int|
                0 <= i < out.coupled@.len() && (#[trigger] out.coupled@[i]).file@ == inputs[n].rows@[m].file@,
{
    broadcast use text::group_views;

    let primary = order::ascending_set(recommend::all_siblings(index, inputs));
    assert(text::views(out.primary@) == primary);
    let shown = text::views(out.coupled@);
    law_coupled_tests_are_the_tests_among_the_rows(inputs, primary, shown);
    assert(shown.len() == out.coupled@.len());
    assert forall|i: int| 0 <= i < out.coupled@.len() implies #[trigger] comes_from_a_row(
        out.coupled@[i]@,
        inputs,
        primary,
    ) by {
        assert(shown[i] == out.coupled@[i]@);
        assert(comes_from_a_row(shown[i], inputs, primary));
    }
    assert forall|n: int, m: int|
        0 <= n < inputs.len() && 0 <= m < inputs[n].rows@.len() && (#[trigger] inputs[n].rows@[m]).is_test
            && !siblings::fixture(inputs[n].rows@[m].file@) && !primary.contains(
            inputs[n].rows@[m].file@,
        ) implies exists|i: int|
        0 <= i < out.coupled@.len() && (#[trigger] out.coupled@[i]).file@ == inputs[n].rows@[m].file@ by {
        let i = choose|i: int| 0 <= i < shown.len() && (#[trigger] shown[i]).file == inputs[n].rows@[m].file@;
        assert(shown[i] == out.coupled@[i]@);
    }
}

/// The sibling tests of the inputs are listed: everything that a convention
/// names for an input, and nothing else, each once and ascending.
pub proof fn law_sibling_tests_of_every_input_are_listed(
    out: TestRecommendations,
    index: Seq<Seq<char>>,
    inputs: Seq<CoupledInput>,
    x: Seq<char>,
)
    requires
        recommend::suggests(out, index, inputs),
    ensures
        text::views(out.primary@).contains(x) <==> exists|n: int|
            0 <= n < inputs.len() && siblings::sibling_tests(index, (#[trigger] inputs[n]).path@).0.contains(x),
        forall|i: int, j: int|
            0 <= i < j < out.primary@.len() ==> order::text_before(
                (#[trigger] out.primary@[i])@,
                (#[trigger] out.primary@[j])@,
            ),
{
    broadcast use text::group_views;

    let all = recommend::all_siblings(index, inputs);
    order::lemma_ascending_set_holds(all);
    lemma_all_siblings(index, inputs, x);
    let shown = text::views(out.primary@);
    assert forall|i: int, j: int| 0 <= i < j < out.primary@.len() implies order::text_before(
        (#[trigger] out.primary@[i])@,
        (#[trigger] out.primary@[j])@,
    ) by {
        assert(shown[i] == out.primary@[i]@ && shown[j] == out.primary@[j]@);
    }
}

proof fn lemma_all_siblings(index: Seq<Seq<char>>, inputs: Seq<CoupledInput>, x: Seq<char>)
    ensures
        recommend::all_siblings(index, inputs).contains(x) <==> exists|n: int|
            0 <= n < inputs.len() && siblings::sibling_tests(index, (#[trigger] inputs[n]).path@).0.contains(x),
    decreases inputs.len(),
{
    if inputs.len() > 0 {
        let front = inputs.drop_last();
        lemma_all_siblings(index, front, x);
        let a = recommend::all_siblings(index, front);
        let b = siblings::sibling_tests(index, inputs.last().path@).0;
        let all = recommend::all_siblings(index, inputs);
        if all.contains(x) {
            let i = choose|i: int| 0 <= i < all.len() && all[i] == x;
            if i < a.len() {
                assert(a[i] == x);
                assert(a.contains(x));
                let n = choose|n: int|
                    0 <= n < front.len() && siblings::sibling_tests(index, (#[trigger] front[n]).path@).0.contains(x);
                assert(inputs[n] == front[n]);
            } else {
                assert(b[i - a.len()] == x);
                assert(inputs[inputs.len() - 1] == inputs.last());
            }
        }
        if exists|n: int|
            0 <= n < inputs.len() && siblings::sibling_tests(index, (#[trigger] inputs[n]).path@).0.contains(x) {
            let n = choose|n: int|
                0 <= n < inputs.len() && siblings::sibling_tests(index, (#[trigger] inputs[n]).path@).0.contains(x);
            if n < front.len() {
                assert(front[n] == inputs[n]);
                assert(a.contains(x));
                let i = choose|i: int| 0 <= i < a.len() && a[i] == x;
                assert(all[i] == x);
            } else {
                let i = choose|i: int| 0 <= i < b.len() && b[i] == x;
                assert(all[a.len() + i] == x);
            }
        }
    }
}

// ---------------------------------------------------------------------------
// Inputs
// ---------------------------------------------------------------------------

proof fn lemma_paths_where(inputs: Seq<KnownInput>, p: spec_fn(KnownInput) -> bool, x: Seq<char>)
    ensures
        recommend::paths_where(inputs, p).contains(x) <==> exists|k: int|
            0 <= k < inputs.len() && p(inputs[k]) && (#[trigger] inputs[k]).path@ == x,
{
    let kept = inputs.filter(p);
    let all = recommend::paths_where(inputs, p);
    if all.contains(x) {
        let i = choose|i: int| 0 <= i < all.len() && all[i] == x;
        assert(kept[i].path@ == x);
        inputs.lemma_filter_pred(p, i);
        assert(kept.contains(kept[i]));
        inputs.lemma_filter_contains_rev(p, kept[i]);
        let k = choose|k: int| 0 <= k < inputs.len() && inputs[k] == kept[i];
        assert(inputs[k].path@ == x);
    }
    if exists|k: int| 0 <= k < inputs.len() && p(inputs[k]) && (#[trigger] inputs[k]).path@ == x {
        let k = choose|k: int| 0 <= k < inputs.len() && p(inputs[k]) && (#[trigger] inputs[k]).path@ == x;
        inputs.lemma_filter_contains(p, k);
        let i = choose|i: int| 0 <= i < kept.len() && kept[i] == inputs[k];
        assert(all[i] == x);
    }
}

/// What becomes of an input: a parsed file is walked where it is indexed, and
/// named as not indexed where it is not; a test among the inputs is itself
/// recommended, unless it is a fixture; what no parser knows and is no `.phpt`
/// is named as unsupported. No input is passed over.
pub proof fn law_every_input_is_placed(t: InputTriage, inputs: Seq<KnownInput>, k: int)
    requires
        recommend::triages(t, inputs),
        0 <= k < inputs.len(),
    ensures
        ({
            let i = inputs[k];
            let phpt = crate::paths::extension(i.path@) == Some("phpt"@);
            &&& i.parsed && i.indexed ==> text::views(t.walkable@).contains(i.path@)
            &&& i.parsed && !i.indexed ==> text::views(t.unindexed@).contains(i.path@)
            &&& !i.parsed && !phpt ==> text::views(t.unsupported@).contains(i.path@)
            &&& (i.parsed || phpt) && i.is_test && !siblings::fixture(i.path@) ==> text::views(
                t.changed_tests@,
            ).contains(i.path@)
            &&& {
                ||| text::views(t.walkable@).contains(i.path@)
                ||| text::views(t.unindexed@).contains(i.path@)
                ||| text::views(t.unsupported@).contains(i.path@)
                ||| text::views(t.unparsed_changed_tests@).contains(i.path@)
            }
        }),
{
    let x = inputs[k].path@;
    lemma_paths_where(inputs, |k: KnownInput| recommend::is_walkable(k), x);
    lemma_paths_where(inputs, |k: KnownInput| recommend::is_unindexed(k), x);
    lemma_paths_where(inputs, |k: KnownInput| !recommend::supported(k), x);
    lemma_paths_where(inputs, |k: KnownInput| recommend::changed_test(k), x);
    lemma_paths_where(inputs, |k: KnownInput| recommend::changed_test(k) && !k.parsed, x);
}

/// Nothing is placed where it does not belong: a walked file is indexed, one
/// that is named as not indexed is not, one that is named as unsupported has no
/// parser, and a changed test is a test and no fixture.
pub proof fn law_no_input_is_misplaced(t: InputTriage, inputs: Seq<KnownInput>, x: Seq<char>)
    requires
        recommend::triages(t, inputs),
    ensures
        text::views(t.walkable@).contains(x) ==> exists|k: int|
            0 <= k < inputs.len() && (#[trigger] inputs[k]).path@ == x && inputs[k].indexed,
        text::views(t.unindexed@).contains(x) ==> exists|k: int|
            0 <= k < inputs.len() && (#[trigger] inputs[k]).path@ == x && !inputs[k].indexed,
        text::views(t.unsupported@).contains(x) ==> exists|k: int|
            0 <= k < inputs.len() && (#[trigger] inputs[k]).path@ == x && !inputs[k].parsed,
        text::views(t.changed_tests@).contains(x) ==> !siblings::fixture(x) && exists|k: int|
            0 <= k < inputs.len() && (#[trigger] inputs[k]).path@ == x && inputs[k].is_test,
        text::views(t.unparsed_changed_tests@).contains(x) ==> exists|k: int|
            0 <= k < inputs.len() && (#[trigger] inputs[k]).path@ == x && inputs[k].is_test && !inputs[k].parsed,
{
    lemma_paths_where(inputs, |k: KnownInput| recommend::is_walkable(k), x);
    lemma_paths_where(inputs, |k: KnownInput| recommend::is_unindexed(k), x);
    lemma_paths_where(inputs, |k: KnownInput| !recommend::supported(k), x);
    lemma_paths_where(inputs, |k: KnownInput| recommend::changed_test(k), x);
    lemma_paths_where(inputs, |k: KnownInput| recommend::changed_test(k) && !k.parsed, x);
}

} // verus!
