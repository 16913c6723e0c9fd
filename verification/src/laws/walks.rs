//! What a walk asks for, spends and skips.
use vstd::prelude::*;
use crate::impact;
use crate::impact::Priced;
use crate::laws::sorting;
use crate::model::Reference;
use crate::order;
use crate::symbols;
use crate::text;
use crate::walk_run;
use crate::walk_run::{Ask, Stage, WalkRun};

verus! {

broadcast use text::group_views;

/// Once the deadline has passed, a bounded walk asks for no more references,
/// imports or definitions, and a level that it leaves early counts as spent or
/// the walk as capped.
pub proof fn law_no_work_is_asked_for_after_the_deadline(a: WalkRun, b: WalkRun, ask: Ask)
    requires
        a.wf(),
        a.budget is Some,
        walk_run::stepped(a, b, true, ask),
    ensures
        !(ask is Rows),
        !(ask is Imports),
        !(ask is Definitions),
        a.stage is Closing && a.walk.pending@.len() > 0 ==> b.walk.capped,
        a.stage is Matching && a.stage->Matching_1 < a.rows_to_match() ==> b.spent,
{
}

/// Steps that were spent do not come back, and a budget that ran out, by steps
/// or by the clock, stays so. Without a budget there is none later.
pub proof fn law_steps_do_not_come_back(a: WalkRun, b: WalkRun, passed: bool, ask: Ask)
    requires
        walk_run::stepped(a, b, passed, ask),
    ensures
        b.budget is Some <==> a.budget is Some,
        a.budget is Some ==> b.budget->0.remaining <= a.budget->0.remaining,
        a.budget is Some && a.budget->0.exhausted ==> b.budget->0.exhausted,
        a.budget is Some && a.budget->0.deadline_hit ==> b.budget->0.deadline_hit,
{
    if let Some(w) = a.budget {
        impact::law_admission_is_cheapest_first(text::views(a.priced@), w.remaining);
    }
}

/// References are fetched for the symbols that were admitted, and for those
/// alone, while time is left.
pub proof fn law_admitted_symbols_are_fetched(a: WalkRun, b: WalkRun, i: usize, passed: bool, ask: Ask)
    requires
        walk_run::stepped(a, b, passed, ask),
    ensures
        ask == Ask::Rows(i) ==> a.stage == Stage::Fetching(i) && i < a.walk.frontier@.len()
            && a.admitted@[i as int],
        a.stage == Stage::Fetching(i) && i < a.walk.frontier@.len() && a.admitted@[i as int] && (a.budget is None
            || (!passed && !a.budget->0.deadline_hit)) ==> ask == Ask::Rows(i),
{
}

/// A symbol is priced only where the walk did not visit it before, and has
/// visited it then.
pub proof fn law_a_symbol_is_visited_once(a: WalkRun, b: WalkRun, i: usize, passed: bool, ask: Ask)
    requires
        walk_run::stepped(a, b, passed, ask),
        ask == Ask::Price(i),
    ensures
        a.budget is Some,
        !symbols::keys(a.walk.visited_symbols@).contains(a.walk.frontier@[i as int].key()),
        b.walk.visited_symbols@ == a.walk.visited_symbols@.push(a.walk.frontier@[i as int]),
{
}

/// Who imports a file is looked up only where the walk did not visit it before;
/// the lookup is paid with as many steps as there are import rows. A new file
/// that cannot be paid for ends the level as spent.
pub proof fn law_a_file_is_looked_up_once_and_paid_for(a: WalkRun, b: WalkRun, i: usize, passed: bool, ask: Ask)
    requires
        walk_run::stepped(a, b, passed, ask),
        a.stage == Stage::Files(i),
        i < a.walk.file_frontier@.len(),
    ensures
        b.stage is Recalling || b.stage is Closing || b.stage == Stage::Files((i + 1) as usize),
        text::views(a.walk.visited_files@).contains(a.walk.file_frontier@[i as int]@) <==> !(b.stage is Recalling
            || b.stage is Closing),
        text::views(b.walk.visited_files@).contains(a.walk.file_frontier@[i as int]@),
        b.stage is Recalling && a.budget is Some ==> b.budget->0.remaining + a.import_rows == a.budget->0.remaining
            && !a.budget->0.exhausted && !passed,
        b.stage is Closing ==> b.spent && b.budget is Some && b.budget->0.exhausted,
        a.budget is None ==> !(b.stage is Closing),
        a.budget matches Some(w) ==> (b.stage is Closing ==> w.exhausted || w.deadline_hit || passed || a.import_rows
            > w.remaining),
{
    let seen = text::views(a.walk.visited_files@);
    let f = a.walk.file_frontier@[i as int]@;
    assert(seen.push(f)[seen.len() as int] == f);
}

/// A walk that is over stays as it is, and one that ends without being capped
/// had nothing left to look at and skipped nothing.
pub proof fn law_a_walk_ends_complete_or_capped(a: WalkRun, b: WalkRun, passed: bool, ask: Ask)
    requires
        walk_run::stepped(a, b, passed, ask),
    ensures
        a.stage is Over ==> b == a && ask == Ask::Over,
        a.stage is Closing && b.stage is Over && !b.walk.capped ==> a.walk.pending@.len() == 0 && !a.spent,
        b.stage is Over <==> ask == Ask::Over,
        ask == Ask::Over ==> a.stage is Over || a.stage is Closing,
        a.walk.capped ==> b.walk.capped,
{
}

/// Only matches that were all found are remembered: those of a level that
/// skipped something are not, nor are those that were remembered before.
pub proof fn law_only_complete_matches_are_remembered(a: WalkRun, b: WalkRun, i: usize, passed: bool, ask: Ask)
    requires
        walk_run::stepped(a, b, passed, ask),
        ask == Ask::Matched(i),
    ensures
        a.known is None,
        !a.spent,
        a.stage is Matching && a.stage->Matching_0 == i && a.stage->Matching_1 >= a.import_rows,
{
}

/// Import rows are matched from the first to the last without a gap.
pub proof fn law_import_rows_are_matched_without_a_gap(a: WalkRun, b: WalkRun, i: usize, from: usize, to: usize, passed: bool)
    requires
        a.wf(),
        walk_run::stepped(a, b, passed, Ask::Imports(i, from, to)),
    ensures
        a.stage == Stage::Matching(i, from),
        from < to <= a.rows_to_match(),
        b == a,
{
}

/// What is taken of the asked import rows moves the walk on to the row after the
/// last one asked for.
pub proof fn law_the_next_import_rows_follow(
    a: WalkRun,
    b: WalkRun,
    i: usize,
    from: usize,
    to: usize,
    passed: bool,
    rows: Seq<Reference>,
)
    requires
        a.wf(),
        walk_run::stepped(a, a, passed, Ask::Imports(i, from, to)),
        walk_run::imports_taken(a, b, rows),
    ensures
        b.stage == Stage::Matching(i, to),
{
}

proof fn lemma_what_costs_nothing_is_affordable(p: Seq<(usize, usize)>, steps: int)
    requires
        steps >= 0,
        forall|k: int| 0 <= k < p.len() ==> (#[trigger] p[k]).0 == 0,
    ensures
        impact::affordable(p, steps) == p.len(),
    decreases p.len(),
{
    if p.len() > 0 {
        assert forall|k: int| 0 <= k < p.skip(1).len() implies (#[trigger] p.skip(1)[k]).0 == 0 by {
            assert(p.skip(1)[k] == p[k + 1]);
        }
        lemma_what_costs_nothing_is_affordable(p.skip(1), steps);
    }
}

/// Where nothing has a price, everything is admitted.
pub proof fn law_what_costs_nothing_is_admitted(priced: Seq<(usize, usize)>, steps: usize, k: int)
    requires
        forall|k: int| 0 <= k < priced.len() ==> (#[trigger] priced[k]).0 == 0,
        0 <= k < priced.len(),
    ensures
        walk_run::admission(priced, steps).len() == priced.len(),
        impact::lists_index(walk_run::admission(priced, steps), priced[k].1 as int),
{
    let ranked = order::sorted::<Priced>(priced);
    sorting::law_sorting_keeps_what_is_listed::<Priced>(priced);
    assert forall|k: int| 0 <= k < ranked.len() implies (#[trigger] ranked[k]).0 == 0 by {
        assert(ranked.contains(ranked[k]));
        assert(priced.contains(ranked[k]));
    }
    lemma_what_costs_nothing_is_affordable(ranked, steps as int);
    assert(ranked.take(ranked.len() as int) =~= ranked);
    assert(priced.contains(priced[k]));
    assert(ranked.contains(priced[k]));
    let j = choose|j: int| 0 <= j < ranked.len() && ranked[j] == priced[k];
    assert(walk_run::admission(priced, steps)[j].1 == priced[k].1);
}

/// Of two symbols with prices, the dearer one is never admitted in place of the
/// cheaper, and what is admitted fits in the steps together.
pub proof fn law_the_cheaper_symbol_is_admitted_first(priced: Seq<(usize, usize)>, steps: usize, x: (usize, usize), y: (usize, usize))
    requires
        priced.contains(x),
        x.0 < y.0,
        walk_run::admission(priced, steps).contains(y),
    ensures
        walk_run::admission(priced, steps).contains(x),
        impact::total_cost(walk_run::admission(priced, steps)) <= steps,
{
    let ranked = order::sorted::<Priced>(priced);
    let taken = walk_run::admission(priced, steps);
    impact::law_admission_is_cheapest_first(priced, steps);
    sorting::law_sorting_keeps_what_is_listed::<Priced>(priced);
    assert(ranked.contains(x));
    let i = choose|i: int| 0 <= i < ranked.len() && ranked[i] == x;
    let j = choose|j: int| 0 <= j < taken.len() && taken[j] == y;
    assert(ranked[j] == y);
    if i >= taken.len() {
        assert(ranked[j].0 <= ranked[i].0);
    }
    assert(taken[i] == x);
}

/// A name costs nothing to look up only where no file refers to it; otherwise at
/// least as much as there are such files, and more definitions cost no less.
pub proof fn law_more_callers_and_definitions_cost_more(files: usize, definitions: usize, more: usize)
    requires
        definitions <= more,
    ensures
        impact::priced_at(files, definitions) == 0 <==> files == 0,
        impact::priced_at(files, definitions) >= files,
        impact::priced_at(files, definitions) <= impact::priced_at(files, more) <= usize::MAX,
        impact::priced_at(files, 0) == files,
        impact::priced_at(files, 1) == files,
        impact::priced_at(1, more) == if more == 0 { 1 } else { more as int },
{
    assert(files * 1 == files);
    assert(definitions > 0 ==> files * definitions >= files) by (nonlinear_arith);
    assert(more >= definitions ==> files * definitions <= files * more) by (nonlinear_arith);
    assert(files == 0 ==> files * definitions == 0) by (nonlinear_arith);
    assert(more > 0 ==> files * more >= files) by (nonlinear_arith);
    assert(1 * more == more);
}

} // verus!
