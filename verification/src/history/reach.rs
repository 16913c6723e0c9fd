//! Tests that reach the changed files through calls and imports, and how sure
//! the answer can be.
use vstd::prelude::*;
use vstd::string::*;
use crate::history::recommend;
use crate::history::recommend::{ReachableTestEntry, ReachableView};
use crate::history::siblings;
use crate::history::siblings::is_fixture;
use crate::impact;
use crate::impact::{EntryView, WalkBudget, WalkOutcome};
use crate::model::FileCategory;
use crate::order;
use crate::order::among;
use crate::text;
use crate::text::{parse_up_to, same, trim};

verus! {

/// Bound on each level of a reachability walk. The step budget and the
/// deadline bound the work, so the fan-out may be wide.
pub const REACH_FRONTIER: usize = 8_192;

pub const REACH_BUDGET_DEFAULT: usize = 1_500_000;

pub const REACH_DEADLINE_MS_DEFAULT: u64 = 5_000;

pub const REACH_MIN_INPUT_BUDGET_DEFAULT: usize = 100_000;

/// How far and how long the tests that reach the inputs are looked for.
#[derive(Debug)]
pub struct ReachabilityOptions {
    /// Reverse-dependency depth.
    pub depth: u32,
    /// Largest list of reaching tests that is returned.
    pub list_cap: usize,
    /// Resolution steps that the whole request may spend.
    pub work_budget: usize,
    /// Steps held back for each input that is still queued.
    pub min_input_budget: usize,
    /// Wall-clock limit of the whole request, in milliseconds.
    pub deadline_ms: u64,
    /// Project root, where it is known.
    pub project_root: Option<String>,
}

impl Default for ReachabilityOptions {
    fn default() -> (out: Self)
        ensures
            out.depth == 2,
            out.list_cap == 50,
            out.work_budget == REACH_BUDGET_DEFAULT,
            out.min_input_budget == REACH_MIN_INPUT_BUDGET_DEFAULT,
            out.deadline_ms == REACH_DEADLINE_MS_DEFAULT,
            out.project_root is None,
    {
        ReachabilityOptions {
            depth: 2,
            list_cap: 50,
            work_budget: REACH_BUDGET_DEFAULT,
            min_input_budget: REACH_MIN_INPUT_BUDGET_DEFAULT,
            deadline_ms: REACH_DEADLINE_MS_DEFAULT,
            project_root: None,
        }
    }
}

/// A setting read from the environment: a number, or nothing.
pub open spec fn setting(value: Option<Seq<char>>) -> Option<nat> {
    match value {
        Some(s) => text::parsed(text::trimmed(s), usize::MAX as nat),
        None => None,
    }
}

fn setting_of(value: Option<&str>) -> (out: Option<usize>)
    ensures
        match out {
            Some(n) => setting(
                match value {
                    Some(s) => Some(s@),
                    None => None,
                },
            ) == Some(n as nat),
            None => setting(
                match value {
                    Some(s) => Some(s@),
                    None => None,
                },
            ) is None,
        },
{
    match value {
        Some(s) => match parse_up_to(trim(s), usize::MAX as u64) {
            Some(n) => Some(n as usize),
            None => None,
        },
        None => None,
    }
}

impl ReachabilityOptions {
    /// The defaults with the two settings that the environment may override.
    /// A value that is no number is ignored.
    pub fn with_overrides(budget: Option<&str>, deadline_ms: Option<&str>) -> (out: Self)
        ensures
            out.depth == 2,
            out.list_cap == 50,
            out.min_input_budget == REACH_MIN_INPUT_BUDGET_DEFAULT,
            out.project_root is None,
            out.work_budget == (match setting(
                match budget {
                    Some(s) => Some(s@),
                    None => None,
                },
            ) {
                Some(n) => n,
                None => REACH_BUDGET_DEFAULT as nat,
            }),
            out.deadline_ms == (match setting(
                match deadline_ms {
                    Some(s) => Some(s@),
                    None => None,
                },
            ) {
                Some(n) => n,
                None => REACH_DEADLINE_MS_DEFAULT as nat,
            }),
    {
        let mut out = ReachabilityOptions::default();
        if let Some(n) = setting_of(budget) {
            out.work_budget = n;
        }
        if let Some(n) = setting_of(deadline_ms) {
            out.deadline_ms = n as u64;
        }
        out
    }
}

// ---------------------------------------------------------------------------
// The pool of steps
// ---------------------------------------------------------------------------

/// What an input may spend: everything in the pool but a floor for each input
/// queued behind it, and never less than the floor while the pool can pay it.
pub open spec fn share(pool: int, floor: int, queued: int) -> int {
    let rest = if pool > floor * queued {
        pool - floor * queued
    } else {
        0
    };
    let least = if floor < pool {
        floor
    } else {
        pool
    };
    if rest > least {
        rest
    } else {
        least
    }
}

pub fn input_share(pool: usize, floor: usize, queued: usize) -> (r: usize)
    ensures
        r == share(pool as int, floor as int, queued as int),
        r <= pool,
{
    let rest: usize = match floor.checked_mul(queued) {
        Some(reserved) => if pool > reserved {
            pool - reserved
        } else {
            0
        },
        None => 0,
    };
    let least: usize = if floor < pool {
        floor
    } else {
        pool
    };
    proof {
        assert(floor * queued >= 0) by (nonlinear_arith)
            requires
                floor >= 0,
                queued >= 0,
        ;
    }
    if rest > least {
        rest
    } else {
        least
    }
}

/// What is left of `a` when `b` is taken away; never less than nothing.
pub open spec fn left(a: int, b: int) -> int {
    if a > b {
        a - b
    } else {
        0
    }
}

/// What is left of the pool when an input was given `share` and left
/// `remaining` of it.
pub fn settle(pool: usize, share: usize, remaining: usize) -> (r: usize)
    ensures
        r == left(pool as int, left(share as int, remaining as int)),
{
    pool.saturating_sub(share.saturating_sub(remaining))
}

/// The pool after each input in turn was given its share and spent `spent[i]`
/// of it, with `n` inputs in all.
pub open spec fn pool_after(budget: int, floor: int, n: int, spent: Seq<int>) -> int
    decreases spent.len(),
{
    if spent.len() == 0 {
        budget
    } else {
        pool_after(budget, floor, n, spent.drop_last()) - spent.last()
    }
}

pub open spec fn total(spent: Seq<int>) -> int
    decreases spent.len(),
{
    if spent.len() == 0 {
        0
    } else {
        total(spent.drop_last()) + spent.last()
    }
}

/// Every input spent no more than its share.
pub open spec fn within_shares(budget: int, floor: int, n: int, spent: Seq<int>) -> bool {
    forall|i: int|
        0 <= i < spent.len() ==> 0 <= #[trigger] spent[i] <= share(
            pool_after(budget, floor, n, spent.take(i)),
            floor,
            n - i - 1,
        )
}

/// The inputs together never spend more than the budget of the request, and
/// the pool holds exactly what they left.
pub proof fn law_pool_is_never_overspent(budget: int, floor: int, n: int, spent: Seq<int>)
    requires
        0 <= budget,
        0 <= floor,
        spent.len() <= n,
        within_shares(budget, floor, n, spent),
    ensures
        0 <= total(spent) <= budget,
        pool_after(budget, floor, n, spent) == budget - total(spent),
    decreases spent.len(),
{
    if spent.len() > 0 {
        let front = spent.drop_last();
        let last = spent.len() - 1;
        assert forall|i: int| 0 <= i < front.len() implies 0 <= #[trigger] front[i] <= share(
            pool_after(budget, floor, n, front.take(i)),
            floor,
            n - i - 1,
        ) by {
            assert(spent[i] == front[i]);
            assert(spent.take(i) =~= front.take(i));
        }
        law_pool_is_never_overspent(budget, floor, n, front);
        assert(spent.take(last) =~= front);
        assert(spent[last] <= share(pool_after(budget, floor, n, front), floor, n - last - 1));
        law_share_is_bounded(pool_after(budget, floor, n, front), floor, n - last - 1);
    }
}

/// A share never exceeds the pool, holds back no more than a floor for each
/// queued input, and is at least the floor while the pool can pay it.
pub proof fn law_share_is_bounded(pool: int, floor: int, queued: int)
    requires
        0 <= pool,
        0 <= floor,
        0 <= queued,
    ensures
        0 <= share(pool, floor, queued) <= pool,
        share(pool, floor, queued) >= pool - floor * queued,
        floor <= pool ==> share(pool, floor, queued) >= floor,
{
    assert(floor * queued >= 0) by (nonlinear_arith)
        requires
            floor >= 0,
            queued >= 0,
    ;
}

// ---------------------------------------------------------------------------
// What the walks reached
// ---------------------------------------------------------------------------

#[derive(Debug)]
pub struct ReachOutcome {
    pub reached: Vec<ReachableTestEntry>,
    /// Inputs that received no walk.
    pub unwalked: Vec<String>,
    /// Inputs whose walk was cut short.
    pub partial: Vec<String>,
    /// Indexed inputs that define no symbols.
    pub no_symbol: Vec<String>,
}

impl ReachOutcome {
    pub fn empty() -> (out: Self)
        ensures
            out.reached@.len() == 0,
            out.unwalked@.len() == 0,
            out.partial@.len() == 0,
            out.no_symbol@.len() == 0,
    {
        ReachOutcome {
            reached: Vec::new(),
            unwalked: Vec::new(),
            partial: Vec::new(),
            no_symbol: Vec::new(),
        }
    }

    /// Notes that an input received no walk.
    pub fn skip(&mut self, path: &str)
        ensures
            text::views(final(self).unwalked@) == text::views(old(self).unwalked@).push(path@),
            final(self).reached == old(self).reached,
            final(self).partial == old(self).partial,
            final(self).no_symbol == old(self).no_symbol,
    {
        broadcast use text::group_views;
        self.unwalked.push(path.to_owned());
    }
}

/// The position of the test `path` among those reached.
pub open spec fn reached_at(reached: Seq<ReachableView>, path: Seq<char>) -> Option<int>
    decreases reached.len(),
{
    if reached.len() == 0 {
        None
    } else if reached.last().path == path {
        Some(reached.len() - 1)
    } else {
        reached_at(reached.drop_last(), path)
    }
}

/// `reached` with a further way to reach a test: the shorter distance stays,
/// and at equal distance the earlier input.
pub open spec fn with_reach(reached: Seq<ReachableView>, e: ReachableView) -> Seq<ReachableView> {
    match reached_at(reached, e.path) {
        Some(i) => if reached[i].distance <= e.distance {
            reached
        } else {
            reached.update(i, e)
        },
        None => reached.push(e),
    }
}

/// The edge count of a path in a walk.
pub open spec fn count_of(counts: Seq<(Seq<char>, u32)>, path: Seq<char>) -> Option<u32>
    decreases counts.len(),
{
    if counts.len() == 0 {
        None
    } else if counts.last().0 == path {
        Some(counts.last().1)
    } else {
        count_of(counts.drop_last(), path)
    }
}

/// An entry is a test to run: a test file, no fixture, and no input itself.
pub open spec fn is_reaching_test(e: EntryView, inputs: Seq<Seq<char>>) -> bool {
    e.category == FileCategory::Test && !siblings::fixture(e.path) && !inputs.contains(e.path)
}

/// `reached` after the entries of one input's walk.
pub open spec fn absorbed(
    reached: Seq<ReachableView>,
    entries: Seq<EntryView>,
    counts: Seq<(Seq<char>, u32)>,
    input: Seq<char>,
    inputs: Seq<Seq<char>>,
) -> Seq<ReachableView>
    decreases entries.len(),
{
    if entries.len() == 0 {
        reached
    } else {
        let front = absorbed(reached, entries.drop_last(), counts, input, inputs);
        let e = entries.last();
        if is_reaching_test(e, inputs) {
            with_reach(
                front,
                ReachableView {
                    path: e.path,
                    distance: e.distance,
                    edge_count: count_of(counts, e.path)->0,
                    input: input,
                },
            )
        } else {
            front
        }
    }
}

proof fn lemma_reached_at(reached: Seq<ReachableView>, path: Seq<char>)
    ensures
        reached_at(reached, path) is Some ==> 0 <= reached_at(reached, path)->0 < reached.len(),
    decreases reached.len(),
{
    if reached.len() > 0 {
        lemma_reached_at(reached.drop_last(), path);
    }
}

/// Every reached path is a test to run: no input, and no fixture.
pub open spec fn runnable(reached: Seq<ReachableView>, inputs: Seq<Seq<char>>) -> bool {
    forall|i: int|
        0 <= i < reached.len() ==> !inputs.contains((#[trigger] reached[i]).path)
            && !siblings::fixture(reached[i].path)
}

/// An input never lists itself or another input as a test that reaches it, and
/// what stands under a fixture directory is never something to run.
pub proof fn law_no_input_and_no_fixture_is_reached(
    reached: Seq<ReachableView>,
    entries: Seq<EntryView>,
    counts: Seq<(Seq<char>, u32)>,
    input: Seq<char>,
    inputs: Seq<Seq<char>>,
)
    requires
        runnable(reached, inputs),
    ensures
        runnable(absorbed(reached, entries, counts, input, inputs), inputs),
    decreases entries.len(),
{
    if entries.len() > 0 {
        law_no_input_and_no_fixture_is_reached(reached, entries.drop_last(), counts, input, inputs);
        let front = absorbed(reached, entries.drop_last(), counts, input, inputs);
        let out = absorbed(reached, entries, counts, input, inputs);
        lemma_reached_at(front, entries.last().path);
        assert forall|i: int| 0 <= i < out.len() implies !inputs.contains((#[trigger] out[i]).path)
            && !siblings::fixture(out[i].path) by {
            if i < front.len() {
                assert(!inputs.contains(front[i].path));
            }
        }
    }
}

/// Every entry of a walk has an edge count.
pub open spec fn counted(entries: Seq<EntryView>, counts: Seq<(Seq<char>, u32)>) -> bool {
    forall|i: int| 0 <= i < entries.len() ==> count_of(counts, (#[trigger] entries[i]).path) is Some
}

proof fn lemma_count_present(found: Seq<impact::ReachedView>, i: int)
    requires
        0 <= i < found.len(),
    ensures
        count_of(impact::edge_counts(found), found[i].path) is Some,
    decreases found.len(),
{
    let counts = impact::edge_counts(found);
    assert(counts.last().0 == found.last().path);
    if found.last().path != found[i].path {
        let front = found.drop_last();
        assert(front[i] == found[i]);
        lemma_count_present(front, i);
        assert(impact::edge_counts(front) =~= counts.drop_last());
    }
}

proof fn lemma_entry_reached(
    found: Seq<impact::ReachedView>,
    categories: Seq<FileCategory>,
    source_only: bool,
    k: int,
)
    requires
        0 <= k < impact::entries(found, categories, source_only).len(),
    ensures
        exists|i: int|
            0 <= i < found.len() && (#[trigger] found[i]).path == impact::entries(
                found,
                categories,
                source_only,
            )[k].path,
    decreases found.len(),
{
    if found.len() > 0 {
        let front = impact::entries(found.drop_last(), categories, source_only);
        if k < front.len() {
            lemma_entry_reached(found.drop_last(), categories, source_only, k);
            let i = choose|i: int|
                0 <= i < found.drop_last().len() && (#[trigger] found.drop_last()[i]).path
                    == front[k].path;
            assert(found[i].path == front[k].path);
        } else {
            assert(found[found.len() - 1].path == impact::entries(
                found,
                categories,
                source_only,
            )[k].path);
        }
    }
}

/// A finished walk has an edge count for every entry it returns.
pub proof fn law_every_entry_has_an_edge_count(
    found: Seq<impact::ReachedView>,
    categories: Seq<FileCategory>,
    source_only: bool,
)
    ensures
        counted(
            order::sorted::<impact::ImpactEntry>(impact::entries(found, categories, source_only)),
            impact::edge_counts(found),
        ),
{
    broadcast use vstd::seq_lib::group_to_multiset_ensures;

    let list = impact::entries(found, categories, source_only);
    let ranked = order::sorted::<impact::ImpactEntry>(list);
    order::lemma_sorted::<impact::ImpactEntry>(list);
    assert forall|i: int| 0 <= i < ranked.len() implies count_of(
        impact::edge_counts(found),
        (#[trigger] ranked[i]).path,
    ) is Some by {
        assert(ranked.to_multiset().contains(ranked[i]));
        assert(list.to_multiset().contains(ranked[i]));
        assert(list.contains(ranked[i]));
        let k = choose|k: int| 0 <= k < list.len() && list[k] == ranked[i];
        lemma_entry_reached(found, categories, source_only, k);
        let j = choose|j: int| 0 <= j < found.len() && (#[trigger] found[j]).path == list[k].path;
        lemma_count_present(found, j);
    }
}

fn reached_position(reached: &Vec<ReachableTestEntry>, path: &str) -> (r: Option<usize>)
    ensures
        match r {
            Some(i) => reached_at(text::views(reached@), path@) == Some(i as int) && i
                < reached.len(),
            None => reached_at(text::views(reached@), path@) is None,
        },
{
    broadcast use text::group_views;
    let ghost all = text::views(reached@);
    let mut i: usize = reached.len();
    assert(all.take(i as int) =~= all);
    while i > 0
        invariant
            i <= reached.len(),
            all == text::views(reached@),
            reached_at(all, path@) == reached_at(all.take(i as int), path@),
        decreases i,
    {
        broadcast use text::group_views;
        assert(all.take(i as int).drop_last() =~= all.take(i - 1));
        assert(all.take(i as int).last() == reached@[i - 1]@);
        if same(reached[i - 1].path.as_str(), path) {
            return Some(i - 1);
        }
        i -= 1;
    }
    None
}

fn edge_count_of(outcome: &WalkOutcome, path: &str) -> (r: Option<u32>)
    ensures
        r == count_of(text::views(outcome.edge_counts@), path@),
{
    broadcast use text::group_views;
    let ghost all = text::views(outcome.edge_counts@);
    let mut i: usize = outcome.edge_counts.len();
    assert(all.take(i as int) =~= all);
    while i > 0
        invariant
            i <= outcome.edge_counts.len(),
            all == text::views(outcome.edge_counts@),
            count_of(all, path@) == count_of(all.take(i as int), path@),
        decreases i,
    {
        broadcast use text::group_views;
        assert(all.take(i as int).drop_last() =~= all.take(i - 1));
        assert(all.take(i as int).last() == outcome.edge_counts@[i - 1]@);
        if same(outcome.edge_counts[i - 1].path.as_str(), path) {
            return Some(outcome.edge_counts[i - 1].count);
        }
        i -= 1;
    }
    None
}

impl ReachOutcome {
    /// Takes in the walk of one input: the tests it reached, and whether it
    /// was cut short or had nothing to start from.
    pub fn absorb(&mut self, path: &str, outcome: &WalkOutcome, inputs: &Vec<String>)
        requires
            counted(text::views(outcome.entries@), text::views(outcome.edge_counts@)),
        ensures
            text::views(final(self).reached@) == absorbed(
                text::views(old(self).reached@),
                text::views(outcome.entries@),
                text::views(outcome.edge_counts@),
                path@,
                text::views(inputs@),
            ),
            text::views(final(self).partial@) == if outcome.capped {
                text::views(old(self).partial@).push(path@)
            } else {
                text::views(old(self).partial@)
            },
            text::views(final(self).no_symbol@) == if !outcome.capped && outcome.seed_count == 0 {
                text::views(old(self).no_symbol@).push(path@)
            } else {
                text::views(old(self).no_symbol@)
            },
            final(self).unwalked == old(self).unwalked,
    {
        broadcast use text::group_views;
        if outcome.capped {
            self.partial.push(path.to_owned());
        } else if outcome.seed_count == 0 {
            self.no_symbol.push(path.to_owned());
        }
        let ghost all = text::views(outcome.entries@);
        let ghost counts = text::views(outcome.edge_counts@);
        let ghost was = text::views(self.reached@);
        let ghost partial = self.partial;
        let ghost no_symbol = self.no_symbol;
        let mut i: usize = 0;
        assert(all.take(0) =~= Seq::empty());
        while i < outcome.entries.len()
            invariant
                i <= outcome.entries.len(),
                all == text::views(outcome.entries@),
                counts == text::views(outcome.edge_counts@),
                counted(all, counts),
                text::views(self.reached@) == absorbed(
                    was,
                    all.take(i as int),
                    counts,
                    path@,
                    text::views(inputs@),
                ),
                self.partial == partial,
                self.no_symbol == no_symbol,
                self.unwalked == old(self).unwalked,
            decreases outcome.entries.len() - i,
        {
            broadcast use text::group_views;
            let e = &outcome.entries[i];
            proof {
                assert(all.take(i + 1).drop_last() =~= all.take(i as int));
                assert(all[i as int] == e@);
                assert(all.take(i + 1).last() == e@);
                assert(count_of(counts, all[i as int].path) is Some);
            }
            if e.category == FileCategory::Test && !is_fixture(e.file_path.as_str()) && !among(
                inputs,
                e.file_path.as_str(),
            ) {
                let edge_count: u32 = match edge_count_of(outcome, e.file_path.as_str()) {
                    Some(n) => n,
                    None => 0,
                };
                let candidate = ReachableTestEntry {
                    path: e.file_path.clone(),
                    distance: e.distance,
                    edge_count,
                    input: path.to_owned(),
                };
                let ghost seen = text::views(self.reached@);
                match reached_position(&self.reached, e.file_path.as_str()) {
                    Some(k) => {
                        assert(seen[k as int] == self.reached@[k as int]@);
                        if self.reached[k].distance > candidate.distance {
                            let ghost v = candidate@;
                            self.reached.set(k, candidate);
                            assert(text::views(self.reached@) =~= seen.update(k as int, v));
                        }
                    },
                    None => {
                        self.reached.push(candidate);
                    },
                }
            }
            i += 1;
        }
        assert(all.take(all.len() as int) =~= all);
    }
}

// ---------------------------------------------------------------------------
// The course over the inputs
// ---------------------------------------------------------------------------

/// What comes next over the inputs of a request.
#[derive(Debug, Clone, Copy, PartialEq, Eq, Structural)]
pub enum ReachStep {
    /// Every input had its turn.
    Finished,
    /// An input was passed over: no steps are left, or the deadline has passed.
    Skipped,
    /// The input at a position is to be walked, with the run's budget.
    Walk(usize),
}

/// The walks of a request, which draw from one pool of steps.
#[derive(Debug)]
pub struct ReachRun {
    /// The inputs to walk, in turn.
    pub walkable: Vec<String>,
    /// Every input of the request; none is a test that reaches another.
    pub inputs: Vec<String>,
    /// The steps that are held back for each input still queued.
    pub floor: usize,
    pub pool: usize,
    pub at: usize,
    /// What the present input may spend.
    pub share: usize,
    pub budget: WalkBudget,
    pub outcome: ReachOutcome,
}

impl ReachRun {
    /// Begins with a full pool.
    pub fn begin(walkable: Vec<String>, inputs: Vec<String>, opts: &ReachabilityOptions) -> (out: ReachRun)
        ensures
            out.walkable == walkable,
            out.inputs == inputs,
            out.floor == opts.min_input_budget,
            out.pool == opts.work_budget,
            out.at == 0,
            out.share == 0,
            out.budget == (WalkBudget { remaining: 0, exhausted: true, deadline_hit: false }),
            out.outcome.reached@.len() == 0 && out.outcome.unwalked@.len() == 0
                && out.outcome.partial@.len() == 0 && out.outcome.no_symbol@.len() == 0,
    {
        ReachRun {
            walkable,
            inputs,
            floor: opts.min_input_budget,
            pool: opts.work_budget,
            at: 0,
            share: 0,
            budget: WalkBudget::new(0),
            outcome: ReachOutcome::empty(),
        }
    }

    /// What the present input may spend of the pool.
    pub open spec fn present_share(self) -> int {
        share(self.pool as int, self.floor as int, self.walkable@.len() - self.at - 1)
    }

    /// The present input cannot be walked.
    pub open spec fn passes_over(self, passed: bool) -> bool {
        self.present_share() == 0 || self.budget.deadline_hit || passed
    }

    /// Gives the next input its turn; `passed` says whether the deadline has
    /// passed.
    pub fn next(&mut self, passed: bool) -> (step: ReachStep)
        ensures
            old(self).at >= old(self).walkable@.len() ==> step == ReachStep::Finished
                && *final(self) == *old(self),
            old(self).at < old(self).walkable@.len() ==> {
                &&& final(self).walkable == old(self).walkable
                &&& final(self).inputs == old(self).inputs
                &&& final(self).floor == old(self).floor
                &&& final(self).pool == old(self).pool
                &&& final(self).share == old(self).present_share()
                &&& final(self).budget == (WalkBudget {
                    remaining: final(self).share,
                    exhausted: old(self).passes_over(passed),
                    deadline_hit: old(self).budget.deadline_hit || (old(self).present_share() > 0
                        && passed),
                })
                &&& if old(self).passes_over(passed) {
                    &&& step == ReachStep::Skipped
                    &&& final(self).at == old(self).at + 1
                    &&& text::views(final(self).outcome.unwalked@) == text::views(
                        old(self).outcome.unwalked@,
                    ).push(old(self).walkable@[old(self).at as int]@)
                    &&& final(self).outcome == (ReachOutcome {
                        unwalked: final(self).outcome.unwalked,
                        ..old(self).outcome
                    })
                } else {
                    &&& step == ReachStep::Walk(old(self).at)
                    &&& final(self).at == old(self).at
                    &&& final(self).outcome == old(self).outcome
                }
            },
    {
        if self.at >= self.walkable.len() {
            return ReachStep::Finished;
        }
        let queued: usize = self.walkable.len() - self.at - 1;
        self.share = input_share(self.pool, self.floor, queued);
        self.budget.reset(self.share);
        if self.budget.exhausted || self.budget.over_deadline(passed) {
            let path = self.walkable[self.at].clone();
            self.outcome.skip(path.as_str());
            self.at += 1;
            return ReachStep::Skipped;
        }
        ReachStep::Walk(self.at)
    }

    /// Takes the walk of the present input and what its budget came to: only
    /// what the input spent leaves the pool.
    pub fn take_walk(&mut self, walked: &WalkOutcome, budget: WalkBudget)
        requires
            old(self).at < old(self).walkable@.len(),
            counted(text::views(walked.entries@), text::views(walked.edge_counts@)),
        ensures
            ({
                let path = old(self).walkable@[old(self).at as int]@;
                &&& text::views(final(self).outcome.reached@) == absorbed(
                    text::views(old(self).outcome.reached@),
                    text::views(walked.entries@),
                    text::views(walked.edge_counts@),
                    path,
                    text::views(old(self).inputs@),
                )
                &&& text::views(final(self).outcome.partial@) == if walked.capped {
                    text::views(old(self).outcome.partial@).push(path)
                } else {
                    text::views(old(self).outcome.partial@)
                }
                &&& text::views(final(self).outcome.no_symbol@) == if !walked.capped
                    && walked.seed_count == 0 {
                    text::views(old(self).outcome.no_symbol@).push(path)
                } else {
                    text::views(old(self).outcome.no_symbol@)
                }
            }),
            final(self).outcome.unwalked == old(self).outcome.unwalked,
            final(self).pool == left(
                old(self).pool as int,
                left(old(self).share as int, budget.remaining as int),
            ),
            *final(self) == (ReachRun {
                outcome: final(self).outcome,
                pool: final(self).pool,
                at: (old(self).at + 1) as usize,
                budget: budget,
                ..*old(self)
            }),
    {
        let n: usize = self.walkable.len();
        assert(self.at < n);
        self.pool = settle(self.pool, self.share, budget.remaining);
        self.budget = budget;
        let path = self.walkable[self.at].clone();
        self.outcome.absorb(path.as_str(), walked, &self.inputs);
        self.at += 1;
    }
}

} // verus!
