//! The course of a walk over the reverse dependencies of a target.
//!
//! A run says which rows of the index it needs next and takes them; everything
//! between two reads is decided here. The clock is handed in with every step,
//! and looked at only where a run polls it.
use vstd::prelude::*;
use crate::impact;
use crate::impact::{
    admit_cheapest, nothing_walked, positions_naming, resolution_cost, FileSymbols, Priced, Walk, WalkBudget,
    WalkOutcome,
};
use crate::model::Reference;
use crate::order;
use crate::text;

verus! {

/// How many symbols are priced, or import rows matched, between two looks at
/// the clock.
pub const POLL_STRIDE: usize = 256;

/// What a run needs next.
#[derive(Debug, Clone, Copy, PartialEq, Eq, Structural)]
pub enum Ask {
    /// Nothing: another step follows at once.
    Nothing,
    /// How many files refer to the frontier symbol at a position by its name,
    /// and how many definitions share the name.
    Price(usize),
    /// The references that resolve to the frontier symbol at a position.
    Rows(usize),
    /// What a cache remembers of the import rows that name the frontier file
    /// at a position.
    Remembered(usize),
    /// The import rows from one position to another, for the frontier file at
    /// a position: of all rows, or of those that were remembered.
    Imports(usize, usize, usize),
    /// Nothing: the import rows that name the frontier file at a position are
    /// all found and may be remembered.
    Matched(usize),
    /// The definitions in the files of the pending references.
    Definitions,
    /// Nothing any more: the walk is over.
    Over,
}

/// Where a run stands within a level.
#[derive(Debug, Clone, Copy, PartialEq, Eq, Structural)]
pub enum Stage {
    /// The frontier symbol at a position is visited and priced.
    Pricing(usize),
    /// The references to the frontier symbol at a position are fetched, if it
    /// was admitted.
    Fetching(usize),
    /// The frontier file at a position is visited.
    Files(usize),
    /// The import rows that name the frontier file at a position may be
    /// remembered.
    Recalling(usize),
    /// The import rows from a position on are matched against the frontier
    /// file at a position.
    Matching(usize, usize),
    /// The level ends.
    Closing,
    /// The walk is over.
    Over,
}

/// A walk under way.
#[derive(Debug)]
pub struct WalkRun {
    pub walk: Walk,
    /// `None` where the walk is not bounded by work.
    pub budget: Option<WalkBudget>,
    /// The import rows of the index.
    pub import_rows: usize,
    pub stage: Stage,
    /// The frontier symbols of this level that were new, with their prices.
    pub priced: Vec<Priced>,
    /// For each frontier position, whether its references are fetched.
    pub admitted: Vec<bool>,
    /// The positions that were remembered of the import rows that name the
    /// file that is matched; `None` where all rows are to be matched.
    pub known: Option<Vec<usize>>,
    /// The positions found so far of the import rows that name the file that is
    /// matched.
    pub matches: Vec<usize>,
    /// The budget ran out on this level: something was skipped.
    pub spent: bool,
}

/// A budget whose deadline has passed, now or before.
pub open spec fn late(b: Option<WalkBudget>, passed: bool) -> bool {
    b is Some && (b->0.deadline_hit || passed)
}

/// A budget after a look at the clock.
pub open spec fn polled(b: Option<WalkBudget>, passed: bool) -> Option<WalkBudget> {
    match b {
        Some(w) => Some(
            WalkBudget {
                remaining: w.remaining,
                exhausted: w.exhausted || (passed && !w.deadline_hit),
                deadline_hit: w.deadline_hit || passed,
            },
        ),
        None => None,
    }
}

/// The steps that admission may spend.
pub open spec fn steps_left(b: Option<WalkBudget>) -> usize {
    match b {
        Some(w) => w.remaining,
        None => usize::MAX,
    }
}

pub open spec fn is_exhausted(b: Option<WalkBudget>) -> bool {
    b is Some && b->0.exhausted
}

/// A budget on which no walk begins: it is exhausted, or its deadline passed.
pub open spec fn is_spent(b: Option<WalkBudget>) -> bool {
    b is Some && (b->0.exhausted || b->0.deadline_hit)
}

/// Refuses a walk on a budget that is exhausted or whose deadline has passed:
/// the answer is then the empty outcome, capped. Nothing is looked up for it.
pub fn refuse_walk(budget: &mut WalkBudget, passed: bool) -> (out: Option<WalkOutcome>)
    ensures
        out is Some == (old(budget).exhausted || late(Some(*old(budget)), passed)),
        out matches Some(o) ==> o.capped && o.entries@.len() == 0 && o.edge_counts@.len() == 0
            && o.seed_count == 0,
        *final(budget) == (if old(budget).exhausted {
            *old(budget)
        } else {
            polled(Some(*old(budget)), passed)->0
        }),
        out is None ==> !is_spent(Some(*final(budget))),
{
    if budget.exhausted || budget.over_deadline(passed) {
        Some(nothing_walked(true))
    } else {
        None
    }
}

/// The priced symbols from the cheapest up, as many as the steps pay for.
pub open spec fn admission(priced: Seq<(usize, usize)>, steps: usize) -> Seq<(usize, usize)> {
    let ranked = order::sorted::<Priced>(priced);
    ranked.take(impact::affordable(ranked, steps as int) as int)
}

/// Where a stretch of import rows that begins at `from` ends.
pub open spec fn stretch_end(from: usize, rows: usize) -> int {
    if from + POLL_STRIDE <= rows {
        from + POLL_STRIDE
    } else {
        rows as int
    }
}

fn end_of_stretch(from: usize, rows: usize) -> (to: usize)
    requires
        from <= rows,
    ensures
        to == stretch_end(from, rows),
{
    if rows - from >= POLL_STRIDE {
        from + POLL_STRIDE
    } else {
        rows
    }
}

impl WalkRun {
    /// How many import rows are gone through for the file that is matched.
    pub open spec fn rows_to_match(self) -> usize {
        match self.known {
            Some(at) => at.len(),
            None => self.import_rows,
        }
    }

    /// The positions that a run holds exist, references are pending only while
    /// another level may follow, and a file is matched only before the
    /// deadline.
    pub open spec fn wf(self) -> bool {
        &&& self.walk.pending@.len() > 0 ==> self.walk.depth < self.walk.max_depth
        &&& forall|k: int|
            0 <= k < self.priced@.len() ==> (#[trigger] self.priced@[k]).index
                < self.walk.frontier@.len()
        &&& match self.stage {
            Stage::Pricing(i) => i <= self.walk.frontier@.len(),
            Stage::Fetching(i) => i <= self.walk.frontier@.len() && self.admitted@.len()
                == self.walk.frontier@.len(),
            Stage::Files(i) => i <= self.walk.file_frontier@.len(),
            Stage::Recalling(i) => i < self.walk.file_frontier@.len() && !late(self.budget, false),
            Stage::Matching(i, from) => {
                &&& i < self.walk.file_frontier@.len()
                &&& from <= self.rows_to_match()
                &&& !late(self.budget, false)
                &&& self.known matches Some(at) ==> forall|k: int|
                    0 <= k < at@.len() ==> #[trigger] at@[k] < self.import_rows
            },
            Stage::Closing => true,
            Stage::Over => true,
        }
    }

    /// Begins a walk. One that has nothing to look for, or no level to look
    /// in, is over. On a spent budget nothing is walked: the walk is over and
    /// capped, and has reached nothing.
    pub fn begin(walk: Walk, budget: Option<WalkBudget>, import_rows: usize) -> (out: WalkRun)
        requires
            walk.pending@.len() == 0,
        ensures
            out.wf(),
            begun(out, walk, budget, import_rows),
    {
        let refused = match &budget {
            Some(b) => b.exhausted || b.deadline_hit,
            None => false,
        };
        let mut walk = walk;
        if refused {
            walk.capped = true;
            walk.seed_count = 0;
            walk.reached = Vec::new();
        }
        let stage = if refused || walk.is_idle() || walk.depth > walk.max_depth {
            Stage::Over
        } else {
            Stage::Pricing(0)
        };
        WalkRun {
            walk,
            budget,
            import_rows,
            stage,
            priced: Vec::new(),
            admitted: Vec::new(),
            known: None,
            matches: Vec::new(),
            spent: false,
        }
    }

    fn poll(&mut self, passed: bool) -> (r: bool)
        ensures
            r == late(old(self).budget, passed),
            final(self).budget == polled(old(self).budget, passed),
            *final(self) == (WalkRun { budget: final(self).budget, ..*old(self) }),
    {
        let mut held: Option<WalkBudget> = None;
        std::mem::swap(&mut held, &mut self.budget);
        match held {
            Some(mut b) => {
                let r = b.over_deadline(passed);
                self.budget = Some(b);
                r
            },
            None => false,
        }
    }

    /// Ends the pricing of a level: the cheapest symbols are admitted.
    fn end_pricing(&mut self)
        requires
            old(self).wf(),
            old(self).stage is Pricing,
        ensures
            final(self).wf(),
            final(self).stage == Stage::Fetching(0),
            final(self).walk == old(self).walk,
            final(self).import_rows == old(self).import_rows,
            final(self).spent == old(self).spent,
            final(self).known == old(self).known,
            final(self).matches == old(self).matches,
            final(self).priced@.len() == 0,
            final(self).admitted@.len() == old(self).walk.frontier@.len(),
            ({
                let all = text::views(old(self).priced@);
                let taken = admission(all, steps_left(old(self).budget));
                &&& forall|k: int|
                    0 <= k < final(self).admitted@.len() ==> #[trigger] final(self).admitted@[k]
                        == impact::lists_index(taken, k)
                &&& final(self).budget == match old(self).budget {
                    Some(b) => Some(
                        WalkBudget {
                            remaining: (b.remaining - impact::total_cost(taken)) as usize,
                            exhausted: b.exhausted || taken.len() < all.len(),
                            deadline_hit: b.deadline_hit,
                        },
                    ),
                    None => None,
                }
            }),
    {
        proof {
            order::lemma_sorted::<Priced>(text::views(self.priced@));
        }
        let mut priced: Vec<Priced> = Vec::new();
        std::mem::swap(&mut priced, &mut self.priced);
        let count: usize = self.walk.frontier.len();
        let mut held: Option<WalkBudget> = None;
        std::mem::swap(&mut held, &mut self.budget);
        match held {
            Some(mut b) => {
                self.admitted = admit_cheapest(priced, count, &mut b);
                self.budget = Some(b);
            },
            None => {
                let mut free = WalkBudget::new(usize::MAX);
                self.admitted = admit_cheapest(priced, count, &mut free);
            },
        }
        self.stage = Stage::Fetching(0);
    }

    fn next_pricing(&mut self, i: usize, passed: bool) -> (ask: Ask)
        requires
            old(self).wf(),
            old(self).stage == Stage::Pricing(i),
        ensures
            final(self).wf(),
            priced_step(*old(self), *final(self), i, passed, ask),
    {
        broadcast use text::group_views;
        let n: usize = self.walk.frontier.len();
        if i >= n || (i % POLL_STRIDE == 0 && self.poll(passed)) {
            self.end_pricing();
            return Ask::Nothing;
        }
        if !self.walk.visit(i) {
            self.stage = Stage::Pricing(i + 1);
            return Ask::Nothing;
        }
        if self.budget.is_some() {
            return Ask::Price(i);
        }
        self.priced.push(Priced { cost: 0, index: i });
        self.stage = Stage::Pricing(i + 1);
        Ask::Nothing
    }

    fn next_fetching(&mut self, i: usize, passed: bool) -> (ask: Ask)
        requires
            old(self).wf(),
            old(self).stage == Stage::Fetching(i),
        ensures
            final(self).wf(),
            fetched_step(*old(self), *final(self), i, passed, ask),
    {
        if i < self.walk.frontier.len() && !self.admitted[i] {
            self.stage = Stage::Fetching(i + 1);
            return Ask::Nothing;
        }
        if i >= self.walk.frontier.len() || self.poll(passed) {
            self.spent = match &self.budget {
                Some(b) => b.exhausted,
                None => false,
            };
            self.stage = Stage::Files(0);
            return Ask::Nothing;
        }
        Ask::Rows(i)
    }

    fn next_file(&mut self, i: usize, passed: bool) -> (ask: Ask)
        requires
            old(self).wf(),
            old(self).stage == Stage::Files(i),
        ensures
            final(self).wf(),
            file_step(*old(self), *final(self), i, passed, ask),
    {
        if i >= self.walk.file_frontier.len() {
            self.stage = Stage::Closing;
            return Ask::Nothing;
        }
        if !self.walk.visit_file(i) {
            self.stage = Stage::Files(i + 1);
            return Ask::Nothing;
        }
        let mut held: Option<WalkBudget> = None;
        std::mem::swap(&mut held, &mut self.budget);
        if let Some(mut b) = held {
            let paid = b.admit_file(passed, self.import_rows);
            self.budget = Some(b);
            if !paid {
                self.spent = true;
                self.stage = Stage::Closing;
                return Ask::Nothing;
            }
        }
        self.stage = Stage::Recalling(i);
        Ask::Nothing
    }

    fn count_to_match(&self) -> (n: usize)
        ensures
            n == self.rows_to_match(),
    {
        match &self.known {
            Some(at) => at.len(),
            None => self.import_rows,
        }
    }

    fn next_matching(&mut self, i: usize, from: usize, passed: bool) -> (ask: Ask)
        requires
            old(self).wf(),
            old(self).stage == Stage::Matching(i, from),
        ensures
            final(self).wf(),
            matching_step(*old(self), *final(self), i, from, passed, ask),
    {
        let n: usize = self.walk.file_frontier.len();
        assert(i < n);
        let rows: usize = self.count_to_match();
        if from >= rows {
            self.stage = Stage::Files(i + 1);
            return if self.known.is_none() && !self.spent {
                Ask::Matched(i)
            } else {
                Ask::Nothing
            };
        }
        if self.poll(passed) {
            self.spent = true;
            self.stage = Stage::Files(i + 1);
            return Ask::Nothing;
        }
        Ask::Imports(i, from, end_of_stretch(from, rows))
    }

    fn next_closing(&mut self, passed: bool) -> (ask: Ask)
        requires
            old(self).wf(),
            old(self).stage is Closing,
        ensures
            final(self).wf(),
            closing_step(*old(self), *final(self), passed, ask),
    {
        if self.spent {
            self.walk.stop_short();
            self.stage = Stage::Over;
            return Ask::Over;
        }
        if self.walk.pending.len() == 0 {
            self.stage = Stage::Over;
            return Ask::Over;
        }
        if self.poll(passed) {
            self.walk.stop_short();
            self.stage = Stage::Over;
            return Ask::Over;
        }
        Ask::Definitions
    }

    /// Takes one step; `passed` says whether the deadline has passed.
    pub fn next(&mut self, passed: bool) -> (ask: Ask)
        requires
            old(self).wf(),
        ensures
            final(self).wf(),
            stepped(*old(self), *final(self), passed, ask),
    {
        match self.stage {
            Stage::Pricing(i) => self.next_pricing(i, passed),
            Stage::Fetching(i) => self.next_fetching(i, passed),
            Stage::Files(i) => self.next_file(i, passed),
            Stage::Recalling(i) => Ask::Remembered(i),
            Stage::Matching(i, from) => self.next_matching(i, from, passed),
            Stage::Closing => self.next_closing(passed),
            Stage::Over => Ask::Over,
        }
    }

    /// Takes the price of the symbol that was asked about.
    pub fn take_price(&mut self, files: usize, definitions: usize)
        requires
            old(self).wf(),
            old(self).stage is Pricing,
            old(self).stage->Pricing_0 < old(self).walk.frontier@.len(),
        ensures
            final(self).wf(),
            price_taken(*old(self), *final(self), files, definitions),
    {
        broadcast use text::group_views;
        if let Stage::Pricing(i) = self.stage {
            let n: usize = self.walk.frontier.len();
            assert(i < n);
            let cost: usize = resolution_cost(files, definitions);
            self.priced.push(Priced { cost, index: i });
            self.stage = Stage::Pricing(i + 1);
        }
    }

    /// Takes the references that resolve to the symbol that was asked about.
    pub fn take_rows(&mut self, rows: &Vec<Reference>)
        requires
            old(self).wf(),
            old(self).stage is Fetching,
            old(self).stage->Fetching_0 < old(self).walk.frontier@.len(),
        ensures
            final(self).wf(),
            rows_taken(*old(self), *final(self), rows@),
    {
        if let Stage::Fetching(i) = self.stage {
            let n: usize = self.walk.frontier.len();
            assert(i < n);
            self.walk.record_symbol(i, rows);
            self.stage = Stage::Fetching(i + 1);
        }
    }

    /// Takes what was remembered of the import rows that name the file that was
    /// asked about: their positions.
    pub fn take_remembered(&mut self, known: Option<Vec<usize>>)
        requires
            old(self).wf(),
            old(self).stage is Recalling,
            known matches Some(at) ==> forall|k: int|
                0 <= k < at@.len() ==> #[trigger] at@[k] < old(self).import_rows,
        ensures
            final(self).wf(),
            final(self).known == known,
            remembered_taken(
                *old(self),
                *final(self),
                match known {
                    Some(at) => Some(at@),
                    None => None,
                },
            ),
    {
        if let Stage::Recalling(i) = self.stage {
            self.known = known;
            self.matches = Vec::new();
            self.stage = Stage::Matching(i, 0);
        }
    }

    /// Takes the import rows of the index, of which the stretch that was asked
    /// for is matched. Rows that were remembered are not matched again.
    pub fn take_imports(&mut self, rows: &Vec<Reference>)
        requires
            old(self).wf(),
            old(self).stage is Matching,
            rows@.len() == old(self).import_rows,
            old(self).stage->Matching_1 < old(self).rows_to_match(),
        ensures
            final(self).wf(),
            imports_taken(*old(self), *final(self), rows@),
    {
        if let Stage::Matching(i, from) = self.stage {
            let to: usize = end_of_stretch(from, self.count_to_match());
            let mut known: Option<Vec<usize>> = None;
            std::mem::swap(&mut known, &mut self.known);
            match &known {
                Some(at) => {
                    self.walk.record_imports(rows, at, from, to);
                },
                None => {
                    let mut at = positions_naming(rows, self.walk.file_frontier[i].as_str(), from, to);
                    proof {
                        impact::lemma_naming_bounded(
                            rows@,
                            self.walk.file_frontier@[i as int]@,
                            from as int,
                            to as int,
                        );
                        assert(at@.subrange(0, at@.len() as int) =~= at@);
                    }
                    let n: usize = at.len();
                    self.walk.record_imports(rows, &at, 0, n);
                    self.matches.append(&mut at);
                },
            }
            self.known = known;
            self.stage = Stage::Matching(i, to);
        }
    }

    /// Hands out the positions that were found of the import rows that name a
    /// file.
    pub fn take_matches(&mut self) -> (out: Vec<usize>)
        ensures
            out == old(self).matches,
            final(self).matches@.len() == 0,
            *final(self) == (WalkRun { matches: final(self).matches, ..*old(self) }),
    {
        let mut out: Vec<usize> = Vec::new();
        std::mem::swap(&mut out, &mut self.matches);
        out
    }

    /// Takes the definitions of the files that references are pending from, and
    /// goes on to the next level.
    pub fn take_definitions(&mut self, by_file: &Vec<FileSymbols>)
        requires
            old(self).wf(),
            old(self).stage is Closing,
            old(self).walk.pending@.len() > 0,
        ensures
            final(self).wf(),
            definitions_taken(*old(self), *final(self), by_file@),
    {
        let more = self.walk.advance(by_file);
        self.priced = Vec::new();
        self.spent = false;
        self.stage = if more {
            Stage::Pricing(0)
        } else {
            Stage::Over
        };
    }
}

/// A run at its beginning.
pub open spec fn begun(out: WalkRun, walk: Walk, budget: Option<WalkBudget>, import_rows: usize) -> bool {
    &&& out.budget == budget
    &&& out.import_rows == import_rows
    &&& !is_spent(budget) ==> out.walk == walk
    &&& is_spent(budget) ==> {
        &&& out.walk.capped
        &&& out.walk.seed_count == 0
        &&& out.walk.reached@.len() == 0
        &&& out.walk == (Walk { capped: true, seed_count: 0, reached: out.walk.reached, ..walk })
    }
    &&& out.stage == (if is_spent(budget) || (walk.frontier@.len() == 0 && walk.file_frontier@.len() == 0)
        || walk.depth > walk.max_depth {
        Stage::Over
    } else {
        Stage::Pricing(0)
    })
    &&& out.priced@.len() == 0
    &&& out.admitted@.len() == 0
    &&& out.known is None
    &&& out.matches@.len() == 0
    &&& !out.spent
}

/// One step of a run, and what it asks for.
pub open spec fn stepped(a: WalkRun, b: WalkRun, passed: bool, ask: Ask) -> bool {
    match a.stage {
        Stage::Pricing(i) => priced_step(a, b, i, passed, ask),
        Stage::Fetching(i) => fetched_step(a, b, i, passed, ask),
        Stage::Files(i) => file_step(a, b, i, passed, ask),
        Stage::Recalling(i) => ask == Ask::Remembered(i) && b == a,
        Stage::Matching(i, from) => matching_step(a, b, i, from, passed, ask),
        Stage::Closing => closing_step(a, b, passed, ask),
        Stage::Over => ask == Ask::Over && b == a,
    }
}

/// A run after the price that it asked for.
pub open spec fn price_taken(a: WalkRun, b: WalkRun, files: usize, definitions: usize) -> bool {
    &&& b == (WalkRun {
        priced: b.priced,
        stage: Stage::Pricing((a.stage->Pricing_0 + 1) as usize),
        ..a
    })
    &&& text::views(b.priced@) == text::views(a.priced@).push(
        (impact::priced_at(files, definitions) as usize, a.stage->Pricing_0),
    )
}

/// A run after the references that it asked for.
pub open spec fn rows_taken(a: WalkRun, b: WalkRun, rows: Seq<Reference>) -> bool {
    &&& b == (WalkRun {
        walk: b.walk,
        stage: Stage::Fetching((a.stage->Fetching_0 + 1) as usize),
        ..a
    })
    &&& impact::symbol_recorded(a.walk, b.walk, a.stage->Fetching_0 as int, rows)
}

/// A run after it was told which import rows name a file, or that nothing is
/// remembered of that.
pub open spec fn remembered_taken(a: WalkRun, b: WalkRun, known: Option<Seq<usize>>) -> bool {
    &&& b == (WalkRun {
        known: b.known,
        matches: b.matches,
        stage: Stage::Matching(a.stage->Recalling_0, 0),
        ..a
    })
    &&& b.matches@.len() == 0
    &&& match b.known {
        Some(at) => known == Some(at@),
        None => known is None,
    }
}

/// The positions of the import rows that a run records of a stretch: those that
/// were remembered, or else those that name the file.
pub open spec fn stretch_of(a: WalkRun, rows: Seq<Reference>) -> Seq<usize> {
    let from = a.stage->Matching_1;
    let to = stretch_end(from, a.rows_to_match());
    match a.known {
        Some(at) => at@.subrange(from as int, to),
        None => impact::naming(
            rows,
            a.walk.file_frontier@[a.stage->Matching_0 as int]@,
            from as int,
            to,
        ),
    }
}

/// A run after the stretch of import rows that it asked for.
pub open spec fn imports_taken(a: WalkRun, b: WalkRun, rows: Seq<Reference>) -> bool {
    let to = stretch_end(a.stage->Matching_1, a.rows_to_match());
    &&& b == (WalkRun {
        walk: b.walk,
        stage: Stage::Matching(a.stage->Matching_0, to as usize),
        known: b.known,
        matches: b.matches,
        ..a
    })
    &&& b.known == a.known
    &&& b.matches@ == if a.known is None {
        a.matches@ + stretch_of(a, rows)
    } else {
        a.matches@
    }
    &&& impact::imports_recorded(a.walk, b.walk, impact::rows_at(rows, stretch_of(a, rows)))
}

/// A run after the definitions that it asked for: on its next level, or over.
pub open spec fn definitions_taken(a: WalkRun, b: WalkRun, by_file: Seq<FileSymbols>) -> bool {
    &&& b == (WalkRun { walk: b.walk, stage: b.stage, priced: b.priced, spent: false, ..a })
    &&& b.priced@.len() == 0
    &&& impact::advanced(a.walk, b.walk, by_file)
    &&& b.stage == (if b.walk.frontier@.len() > 0 || b.walk.file_frontier@.len() > 0 {
        Stage::Pricing(0)
    } else {
        Stage::Over
    })
}

/// A step of pricing: at the end of the frontier, and at a deadline that is
/// polled at every stride, admission follows. A symbol that was visited before
/// is passed over; a new one is asked about where work is bounded.
pub open spec fn priced_step(a: WalkRun, b: WalkRun, i: usize, passed: bool, ask: Ask) -> bool {
    if i >= a.walk.frontier@.len() || (i % POLL_STRIDE == 0 && late(a.budget, passed)) {
        let budget = if i < a.walk.frontier@.len() {
            polled(a.budget, passed)
        } else {
            a.budget
        };
        let all = text::views(a.priced@);
        let taken = admission(all, steps_left(budget));
        &&& ask == Ask::Nothing
        &&& b.stage == Stage::Fetching(0)
        &&& b.walk == a.walk
        &&& b.import_rows == a.import_rows
        &&& b.spent == a.spent
        &&& b.known == a.known
        &&& b.matches == a.matches
        &&& b.priced@.len() == 0
        &&& b.admitted@.len() == a.walk.frontier@.len()
        &&& forall|k: int|
            0 <= k < b.admitted@.len() ==> #[trigger] b.admitted@[k] == impact::lists_index(
                taken,
                k,
            )
        &&& b.budget == match budget {
            Some(w) => Some(
                WalkBudget {
                    remaining: (w.remaining - impact::total_cost(taken)) as usize,
                    exhausted: w.exhausted || taken.len() < all.len(),
                    deadline_hit: w.deadline_hit,
                },
            ),
            None => None,
        }
    } else {
        let new = !crate::symbols::keys(a.walk.visited_symbols@).contains(
            a.walk.frontier@[i as int].key(),
        );
        &&& b == (WalkRun { walk: b.walk, priced: b.priced, stage: b.stage, ..a })
        &&& b.walk == (Walk { visited_symbols: b.walk.visited_symbols, ..a.walk })
        &&& b.walk.visited_symbols@ == if new {
            a.walk.visited_symbols@.push(a.walk.frontier@[i as int])
        } else {
            a.walk.visited_symbols@
        }
        &&& ask == if new && a.budget is Some {
            Ask::Price(i)
        } else {
            Ask::Nothing
        }
        &&& b.stage == if new && a.budget is Some {
            Stage::Pricing(i)
        } else {
            Stage::Pricing((i + 1) as usize)
        }
        &&& text::views(b.priced@) == if new && a.budget is None {
            text::views(a.priced@).push((0usize, i))
        } else {
            text::views(a.priced@)
        }
    }
}

/// A step of fetching: only what was admitted is asked for, and nothing more
/// once the deadline has passed.
pub open spec fn fetched_step(a: WalkRun, b: WalkRun, i: usize, passed: bool, ask: Ask) -> bool {
    if i < a.walk.frontier@.len() && !a.admitted@[i as int] {
        ask == Ask::Nothing && b == (WalkRun { stage: Stage::Fetching((i + 1) as usize), ..a })
    } else if i >= a.walk.frontier@.len() {
        ask == Ask::Nothing && b == (WalkRun {
            stage: Stage::Files(0),
            spent: is_exhausted(a.budget),
            ..a
        })
    } else if late(a.budget, passed) {
        ask == Ask::Nothing && b == (WalkRun {
            budget: polled(a.budget, passed),
            stage: Stage::Files(0),
            spent: is_exhausted(polled(a.budget, passed)),
            ..a
        })
    } else {
        ask == Ask::Rows(i) && b == a
    }
}

/// A step among the files: a file that was visited before is passed over, and
/// one whose import rows cost more than is left ends the level.
pub open spec fn file_step(a: WalkRun, b: WalkRun, i: usize, passed: bool, ask: Ask) -> bool {
    if i >= a.walk.file_frontier@.len() {
        ask == Ask::Nothing && b == (WalkRun { stage: Stage::Closing, ..a })
    } else {
        let new = !text::views(a.walk.visited_files@).contains(a.walk.file_frontier@[i as int]@);
        let paid = match a.budget {
            Some(w) => !w.exhausted && !w.deadline_hit && !passed && a.import_rows <= w.remaining,
            None => true,
        };
        &&& ask == Ask::Nothing
        &&& b.walk == (Walk { visited_files: b.walk.visited_files, ..a.walk })
        &&& text::views(b.walk.visited_files@) == if new {
            text::views(a.walk.visited_files@).push(a.walk.file_frontier@[i as int]@)
        } else {
            text::views(a.walk.visited_files@)
        }
        &&& b == (WalkRun {
            walk: b.walk,
            budget: if !new {
                a.budget
            } else {
                match a.budget {
                    Some(w) => Some(
                        WalkBudget {
                            remaining: if paid {
                                (w.remaining - a.import_rows) as usize
                            } else {
                                w.remaining
                            },
                            exhausted: w.exhausted || !paid,
                            deadline_hit: w.deadline_hit || (!w.exhausted && passed),
                        },
                    ),
                    None => None,
                }
            },
            stage: if !new {
                Stage::Files((i + 1) as usize)
            } else if paid {
                Stage::Recalling(i)
            } else {
                Stage::Closing
            },
            spent: a.spent || (new && !paid),
            ..a
        })
    }
}

/// A step of matching: the next stretch of import rows is asked for, unless
/// there is none or the deadline has passed. Once all rows are gone through,
/// what was found may be remembered.
pub open spec fn matching_step(
    a: WalkRun,
    b: WalkRun,
    i: usize,
    from: usize,
    passed: bool,
    ask: Ask,
) -> bool {
    if from >= a.rows_to_match() {
        &&& ask == if a.known is None && !a.spent {
            Ask::Matched(i)
        } else {
            Ask::Nothing
        }
        &&& b == (WalkRun { stage: Stage::Files((i + 1) as usize), ..a })
    } else if late(a.budget, passed) {
        ask == Ask::Nothing && b == (WalkRun {
            budget: polled(a.budget, passed),
            stage: Stage::Files((i + 1) as usize),
            spent: true,
            ..a
        })
    } else {
        ask == Ask::Imports(i, from, stretch_end(from, a.rows_to_match()) as usize) && b == a
    }
}

/// A step at the end of a level: a level that skipped something, and one whose
/// deadline has passed, stop the walk short.
pub open spec fn closing_step(a: WalkRun, b: WalkRun, passed: bool, ask: Ask) -> bool {
    if a.spent {
        ask == Ask::Over && b == (WalkRun {
            walk: Walk { capped: true, ..a.walk },
            stage: Stage::Over,
            ..a
        })
    } else if a.walk.pending@.len() == 0 {
        ask == Ask::Over && b == (WalkRun { stage: Stage::Over, ..a })
    } else if late(a.budget, passed) {
        ask == Ask::Over && b == (WalkRun {
            walk: Walk { capped: true, ..a.walk },
            budget: polled(a.budget, passed),
            stage: Stage::Over,
            ..a
        })
    } else {
        ask == Ask::Definitions && b == a
    }
}

/// A walk without a work budget never looks at the clock and skips nothing:
/// only a frontier bound can cap it.
pub proof fn law_an_unbounded_level_skips_nothing(
    a: WalkRun,
    b: WalkRun,
    i: usize,
    from: usize,
    passed: bool,
    ask: Ask,
)
    requires
        a.budget is None,
        !a.spent,
        fetched_step(a, b, i, passed, ask) || file_step(a, b, i, passed, ask) || matching_step(
            a,
            b,
            i,
            from,
            passed,
            ask,
        ) || closing_step(a, b, passed, ask),
    ensures
        !b.spent,
        b.walk.capped == a.walk.capped,
        b.budget is None,
{
}

/// A level that skips something for want of steps is never passed off as
/// complete: the walk that it belongs to ends capped.
pub proof fn law_a_skipped_symbol_caps_the_walk(a: WalkRun, b: WalkRun, passed: bool, ask: Ask)
    requires
        a.spent,
        closing_step(a, b, passed, ask),
    ensures
        b.walk.capped,
        b.stage is Over,
        ask == Ask::Over,
{
}

} // verus!
