//! The reverse-dependency walk: which files depend on a file or a symbol, how
//! far away, and through which edges.
//!
//! A [`Walk`] holds the state. The caller reads the index and hands the rows
//! in: at each level it visits the frontier, records the references that
//! resolve to each admitted symbol and the imports that resolve to each file,
//! and then advances to the symbols that enclose those references. A
//! [`WalkBudget`] bounds the work.
use vstd::prelude::*;
use vstd::string::*;
use crate::imports;
use crate::imports::import_ref_targets_file;
use crate::model;
use crate::model::{FileCategory, Reference, ReferenceKind, Symbol};
use crate::order;
use crate::order::{among, ascending_list, before, sort, Ranked};
use crate::text;
use crate::text::{decimal_of, has, join, same};

verus! {

/// Bound on each level's fan-out; a capped walk reports its counts as lower
/// bounds.
pub const MAX_FRONTIER: usize = 512;

/// Most reasons that an entry lists.
pub const MAX_REASONS: usize = 10;

/// A name that carries a namespace, a module or a class.
pub open spec fn qualified(name: Seq<char>) -> bool {
    text::contains(name, "\\"@) || text::contains(name, "."@) || text::contains(name, "::"@)
}

pub fn is_qualified_symbol_name(name: &str) -> (r: bool)
    ensures
        r == qualified(name@),
{
    has(name, "\\") || has(name, ".") || has(name, "::")
}

// ---------------------------------------------------------------------------
// The work budget
// ---------------------------------------------------------------------------

/// Work budget of a walk, counted in resolution steps. One budget serves
/// several walks: `reset` refills the steps while a passed deadline stays
/// passed.
#[derive(Debug, Clone, Copy, PartialEq, Eq, Structural)]
pub struct WalkBudget {
    pub remaining: usize,
    /// Something was skipped: the current walk stops, and later walks return
    /// at once until `reset`.
    pub exhausted: bool,
    /// The deadline has passed; `reset` cannot revive the budget.
    pub deadline_hit: bool,
}

impl WalkBudget {
    pub fn new(steps: usize) -> (out: Self)
        ensures
            out.remaining == steps,
            out.exhausted == (steps == 0),
            !out.deadline_hit,
    {
        WalkBudget { remaining: steps, exhausted: steps == 0, deadline_hit: false }
    }

    /// Refills the steps for the next input.
    pub fn reset(&mut self, steps: usize)
        ensures
            final(self).remaining == steps,
            final(self).exhausted == (steps == 0 || old(self).deadline_hit),
            final(self).deadline_hit == old(self).deadline_hit,
    {
        self.remaining = steps;
        self.exhausted = steps == 0 || self.deadline_hit;
    }

    /// Spends `steps`. To spend the budget to exactly zero does not exhaust
    /// it: exhausted means that something was skipped.
    pub fn charge(&mut self, steps: usize)
        ensures
            final(self).remaining == if steps <= old(self).remaining {
                (old(self).remaining - steps) as usize
            } else {
                0
            },
            final(self).exhausted == old(self).exhausted,
            final(self).deadline_hit == old(self).deadline_hit,
    {
        self.remaining = self.remaining.saturating_sub(steps);
    }

    /// Takes note of a look at the clock: whether the deadline has passed, now
    /// or before.
    pub fn over_deadline(&mut self, passed: bool) -> (r: bool)
        ensures
            r == (old(self).deadline_hit || passed),
            final(self).deadline_hit == r,
            final(self).exhausted == (old(self).exhausted || (passed && !old(self).deadline_hit)),
            final(self).remaining == old(self).remaining,
    {
        if self.deadline_hit {
            return true;
        }
        if passed {
            self.deadline_hit = true;
            self.exhausted = true;
            return true;
        }
        false
    }

    /// Pays for matching `rows` imports against one file. Where the budget is
    /// spent, the deadline has passed or the rows cost more than is left, the
    /// file is skipped and the budget is exhausted.
    pub fn admit_file(&mut self, passed: bool, rows: usize) -> (r: bool)
        ensures
            r == (!old(self).exhausted && !old(self).deadline_hit && !passed && rows
                <= old(self).remaining),
            r ==> final(self).remaining == old(self).remaining - rows && final(self).exhausted
                == old(self).exhausted && final(self).deadline_hit == old(self).deadline_hit,
            !r ==> final(self).remaining == old(self).remaining && final(self).exhausted,
            !r ==> final(self).deadline_hit == (old(self).deadline_hit || (!old(self).exhausted
                && passed)),
    {
        if self.exhausted || self.over_deadline(passed) || rows > self.remaining {
            self.exhausted = true;
            return false;
        }
        self.charge(rows);
        true
    }
}

/// What resolving the references to a name costs: caller files times same-named
/// definitions, counting at least one definition.
pub open spec fn priced_at(files: usize, definitions: usize) -> int {
    let n = if definitions == 0 {
        1int
    } else {
        definitions as int
    };
    if files * n <= usize::MAX {
        files * n
    } else {
        usize::MAX as int
    }
}

/// The price of resolving the references to a name: caller files times
/// same-named definitions, counting at least one definition.
pub fn resolution_cost(files: usize, definitions: usize) -> (r: usize)
    ensures
        r == priced_at(files, definitions),
{
    let n: usize = if definitions == 0 {
        1
    } else {
        definitions
    };
    match files.checked_mul(n) {
        Some(cost) => cost,
        None => usize::MAX,
    }
}

/// A frontier symbol, by its position, with its price.
#[derive(Debug)]
pub struct Priced {
    pub cost: usize,
    pub index: usize,
}

impl View for Priced {
    type V = (usize, usize);

    open spec fn view(&self) -> (usize, usize) {
        (self.cost, self.index)
    }
}

impl Ranked for Priced {
    open spec fn ahead(a: (usize, usize), b: (usize, usize)) -> bool {
        a.0 < b.0 || (a.0 == b.0 && a.1 < b.1)
    }

    fn is_ahead(&self, other: &Priced) -> (r: bool) {
        self.cost < other.cost || (self.cost == other.cost && self.index < other.index)
    }

    proof fn ahead_is_asymmetric(a: (usize, usize), b: (usize, usize)) {
    }

    proof fn ahead_is_negatively_transitive(
        a: (usize, usize),
        b: (usize, usize),
        c: (usize, usize),
    ) {
    }
}

/// How many symbols from the front of a priced list fit in `steps`, paid one
/// after the other.
pub open spec fn affordable(p: Seq<(usize, usize)>, steps: int) -> nat
    decreases p.len(),
{
    if p.len() == 0 || p[0].0 > steps {
        0
    } else {
        1 + affordable(p.skip(1), steps - p[0].0)
    }
}

pub open spec fn total_cost(p: Seq<(usize, usize)>) -> nat
    decreases p.len(),
{
    if p.len() == 0 {
        0
    } else {
        total_cost(p.drop_last()) + p.last().0 as nat
    }
}

/// `i` is among the positions of a priced list.
pub open spec fn lists_index(p: Seq<(usize, usize)>, i: int) -> bool {
    exists|k: int| 0 <= k < p.len() && #[trigger] p[k].1 == i
}

/// Admits symbols from the cheapest up until one does not fit; that one and
/// all after it are skipped, which exhausts the budget. Answers, for each of
/// the `count` frontier positions, whether it was admitted.
pub fn admit_cheapest(priced: Vec<Priced>, count: usize, budget: &mut WalkBudget) -> (mask: Vec<bool>)
    requires
        forall|i: int| 0 <= i < priced.len() ==> (#[trigger] priced[i]).index < count,
    ensures
        mask.len() == count,
        ({
            let ranked = order::sorted::<Priced>(text::views(priced@));
            let n = affordable(ranked, old(budget).remaining as int);
            &&& n <= ranked.len()
            &&& forall|i: int|
                0 <= i < count ==> #[trigger] mask@[i] == lists_index(ranked.take(n as int), i)
            &&& final(budget).remaining == old(budget).remaining - total_cost(ranked.take(n as int))
            &&& final(budget).exhausted == (old(budget).exhausted || n < ranked.len())
            &&& final(budget).deadline_hit == old(budget).deadline_hit
        }),
{
    broadcast use text::group_views;
    let ghost given = text::views(priced@);
    let ghost ranked = order::sorted::<Priced>(given);
    let ghost steps = budget.remaining;
    proof {
        order::lemma_sorted::<Priced>(given);
        broadcast use vstd::seq_lib::group_to_multiset_ensures;
        assert forall|k: int| 0 <= k < ranked.len() implies (#[trigger] ranked[k]).1 < count by {
            assert(ranked.to_multiset().contains(ranked[k]));
            assert(given.to_multiset().contains(ranked[k]));
            assert(given.contains(ranked[k]));
            let j = choose|j: int| 0 <= j < given.len() && given[j] == ranked[k];
            assert(priced@[j].index < count);
        }
    }
    let sorted = sort(priced);
    let mut mask: Vec<bool> = Vec::new();
    let mut j: usize = 0;
    while j < count
        invariant
            j <= count,
            mask.len() == j,
            forall|i: int| 0 <= i < j ==> !(#[trigger] mask@[i]),
        decreases count - j,
    {
        mask.push(false);
        j += 1;
    }
    let mut i: usize = 0;
    assert(ranked.skip(0) =~= ranked);
    assert(ranked.take(0) =~= Seq::empty());
    while i < sorted.len()
        invariant
            i <= sorted.len(),
            ranked == order::sorted::<Priced>(text::views(priced@)),
            text::views(sorted@) == ranked,
            sorted.len() == ranked.len(),
            forall|k: int| 0 <= k < ranked.len() ==> (#[trigger] ranked[k]).1 < count,
            mask.len() == count,
            steps == old(budget).remaining,
            affordable(ranked, steps as int) == i + affordable(
                ranked.skip(i as int),
                budget.remaining as int,
            ),
            budget.remaining == steps - total_cost(ranked.take(i as int)),
            budget.exhausted == old(budget).exhausted,
            budget.deadline_hit == old(budget).deadline_hit,
            forall|x: int|
                0 <= x < count ==> #[trigger] mask@[x] == lists_index(ranked.take(i as int), x),
        decreases sorted.len() - i,
    {
        broadcast use text::group_views;
        assert(ranked[i as int] == sorted@[i as int]@);
        assert(ranked.skip(i as int)[0] == ranked[i as int]);
        assert(ranked.skip(i as int).skip(1) =~= ranked.skip(i + 1));
        if sorted[i].cost > budget.remaining {
            budget.exhausted = true;
            return mask;
        }
        budget.charge(sorted[i].cost);
        let ghost was = mask@;
        mask.set(sorted[i].index, true);
        proof {
            let t = ranked.take(i as int);
            let u = ranked.take(i + 1);
            assert(u.drop_last() =~= t);
            assert(u.last() == ranked[i as int]);
            assert forall|x: int| 0 <= x < count implies #[trigger] mask@[x] == lists_index(u, x) by {
                if lists_index(t, x) {
                    let k = choose|k: int| 0 <= k < t.len() && #[trigger] t[k].1 == x;
                    assert(u[k].1 == x);
                }
                if lists_index(u, x) {
                    let k = choose|k: int| 0 <= k < u.len() && #[trigger] u[k].1 == x;
                    if k < i {
                        assert(t[k].1 == x);
                    }
                }
                if x == ranked[i as int].1 {
                    assert(u[i as int].1 == x);
                }
                assert(was[x] == lists_index(t, x));
            }
        }
        i += 1;
    }
    assert(ranked.skip(ranked.len() as int) =~= Seq::empty());
    mask
}

proof fn lemma_affordable(p: Seq<(usize, usize)>, steps: int)
    requires
        0 <= steps,
    ensures
        affordable(p, steps) <= p.len(),
        total_cost(p.take(affordable(p, steps) as int)) <= steps,
        affordable(p, steps) < p.len() ==> total_cost(p.take(affordable(p, steps) as int))
            + p[affordable(p, steps) as int].0 > steps,
    decreases p.len(),
{
    if p.len() > 0 && p[0].0 <= steps {
        let rest = p.skip(1);
        let n = affordable(rest, steps - p[0].0);
        lemma_affordable(rest, steps - p[0].0);
        lemma_total_cost_front(p, n as int + 1);
        assert(p.take(n as int + 1).skip(1) =~= rest.take(n as int));
        if n < rest.len() {
            assert(p[n as int + 1] == rest[n as int]);
        }
    } else {
        assert(p.take(0) =~= Seq::empty());
    }
}

proof fn lemma_total_cost_front(p: Seq<(usize, usize)>, n: int)
    requires
        1 <= n <= p.len(),
    ensures
        total_cost(p.take(n)) == p[0].0 + total_cost(p.take(n).skip(1)),
    decreases n,
{
    let t = p.take(n);
    if n == 1 {
        assert(t.drop_last() =~= Seq::empty());
        assert(t.skip(1) =~= Seq::empty());
        assert(t.last() == p[0]);
    } else {
        lemma_total_cost_front(p, n - 1);
        assert(t.drop_last() =~= p.take(n - 1));
        assert(t.skip(1).drop_last() =~= p.take(n - 1).skip(1));
        assert(t.skip(1).last() == t.last());
    }
}

/// Admission never spends more than the budget, takes the cheapest symbols
/// first, and stops only at a symbol that no longer fits.
pub proof fn law_admission_is_cheapest_first(priced: Seq<(usize, usize)>, steps: usize)
    ensures
        ({
            let ranked = order::sorted::<Priced>(priced);
            let n = affordable(ranked, steps as int);
            &&& n <= ranked.len()
            &&& total_cost(ranked.take(n as int)) <= steps
            &&& n < ranked.len() ==> total_cost(ranked.take(n as int)) + ranked[n as int].0 > steps
            &&& forall|i: int, j: int|
                #![trigger ranked[i], ranked[j]]
                0 <= i < n <= j < ranked.len() ==> ranked[i].0 <= ranked[j].0
        }),
{
    let ranked = order::sorted::<Priced>(priced);
    let n = affordable(ranked, steps as int);
    order::lemma_sorted::<Priced>(priced);
    lemma_affordable(ranked, steps as int);
    assert forall|i: int, j: int|
        #![trigger ranked[i], ranked[j]]
        0 <= i < n <= j < ranked.len() implies ranked[i].0 <= ranked[j].0 by {
        assert(!Priced::ahead(ranked[j], ranked[i]));
    }
}

// ---------------------------------------------------------------------------
// What the walk has reached
// ---------------------------------------------------------------------------

/// An edge into the walked set: the name it goes through, how, and where.
#[derive(Debug)]
pub struct ImpactReason {
    pub via_symbol: String,
    pub kind: ReferenceKind,
    pub line: u32,
}

impl View for ImpactReason {
    type V = (Seq<char>, ReferenceKind, u32);

    open spec fn view(&self) -> (Seq<char>, ReferenceKind, u32) {
        (self.via_symbol@, self.kind, self.line)
    }
}

/// A dependent file with its distance and its distinct edges in the order
/// they were found.
#[derive(Debug)]
pub struct Reached {
    pub path: String,
    pub distance: u32,
    pub edges: Vec<ImpactReason>,
}

#[verifier::ext_equal]
pub struct ReachedView {
    pub path: Seq<char>,
    pub distance: u32,
    pub edges: Seq<(Seq<char>, ReferenceKind, u32)>,
}

impl View for Reached {
    type V = ReachedView;

    open spec fn view(&self) -> ReachedView {
        ReachedView {
            path: self.path@,
            distance: self.distance,
            edges: text::views(self.edges@),
        }
    }
}

/// The position of the entry for `path`, if there is one.
pub open spec fn position(found: Seq<ReachedView>, path: Seq<char>) -> Option<int>
    decreases found.len(),
{
    if found.len() == 0 {
        None
    } else if found.last().path == path {
        Some(found.len() - 1)
    } else {
        position(found.drop_last(), path)
    }
}

/// `edges` with `reason`, unless it is there.
pub open spec fn with_edge(
    edges: Seq<(Seq<char>, ReferenceKind, u32)>,
    reason: (Seq<char>, ReferenceKind, u32),
) -> Seq<(Seq<char>, ReferenceKind, u32)> {
    if edges.contains(reason) {
        edges
    } else {
        edges.push(reason)
    }
}

/// `found` after an edge from `path` was seen at level `depth`: a new file
/// enters at that distance, a known one keeps the smaller distance.
pub open spec fn noted(
    found: Seq<ReachedView>,
    path: Seq<char>,
    depth: u32,
    reason: (Seq<char>, ReferenceKind, u32),
) -> Seq<ReachedView> {
    match position(found, path) {
        Some(i) => found.update(
            i,
            ReachedView {
                path: path,
                distance: if found[i].distance > depth {
                    depth
                } else {
                    found[i].distance
                },
                edges: with_edge(found[i].edges, reason),
            },
        ),
        None => found.push(ReachedView { path: path, distance: depth, edges: seq![reason] }),
    }
}

/// `found` after the edges of `rows` were seen in turn at level `depth`. An
/// edge from an origin file is no dependency. `through` names the symbol that a
/// row goes through.
pub open spec fn noted_all(
    found: Seq<ReachedView>,
    origins: Seq<Seq<char>>,
    rows: Seq<Reference>,
    through: spec_fn(Reference) -> Seq<char>,
    depth: u32,
) -> Seq<ReachedView>
    decreases rows.len(),
{
    if rows.len() == 0 {
        found
    } else {
        let before = noted_all(found, origins, rows.drop_last(), through, depth);
        let r = rows.last();
        if origins.contains(r.from_file@) {
            before
        } else {
            noted(before, r.from_file@, depth, (through(r), r.kind, r.line))
        }
    }
}

/// The rows that do not come from an origin file.
pub open spec fn outside(origins: Seq<Seq<char>>, rows: Seq<Reference>) -> Seq<Reference> {
    rows.filter(|r: Reference| !origins.contains(r.from_file@))
}

proof fn lemma_position(found: Seq<ReachedView>, path: Seq<char>)
    ensures
        match position(found, path) {
            Some(i) => 0 <= i < found.len() && found[i].path == path,
            None => forall|i: int| 0 <= i < found.len() ==> (#[trigger] found[i]).path != path,
        },
    decreases found.len(),
{
    if found.len() > 0 && found.last().path != path {
        lemma_position(found.drop_last(), path);
        assert forall|i: int|
            position(found, path) is None && 0 <= i < found.len() implies (#[trigger] found[i]).path
            != path by {
            if i < found.len() - 1 {
                assert(found.drop_last()[i].path != path);
            }
        }
    }
}

/// Each file occurs once.
pub open spec fn distinct_paths(found: Seq<ReachedView>) -> bool {
    forall|i: int, j: int|
        0 <= i < j < found.len() ==> (#[trigger] found[i]).path != (#[trigger] found[j]).path
}

/// No origin file is among the dependents, every dependent occurs once, has
/// an edge, repeats none, and stands no further away than `depth`.
pub open spec fn sound(found: Seq<ReachedView>, origins: Seq<Seq<char>>, depth: u32) -> bool {
    &&& distinct_paths(found)
    &&& forall|i: int|
        0 <= i < found.len() ==> {
            &&& !origins.contains((#[trigger] found[i]).path)
            &&& found[i].distance <= depth
            &&& found[i].edges.len() > 0
            &&& found[i].edges.no_duplicates()
        }
}

proof fn lemma_noted_sound(
    found: Seq<ReachedView>,
    origins: Seq<Seq<char>>,
    path: Seq<char>,
    depth: u32,
    reason: (Seq<char>, ReferenceKind, u32),
)
    requires
        sound(found, origins, depth),
        !origins.contains(path),
    ensures
        sound(noted(found, path, depth, reason), origins, depth),
{
    lemma_position(found, path);
    let after = noted(found, path, depth, reason);
    match position(found, path) {
        Some(i) => {
            assert forall|a: int, b: int| 0 <= a < b < after.len() implies (#[trigger] after[a]).path
                != (#[trigger] after[b]).path by {
                assert(found[a].path != found[b].path);
            }
            let edges = found[i].edges;
            if !edges.contains(reason) {
                assert(edges.push(reason).no_duplicates());
            }
            assert forall|k: int| 0 <= k < after.len() implies {
                &&& !origins.contains((#[trigger] after[k]).path)
                &&& after[k].distance <= depth
                &&& after[k].edges.len() > 0
                &&& after[k].edges.no_duplicates()
            } by {
                assert(!origins.contains(found[k].path));
            }
        },
        None => {
            assert forall|a: int, b: int| 0 <= a < b < after.len() implies (#[trigger] after[a]).path
                != (#[trigger] after[b]).path by {
                if b < found.len() {
                    assert(found[a].path != found[b].path);
                } else {
                    assert(found[a].path != path);
                }
            }
            assert forall|k: int| 0 <= k < after.len() implies {
                &&& !origins.contains((#[trigger] after[k]).path)
                &&& after[k].distance <= depth
                &&& after[k].edges.len() > 0
                &&& after[k].edges.no_duplicates()
            } by {
                if k < found.len() {
                    assert(!origins.contains(found[k].path));
                }
            }
        },
    }
}

/// Recording rows keeps the dependents sound: an origin file never becomes a
/// dependent, no file is listed twice and no edge is counted twice.
pub proof fn law_recording_keeps_dependents_sound(
    found: Seq<ReachedView>,
    origins: Seq<Seq<char>>,
    rows: Seq<Reference>,
    through: spec_fn(Reference) -> Seq<char>,
    depth: u32,
)
    requires
        sound(found, origins, depth),
    ensures
        sound(noted_all(found, origins, rows, through, depth), origins, depth),
    decreases rows.len(),
{
    if rows.len() > 0 {
        law_recording_keeps_dependents_sound(found, origins, rows.drop_last(), through, depth);
        let r = rows.last();
        if !origins.contains(r.from_file@) {
            lemma_noted_sound(
                noted_all(found, origins, rows.drop_last(), through, depth),
                origins,
                r.from_file@,
                depth,
                (through(r), r.kind, r.line),
            );
        }
    }
}

/// A file that was reached keeps its place, its distance and its edges when a
/// later level records more rows: the level that first reached it gives the
/// distance.
pub proof fn law_first_level_gives_the_distance(
    found: Seq<ReachedView>,
    origins: Seq<Seq<char>>,
    rows: Seq<Reference>,
    through: spec_fn(Reference) -> Seq<char>,
    depth: u32,
    i: int,
)
    requires
        0 <= i < found.len(),
        found[i].distance <= depth,
    ensures
        ({
            let after = noted_all(found, origins, rows, through, depth);
            &&& i < after.len()
            &&& after[i].path == found[i].path
            &&& after[i].distance == found[i].distance
            &&& found[i].edges.is_prefix_of(after[i].edges)
        }),
    decreases rows.len(),
{
    if rows.len() > 0 {
        law_first_level_gives_the_distance(found, origins, rows.drop_last(), through, depth, i);
        let before = noted_all(found, origins, rows.drop_last(), through, depth);
        let r = rows.last();
        lemma_position(before, r.from_file@);
        let after = noted_all(found, origins, rows, through, depth);
        assert(before[i].edges.is_prefix_of(after[i].edges)) by {
            assert(before[i].edges.subrange(0, before[i].edges.len() as int)
                =~= before[i].edges);
            assert(after[i].edges.subrange(0, before[i].edges.len() as int) =~= before[i].edges);
        }
        let n = found[i].edges.len() as int;
        assert(after[i].edges.subrange(0, n) =~= before[i].edges.subrange(0, n));
    }
}

fn position_of(found: &Vec<Reached>, path: &str) -> (r: Option<usize>)
    ensures
        match r {
            Some(i) => position(text::views(found@), path@) == Some(i as int) && i < found.len(),
            None => position(text::views(found@), path@) is None,
        },
{
    broadcast use text::group_views;
    let mut i: usize = found.len();
    assert(text::views(found@).take(i as int) =~= text::views(found@));
    while i > 0
        invariant
            i <= found.len(),
            position(text::views(found@), path@) == position(
                text::views(found@).take(i as int),
                path@,
            ),
        decreases i,
    {
        broadcast use text::group_views;
        let ghost t = text::views(found@).take(i as int);
        assert(t.drop_last() =~= text::views(found@).take(i - 1));
        assert(t.last() == found@[i - 1]@);
        if same(found[i - 1].path.as_str(), path) {
            return Some(i - 1);
        }
        i -= 1;
    }
    None
}

fn has_edge(edges: &Vec<ImpactReason>, through: &str, kind: ReferenceKind, line: u32) -> (r: bool)
    ensures
        r == text::views(edges@).contains((through@, kind, line)),
{
    broadcast use text::group_views;
    let mut i: usize = 0;
    while i < edges.len()
        invariant
            i <= edges.len(),
            forall|j: int| 0 <= j < i ==> text::views(edges@)[j] != (through@, kind, line),
        decreases edges.len() - i,
    {
        broadcast use text::group_views;
        if edges[i].kind == kind && edges[i].line == line && same(
            edges[i].via_symbol.as_str(),
            through,
        ) {
            assert(text::views(edges@)[i as int] == (through@, kind, line));
            return true;
        }
        i += 1;
    }
    false
}

fn note(found: &mut Vec<Reached>, path: &str, depth: u32, through: &str, kind: ReferenceKind, line: u32)
    ensures
        text::views(final(found)@) == noted(
            text::views(old(found)@),
            path@,
            depth,
            (through@, kind, line),
        ),
{
    broadcast use text::group_views;
    let ghost was = text::views(found@);
    match position_of(found, path) {
        Some(i) => {
            let ghost entry = found@[i as int];
            proof {
                lemma_position(was, path@);
            }
            let fresh = !has_edge(&found[i].edges, through, kind, line);
            if found[i].distance > depth {
                found[i].distance = depth;
            }
            if fresh {
                found[i].edges.push(ImpactReason { via_symbol: through.to_owned(), kind, line });
            }
            assert(found@[i as int]@ == noted(was, path@, depth, (through@, kind, line))[i as int]);
            assert(text::views(found@) =~= noted(was, path@, depth, (through@, kind, line)));
        },
        None => {
            let mut edges: Vec<ImpactReason> = Vec::new();
            edges.push(ImpactReason { via_symbol: through.to_owned(), kind, line });
            assert(text::views(edges@) =~= seq![(through@, kind, line)]);
            found.push(Reached { path: path.to_owned(), distance: depth, edges });
        },
    }
}

// ---------------------------------------------------------------------------
// The walk
// ---------------------------------------------------------------------------

/// The definitions of one file.
#[derive(Debug)]
pub struct FileSymbols {
    pub path: String,
    pub symbols: Vec<Symbol>,
}

/// The state of a walk between two reads of the index.
#[derive(Debug)]
pub struct Walk {
    /// The target is a file, so importing files are walked as well.
    pub file_target: bool,
    pub max_depth: u32,
    pub max_frontier: usize,
    /// Files that are never their own dependents.
    pub origins: Vec<String>,
    /// The current level, from one.
    pub depth: u32,
    /// The symbols that this level looks for references to.
    pub frontier: Vec<Symbol>,
    /// The files that this level looks for imports of, ascending.
    pub file_frontier: Vec<String>,
    pub visited_symbols: Vec<Symbol>,
    pub visited_files: Vec<String>,
    /// The references that this level found, where another level follows.
    pub pending: Vec<Reference>,
    pub reached: Vec<Reached>,
    /// Symbol seeds, or one for a file without symbols that is imported.
    pub seed_count: usize,
    /// The walk stopped short; every count is a lower bound.
    pub capped: bool,
}

/// The files that definitions stand in.
pub open spec fn files_of(s: Seq<Symbol>) -> Seq<Seq<char>> {
    s.map_values(|x: Symbol| x.file_path@)
}

/// The files that references come from.
pub open spec fn sources_of(s: Seq<Reference>) -> Seq<Seq<char>> {
    s.map_values(|r: Reference| r.from_file@)
}

/// The definitions listed for `path`, looking from position `i` on.
pub open spec fn listed_from(by_file: Seq<FileSymbols>, path: Seq<char>, i: int) -> Option<int>
    decreases by_file.len() - i,
{
    if i < 0 || i >= by_file.len() {
        None
    } else if by_file[i].path@ == path {
        Some(i)
    } else {
        listed_from(by_file, path, i + 1)
    }
}

/// The definition that a reference stands in.
pub open spec fn caller(r: Reference, by_file: Seq<FileSymbols>) -> Option<Symbol> {
    match listed_from(by_file, r.from_file@, 0) {
        Some(f) => match crate::symbols::owner(
            by_file[f].symbols@,
            text::view_opt(r.from_symbol),
            r.line,
        ) {
            Some(i) => Some(by_file[f].symbols@[i]),
            None => None,
        },
        None => None,
    }
}

/// The definitions that the references of `rows` stand in, in turn.
pub open spec fn callers(rows: Seq<Reference>, by_file: Seq<FileSymbols>) -> Seq<Symbol>
    decreases rows.len(),
{
    if rows.len() == 0 {
        Seq::empty()
    } else {
        match caller(rows.last(), by_file) {
            Some(s) => callers(rows.drop_last(), by_file).push(s),
            None => callers(rows.drop_last(), by_file),
        }
    }
}

/// The next level's symbols: the callers, each once.
pub open spec fn next_symbols(rows: Seq<Reference>, by_file: Seq<FileSymbols>) -> Seq<Symbol> {
    crate::symbols::first_by_key(callers(rows, by_file))
}

/// The next level's files: those that the references come from, ascending,
/// without the visited ones. Only a file target walks files.
pub open spec fn next_files(
    file_target: bool,
    rows: Seq<Reference>,
    visited: Seq<Seq<char>>,
) -> Seq<Seq<char>> {
    if file_target {
        order::ascending_set(sources_of(rows)).filter(|p: Seq<char>| !visited.contains(p))
    } else {
        Seq::empty()
    }
}

pub open spec fn at_most<A>(s: Seq<A>, n: usize) -> Seq<A> {
    if s.len() > n {
        s.take(n as int)
    } else {
        s
    }
}

/// A walk after the references to its frontier symbol at `i`.
pub open spec fn symbol_recorded(a: Walk, b: Walk, i: int, rows: Seq<Reference>) -> bool {
    &&& text::views(b.reached@) == noted_all(
        text::views(a.reached@),
        text::views(a.origins@),
        rows,
        |r: Reference| a.frontier@[i].name@,
        a.depth,
    )
    &&& b.pending@ == a.pending@ + if a.depth < a.max_depth {
        outside(text::views(a.origins@), rows)
    } else {
        Seq::empty()
    }
    &&& b == (Walk { reached: b.reached, pending: b.pending, ..a })
}

/// The positions from `from` up to `to` of the import rows that name a file.
pub open spec fn naming(rows: Seq<Reference>, file: Seq<char>, from: int, to: int) -> Seq<usize>
    decreases to - from,
{
    if to <= from {
        Seq::empty()
    } else {
        let front = naming(rows, file, from, to - 1);
        if imports::ref_targets(rows[to - 1].to_name@, rows[to - 1].from_file@, file) {
            front.push((to - 1) as usize)
        } else {
            front
        }
    }
}

/// The rows at some positions.
pub open spec fn rows_at(rows: Seq<Reference>, at: Seq<usize>) -> Seq<Reference> {
    at.map_values(|k: usize| rows[k as int])
}

/// A walk after some import rows that name one of its frontier files.
pub open spec fn imports_recorded(a: Walk, b: Walk, rows: Seq<Reference>) -> bool {
    let kept = outside(text::views(a.origins@), rows);
    &&& text::views(b.reached@) == noted_all(
        text::views(a.reached@),
        text::views(a.origins@),
        rows,
        |r: Reference| r.to_name@,
        a.depth,
    )
    &&& b.pending@ == a.pending@ + if a.depth < a.max_depth {
        kept
    } else {
        Seq::empty()
    }
    &&& b.seed_count == if kept.len() > 0 && a.seed_count == 0 {
        1
    } else {
        a.seed_count
    }
    &&& b == (Walk {
        reached: b.reached,
        pending: b.pending,
        seed_count: b.seed_count,
        ..a
    })
}

pub proof fn lemma_naming_bounded(rows: Seq<Reference>, file: Seq<char>, from: int, to: int)
    requires
        0 <= from,
        to <= rows.len(),
        rows.len() <= usize::MAX,
    ensures
        forall|k: int|
            0 <= k < naming(rows, file, from, to).len() ==> from <= #[trigger] naming(
                rows,
                file,
                from,
                to,
            )[k] < to,
        from <= to ==> naming(rows, file, from, to).len() <= to - from,
    decreases to - from,
{
    if from < to {
        lemma_naming_bounded(rows, file, from, to - 1);
    }
}

pub proof fn lemma_naming_joins(rows: Seq<Reference>, file: Seq<char>, from: int, mid: int, to: int)
    requires
        from <= mid <= to,
    ensures
        naming(rows, file, from, to) == naming(rows, file, from, mid) + naming(rows, file, mid, to),
    decreases to - mid,
{
    if mid < to {
        lemma_naming_joins(rows, file, from, mid, to - 1);
    }
    assert(naming(rows, file, from, to) =~= naming(rows, file, from, mid) + naming(rows, file, mid, to));
}

/// The rows whose positions name a file are, in their order, those of the
/// stretch that resolve to it.
pub proof fn law_named_rows_are_those_that_resolve_to_the_file(
    rows: Seq<Reference>,
    file: Seq<char>,
    from: int,
    to: int,
)
    requires
        0 <= from <= to <= rows.len(),
        rows.len() <= usize::MAX,
    ensures
        rows_at(rows, naming(rows, file, from, to)) == rows.subrange(from, to).filter(
            |r: Reference| imports::ref_targets(r.to_name@, r.from_file@, file),
        ),
    decreases to - from,
{
    let hits = |r: Reference| imports::ref_targets(r.to_name@, r.from_file@, file);
    let part = rows.subrange(from, to);
    reveal(Seq::filter);
    if from < to {
        law_named_rows_are_those_that_resolve_to_the_file(rows, file, from, to - 1);
        assert(part.drop_last() =~= rows.subrange(from, to - 1));
        assert(part.last() == rows[to - 1]);
        assert(rows_at(rows, naming(rows, file, from, to)) =~= part.filter(hits));
    } else {
        assert(part =~= Seq::empty());
        assert(rows_at(rows, naming(rows, file, from, to)) =~= part.filter(hits));
    }
}

proof fn lemma_noted_all_joins(
    found: Seq<ReachedView>,
    origins: Seq<Seq<char>>,
    x: Seq<Reference>,
    y: Seq<Reference>,
    through: spec_fn(Reference) -> Seq<char>,
    depth: u32,
)
    ensures
        noted_all(noted_all(found, origins, x, through, depth), origins, y, through, depth) == noted_all(
            found,
            origins,
            x + y,
            through,
            depth,
        ),
    decreases y.len(),
{
    if y.len() > 0 {
        lemma_noted_all_joins(found, origins, x, y.drop_last(), through, depth);
        assert((x + y).drop_last() =~= x + y.drop_last());
    } else {
        assert(x + y =~= x);
    }
}

/// Import rows may be recorded in stretches: that comes to the same as
/// recording them at once.
pub proof fn law_import_rows_record_alike_in_stretches(
    a: Walk,
    b: Walk,
    c: Walk,
    x: Seq<Reference>,
    y: Seq<Reference>,
)
    requires
        imports_recorded(a, b, x),
        imports_recorded(b, c, y),
    ensures
        imports_recorded(a, c, x + y),
{
    let origins = text::views(a.origins@);
    lemma_noted_all_joins(text::views(a.reached@), origins, x, y, |r: Reference| r.to_name@, a.depth);
    Seq::filter_distributes_over_add(x, y, |r: Reference| !origins.contains(r.from_file@));
    assert(outside(origins, x + y) =~= outside(origins, x) + outside(origins, y));
    assert(c.pending@ =~= a.pending@ + if a.depth < a.max_depth {
        outside(origins, x + y)
    } else {
        Seq::empty()
    });
}

/// A walk on its next level: the definitions that the pending references stand
/// in, and the files they come from, each bounded.
pub open spec fn advanced(a: Walk, b: Walk, by_file: Seq<FileSymbols>) -> bool {
    let symbols = next_symbols(a.pending@, by_file);
    let files = next_files(a.file_target, a.pending@, text::views(a.visited_files@));
    &&& b.frontier@ == at_most(symbols, a.max_frontier)
    &&& text::views(b.file_frontier@) == at_most(files, a.max_frontier)
    &&& b.capped == (a.capped || symbols.len() > a.max_frontier || files.len() > a.max_frontier)
    &&& b.pending@.len() == 0
    &&& b.depth == a.depth + 1
    &&& b == (Walk {
        frontier: b.frontier,
        file_frontier: b.file_frontier,
        capped: b.capped,
        pending: b.pending,
        depth: b.depth,
        ..a
    })
}

impl Walk {
    /// A walk from a file. An unindexed file has no importers to look for.
    pub fn for_file(
        path: &str,
        indexed: bool,
        seeds: Vec<Symbol>,
        max_depth: u32,
        max_frontier: usize,
    ) -> (out: Walk)
        ensures
            out.file_target,
            out.max_depth == max_depth,
            out.max_frontier == max_frontier,
            text::views(out.origins@) == seq![path@],
            out.depth == 1,
            out.frontier@ == seeds@,
            text::views(out.file_frontier@) == if indexed {
                seq![path@]
            } else {
                Seq::empty()
            },
            out.visited_symbols@.len() == 0,
            out.visited_files@.len() == 0,
            out.pending@.len() == 0,
            out.reached@.len() == 0,
            out.seed_count == seeds@.len(),
            !out.capped,
    {
        broadcast use text::group_views;
        let mut origins: Vec<String> = Vec::new();
        origins.push(path.to_owned());
        assert(text::views(origins@) =~= seq![path@]);
        let mut file_frontier: Vec<String> = Vec::new();
        if indexed {
            file_frontier.push(path.to_owned());
            assert(text::views(file_frontier@) =~= seq![path@]);
        }
        let seed_count: usize = seeds.len();
        Walk {
            file_target: true,
            max_depth,
            max_frontier,
            origins,
            depth: 1,
            frontier: seeds,
            file_frontier,
            visited_symbols: Vec::new(),
            visited_files: Vec::new(),
            pending: Vec::new(),
            reached: Vec::new(),
            seed_count,
            capped: false,
        }
    }

    /// A walk from the definitions of a name: the files they stand in are the
    /// origins.
    pub fn for_symbol(seeds: Vec<Symbol>, max_depth: u32, max_frontier: usize) -> (out: Walk)
        ensures
            !out.file_target,
            out.max_depth == max_depth,
            out.max_frontier == max_frontier,
            text::views(out.origins@) == files_of(seeds@),
            out.depth == 1,
            out.frontier@ == seeds@,
            out.file_frontier@.len() == 0,
            out.visited_symbols@.len() == 0,
            out.visited_files@.len() == 0,
            out.pending@.len() == 0,
            out.reached@.len() == 0,
            out.seed_count == seeds@.len(),
            !out.capped,
    {
        broadcast use text::group_views;
        let mut origins: Vec<String> = Vec::new();
        let mut i: usize = 0;
        while i < seeds.len()
            invariant
                i <= seeds.len(),
                text::views(origins@) == files_of(seeds@).take(i as int),
            decreases seeds.len() - i,
        {
            broadcast use text::group_views;
            assert(files_of(seeds@).take(i + 1) =~= files_of(seeds@).take(i as int).push(
                seeds@[i as int].file_path@,
            ));
            origins.push(seeds[i].file_path.clone());
            i += 1;
        }
        assert(files_of(seeds@).take(seeds@.len() as int) =~= files_of(seeds@));
        let seed_count: usize = seeds.len();
        Walk {
            file_target: false,
            max_depth,
            max_frontier,
            origins,
            depth: 1,
            frontier: seeds,
            file_frontier: Vec::new(),
            visited_symbols: Vec::new(),
            visited_files: Vec::new(),
            pending: Vec::new(),
            reached: Vec::new(),
            seed_count,
            capped: false,
        }
    }

    /// Whether this level has anything to look for.
    pub fn is_idle(&self) -> (r: bool)
        ensures
            r == (self.frontier@.len() == 0 && self.file_frontier@.len() == 0),
    {
        self.frontier.len() == 0 && self.file_frontier.len() == 0
    }

    /// Marks the frontier symbol at `i` as visited; whether it was new.
    pub fn visit(&mut self, i: usize) -> (r: bool)
        requires
            i < old(self).frontier.len(),
        ensures
            r == !crate::symbols::keys(old(self).visited_symbols@).contains(
                old(self).frontier@[i as int].key(),
            ),
            *final(self) == (Walk {
                visited_symbols: final(self).visited_symbols,
                ..*old(self)
            }),
            final(self).visited_symbols@ == if r {
                old(self).visited_symbols@.push(old(self).frontier@[i as int])
            } else {
                old(self).visited_symbols@
            },
    {
        if crate::symbols::has_symbol(&self.visited_symbols, &self.frontier[i]) {
            return false;
        }
        let s = self.frontier[i].clone();
        self.visited_symbols.push(s);
        true
    }

    /// Marks the frontier file at `i` as visited; whether it was new.
    pub fn visit_file(&mut self, i: usize) -> (r: bool)
        requires
            i < old(self).file_frontier.len(),
        ensures
            r == !text::views(old(self).visited_files@).contains(
                old(self).file_frontier@[i as int]@,
            ),
            *final(self) == (Walk {
                visited_files: final(self).visited_files,
                ..*old(self)
            }),
            text::views(final(self).visited_files@) == if r {
                text::views(old(self).visited_files@).push(old(self).file_frontier@[i as int]@)
            } else {
                text::views(old(self).visited_files@)
            },
    {
        broadcast use text::group_views;
        if among(&self.visited_files, self.file_frontier[i].as_str()) {
            return false;
        }
        let s = self.file_frontier[i].clone();
        self.visited_files.push(s);
        true
    }

    /// Records the references that resolve to the frontier symbol at `i`.
    pub fn record_symbol(&mut self, i: usize, rows: &Vec<Reference>)
        requires
            i < old(self).frontier.len(),
        ensures
            symbol_recorded(*old(self), *final(self), i as int, rows@),
    {
        let ghost found = text::views(self.reached@);
        let ghost origins = text::views(self.origins@);
        let ghost through = |r: Reference| old(self).frontier@[i as int].name@;
        let ghost keep = |r: Reference| !origins.contains(r.from_file@);
        let ghost more = self.depth < self.max_depth;
        let mut k: usize = 0;
        proof {
            assert(rows@.take(0) =~= Seq::empty());
            reveal(Seq::filter);
            assert(self.pending@ + Seq::<Reference>::empty() =~= self.pending@);
        }
        while k < rows.len()
            invariant
                k <= rows.len(),
                i < self.frontier.len(),
                found == text::views(old(self).reached@),
                origins == text::views(old(self).origins@),
                more == (old(self).depth < old(self).max_depth),
                through == (|r: Reference| old(self).frontier@[i as int].name@),
                keep == (|r: Reference| !origins.contains(r.from_file@)),
                text::views(self.reached@) == noted_all(
                    found,
                    origins,
                    rows@.take(k as int),
                    through,
                    self.depth,
                ),
                self.pending@ == old(self).pending@ + if more {
                    rows@.take(k as int).filter(keep)
                } else {
                    Seq::empty()
                },
                *self == (Walk { reached: self.reached, pending: self.pending, ..*old(self) }),
            decreases rows.len() - k,
        {
            let r = &rows[k];
            proof {
                let t = rows@.take(k + 1);
                assert(t.drop_last() =~= rows@.take(k as int));
                assert(t.last() == r);
                reveal(Seq::filter);
            }
            if !among(&self.origins, r.from_file.as_str()) {
                note(
                    &mut self.reached,
                    r.from_file.as_str(),
                    self.depth,
                    self.frontier[i].name.as_str(),
                    r.kind,
                    r.line,
                );
                if self.depth < self.max_depth {
                    let ghost was = self.pending@;
                    self.pending.push(r.clone());
                    assert(self.pending@ =~= old(self).pending@ + rows@.take(k + 1).filter(keep));
                }
            }
            k += 1;
        }
        assert(rows@.take(rows@.len() as int) =~= rows@);
    }

    /// Records the import rows at the positions that `at` lists from `from` to
    /// `to`.
    pub fn record_imports(&mut self, imports: &Vec<Reference>, at: &Vec<usize>, from: usize, to: usize)
        requires
            from <= to <= at.len(),
            forall|k: int| 0 <= k < at@.len() ==> #[trigger] at@[k] < imports@.len(),
        ensures
            imports_recorded(
                *old(self),
                *final(self),
                rows_at(imports@, at@.subrange(from as int, to as int)),
            ),
    {
        let ghost found = text::views(self.reached@);
        let ghost origins = text::views(self.origins@);
        let ghost through = |r: Reference| r.to_name@;
        let ghost keep = |r: Reference| !origins.contains(r.from_file@);
        let ghost more = self.depth < self.max_depth;
        let ghost part = rows_at(imports@, at@.subrange(from as int, to as int));
        let mut k: usize = from;
        proof {
            assert(part.take(0) =~= Seq::empty());
            reveal(Seq::filter);
            assert(self.pending@ + Seq::<Reference>::empty() =~= self.pending@);
        }
        while k < to
            invariant
                from <= k <= to <= at.len(),
                forall|k: int| 0 <= k < at@.len() ==> #[trigger] at@[k] < imports@.len(),
                part == rows_at(imports@, at@.subrange(from as int, to as int)),
                found == text::views(old(self).reached@),
                origins == text::views(old(self).origins@),
                more == (old(self).depth < old(self).max_depth),
                through == (|r: Reference| r.to_name@),
                keep == (|r: Reference| !origins.contains(r.from_file@)),
                text::views(self.reached@) == noted_all(
                    found,
                    origins,
                    part.take(k - from),
                    through,
                    self.depth,
                ),
                self.pending@ == old(self).pending@ + if more {
                    part.take(k - from).filter(keep)
                } else {
                    Seq::empty()
                },
                self.seed_count == if part.take(k - from).filter(keep).len() > 0 && old(self).seed_count
                    == 0 {
                    1
                } else {
                    old(self).seed_count
                },
                *self == (Walk {
                    reached: self.reached,
                    pending: self.pending,
                    seed_count: self.seed_count,
                    ..*old(self)
                }),
            decreases to - k,
        {
            assert(at@[k as int] < imports@.len());
            let r = &imports[at[k]];
            let ghost t = part.take(k - from + 1);
            proof {
                assert(t.drop_last() =~= part.take(k - from));
                assert(t.last() == r);
                reveal(Seq::filter);
            }
            if !among(&self.origins, r.from_file.as_str()) {
                if self.seed_count == 0 {
                    self.seed_count = 1;
                }
                note(
                    &mut self.reached,
                    r.from_file.as_str(),
                    self.depth,
                    r.to_name.as_str(),
                    r.kind,
                    r.line,
                );
                assert(t.filter(keep) == part.take(k - from).filter(keep).push(*r));
                if self.depth < self.max_depth {
                    self.pending.push(r.clone());
                    assert(self.pending@ =~= old(self).pending@ + t.filter(keep));
                }
            } else {
                assert(t.filter(keep) == part.take(k - from).filter(keep));
            }
            k += 1;
        }
        assert(part.take(to - from) =~= part);
    }

    /// Goes on to the next level: the definitions that the pending references
    /// stand in, and the files they come from, each bounded. Whether anything
    /// is left to look for.
    pub fn advance(&mut self, by_file: &Vec<FileSymbols>) -> (r: bool)
        requires
            old(self).depth < old(self).max_depth,
        ensures
            advanced(*old(self), *final(self), by_file@),
            r == (final(self).frontier@.len() > 0 || final(self).file_frontier@.len() > 0),
    {
        broadcast use text::group_views;
        let mut symbols = next_symbols_of(&self.pending, by_file);
        let mut files = next_files_of(self.file_target, &self.pending, &self.visited_files);
        let ghost all_files = text::views(files@);
        if symbols.len() > self.max_frontier {
            symbols.truncate(self.max_frontier);
            self.capped = true;
        }
        if files.len() > self.max_frontier {
            files.truncate(self.max_frontier);
            self.capped = true;
            assert(text::views(files@) =~= all_files.take(self.max_frontier as int));
        }
        self.frontier = symbols;
        self.file_frontier = files;
        self.pending = Vec::new();
        self.depth = self.depth + 1;
        !self.is_idle()
    }

    /// Notes that the walk stopped short.
    pub fn stop_short(&mut self)
        ensures
            *final(self) == (Walk { capped: true, ..*old(self) }),
    {
        self.capped = true;
    }
}

/// Finds the import rows from position `from` to `to` that name a file.
pub fn positions_naming(imports: &Vec<Reference>, file: &str, from: usize, to: usize) -> (out: Vec<usize>)
    requires
        from <= to <= imports.len(),
    ensures
        out@ == naming(imports@, file@, from as int, to as int),
{
    let mut out: Vec<usize> = Vec::new();
    let mut k: usize = from;
    while k < to
        invariant
            from <= k <= to <= imports.len(),
            out@ == naming(imports@, file@, from as int, k as int),
        decreases to - k,
    {
        let r = &imports[k];
        if import_ref_targets_file(r.to_name.as_str(), r.from_file.as_str(), file) {
            out.push(k);
        }
        k += 1;
    }
    out
}

fn next_symbols_of(rows: &Vec<Reference>, by_file: &Vec<FileSymbols>) -> (out: Vec<Symbol>)
    ensures
        out@ == next_symbols(rows@, by_file@),
{
    let mut out: Vec<Symbol> = Vec::new();
    let mut k: usize = 0;
    assert(rows@.take(0) =~= Seq::empty());
    while k < rows.len()
        invariant
            k <= rows.len(),
            out@ == next_symbols(rows@.take(k as int), by_file@),
        decreases rows.len() - k,
    {
        let r = &rows[k];
        proof {
            let t = rows@.take(k + 1);
            assert(t.drop_last() =~= rows@.take(k as int));
            assert(t.last() == r);
            let c = callers(rows@.take(k as int), by_file@);
            match caller(*r, by_file@) {
                Some(s) => {
                    assert(c.push(s).drop_last() =~= c);
                },
                None => {},
            }
        }
        if let Some(f) = listed(by_file, r.from_file.as_str()) {
            if let Some(i) = crate::symbols::owner_of(&by_file[f].symbols, &r.from_symbol, r.line) {
                let s = &by_file[f].symbols[i];
                if !crate::symbols::has_symbol(&out, s) {
                    out.push(s.clone());
                }
            }
        }
        k += 1;
    }
    assert(rows@.take(rows@.len() as int) =~= rows@);
    out
}

fn listed(by_file: &Vec<FileSymbols>, path: &str) -> (r: Option<usize>)
    ensures
        match r {
            Some(i) => listed_from(by_file@, path@, 0) == Some(i as int) && i < by_file.len(),
            None => listed_from(by_file@, path@, 0) is None,
        },
{
    let mut i: usize = 0;
    while i < by_file.len()
        invariant
            i <= by_file.len(),
            listed_from(by_file@, path@, 0) == listed_from(by_file@, path@, i as int),
        decreases by_file.len() - i,
    {
        if same(by_file[i].path.as_str(), path) {
            return Some(i);
        }
        i += 1;
    }
    None
}

fn next_files_of(file_target: bool, rows: &Vec<Reference>, visited: &Vec<String>) -> (out: Vec<String>)
    ensures
        text::views(out@) == next_files(file_target, rows@, text::views(visited@)),
{
    broadcast use text::group_views;
    let mut out: Vec<String> = Vec::new();
    if !file_target {
        return out;
    }
    let mut sources: Vec<String> = Vec::new();
    let mut k: usize = 0;
    while k < rows.len()
        invariant
            k <= rows.len(),
            text::views(sources@) == sources_of(rows@).take(k as int),
        decreases rows.len() - k,
    {
        broadcast use text::group_views;
        assert(sources_of(rows@).take(k + 1) =~= sources_of(rows@).take(k as int).push(
            rows@[k as int].from_file@,
        ));
        sources.push(rows[k].from_file.clone());
        k += 1;
    }
    assert(sources_of(rows@).take(rows@.len() as int) =~= sources_of(rows@));
    let all = ascending_list(&sources);
    let ghost fresh = |p: Seq<char>| !text::views(visited@).contains(p);
    let ghost seen = text::views(all@);
    let mut j: usize = 0;
    proof {
        assert(seen.take(0) =~= Seq::empty());
        reveal(Seq::filter);
    }
    while j < all.len()
        invariant
            j <= all.len(),
            seen == text::views(all@),
            fresh == (|p: Seq<char>| !text::views(visited@).contains(p)),
            text::views(out@) == seen.take(j as int).filter(fresh),
        decreases all.len() - j,
    {
        broadcast use text::group_views;
        proof {
            let t = seen.take(j + 1);
            assert(t.drop_last() =~= seen.take(j as int));
            assert(t.last() == all@[j as int]@);
            reveal(Seq::filter);
        }
        if !among(visited, all[j].as_str()) {
            out.push(all[j].clone());
        }
        j += 1;
    }
    assert(seen.take(all@.len() as int) =~= seen);
    out
}

// ---------------------------------------------------------------------------
// The outcome
// ---------------------------------------------------------------------------

/// A dependent file with its first reasons.
#[derive(Debug)]
pub struct ImpactEntry {
    pub file_path: String,
    pub distance: u32,
    pub category: FileCategory,
    pub reasons: Vec<ImpactReason>,
}

#[verifier::ext_equal]
pub struct EntryView {
    pub path: Seq<char>,
    pub distance: u32,
    pub category: FileCategory,
    pub reasons: Seq<(Seq<char>, ReferenceKind, u32)>,
}

impl View for ImpactEntry {
    type V = EntryView;

    open spec fn view(&self) -> EntryView {
        EntryView {
            path: self.file_path@,
            distance: self.distance,
            category: self.category,
            reasons: text::views(self.reasons@),
        }
    }
}

/// Nearer files first, then those with more reasons, then by path.
impl Ranked for ImpactEntry {
    open spec fn ahead(a: EntryView, b: EntryView) -> bool {
        ||| a.distance < b.distance
        ||| a.distance == b.distance && a.reasons.len() > b.reasons.len()
        ||| a.distance == b.distance && a.reasons.len() == b.reasons.len() && order::text_before(
            a.path,
            b.path,
        )
    }

    fn is_ahead(&self, other: &ImpactEntry) -> (r: bool) {
        if self.distance != other.distance {
            self.distance < other.distance
        } else if self.reasons.len() != other.reasons.len() {
            self.reasons.len() > other.reasons.len()
        } else {
            before(self.file_path.as_str(), other.file_path.as_str())
        }
    }

    proof fn ahead_is_asymmetric(a: EntryView, b: EntryView) {
        if order::text_before(a.path, b.path) {
            String::ahead_is_asymmetric(a.path, b.path);
        }
    }

    proof fn ahead_is_negatively_transitive(a: EntryView, b: EntryView, c: EntryView) {
        if !order::text_before(a.path, b.path) && !order::text_before(b.path, c.path) {
            String::ahead_is_negatively_transitive(a.path, b.path, c.path);
        }
    }
}

/// The number of distinct edges from one file.
#[derive(Debug)]
pub struct EdgeCount {
    pub path: String,
    pub count: u32,
}

impl View for EdgeCount {
    type V = (Seq<char>, u32);

    open spec fn view(&self) -> (Seq<char>, u32) {
        (self.path@, self.count)
    }
}

#[derive(Debug)]
pub struct WalkOutcome {
    pub entries: Vec<ImpactEntry>,
    /// The walk stopped short; every count is a lower bound.
    pub capped: bool,
    /// Distinct edges per dependent file. The reasons of an entry stop at ten
    /// and cannot rank files that have more.
    pub edge_counts: Vec<EdgeCount>,
    pub seed_count: usize,
}

/// The entry for a reached file.
pub open spec fn entry(r: ReachedView, category: FileCategory) -> EntryView {
    EntryView {
        path: r.path,
        distance: r.distance,
        category: category,
        reasons: at_most(r.edges, MAX_REASONS),
    }
}

/// The entries for the reached files, those of source files alone where
/// `source_only` asks for it.
pub open spec fn entries(
    found: Seq<ReachedView>,
    categories: Seq<FileCategory>,
    source_only: bool,
) -> Seq<EntryView>
    decreases found.len(),
{
    if found.len() == 0 {
        Seq::empty()
    } else {
        let front = entries(found.drop_last(), categories, source_only);
        let category = categories[found.len() - 1];
        if source_only && category != FileCategory::Source {
            front
        } else {
            front.push(entry(found.last(), category))
        }
    }
}

/// The edge counts of the reached files.
pub open spec fn edge_counts(found: Seq<ReachedView>) -> Seq<(Seq<char>, u32)> {
    found.map_values(|r: ReachedView| (r.path, (r.edges.len() as usize) as u32))
}

/// The outcome of a walk. `categories` says of each reached file what it is
/// for.
pub open spec fn ends_in(
    walk: Walk,
    categories: Seq<FileCategory>,
    source_only: bool,
    out: WalkOutcome,
) -> bool {
    &&& text::views(out.entries@) == order::sorted::<ImpactEntry>(
        entries(text::views(walk.reached@), categories, source_only),
    )
    &&& text::views(out.edge_counts@) == edge_counts(text::views(walk.reached@))
    &&& out.capped == walk.capped
    &&& out.seed_count == walk.seed_count
}

/// Ends a walk. `categories` says of each reached file what it is for.
pub fn finish(walk: Walk, categories: &Vec<FileCategory>, source_only: bool) -> (out: WalkOutcome)
    requires
        categories@.len() == walk.reached@.len(),
    ensures
        ends_in(walk, categories@, source_only, out),
{
    broadcast use text::group_views;
    let capped = walk.capped;
    let seed_count: usize = walk.seed_count;
    let ghost items = walk.reached@;
    let ghost found = text::views(walk.reached@);
    let mut counts: Vec<EdgeCount> = Vec::new();
    let mut list: Vec<ImpactEntry> = Vec::new();
    let n: usize = categories.len();
    let mut i: usize = 0;
    assert(found.take(0) =~= Seq::empty());
    assert(edge_counts(found).take(0) =~= Seq::empty());
    for r in it: walk.reached
        invariant
            it.seq() == items,
            found == text::views(items),
            i == it.index(),
            categories@.len() == items.len(),
            n == items.len(),
            text::views(counts@) == edge_counts(found).take(i as int),
            text::views(list@) == entries(found.take(i as int), categories@, source_only),
    {
        broadcast use text::group_views;
        proof {
            let t = found.take(i + 1);
            assert(t.drop_last() =~= found.take(i as int));
            assert(found[i as int] == r@);
            assert(t.last() == r@);
            assert(edge_counts(found).take(i + 1) =~= edge_counts(found).take(i as int).push(
                (r.path@, (r.edges@.len() as usize) as u32),
            ));
        }
        let ghost edges = text::views(r.edges@);
        counts.push(EdgeCount { path: r.path.clone(), count: r.edges.len() as u32 });
        let category = categories[i];
        if !source_only || category == FileCategory::Source {
            let mut reasons = r.edges;
            if reasons.len() > MAX_REASONS {
                reasons.truncate(MAX_REASONS);
                assert(text::views(reasons@) =~= edges.take(MAX_REASONS as int));
            }
            list.push(
                ImpactEntry { file_path: r.path, distance: r.distance, category, reasons },
            );
        }
        i += 1;
    }
    assert(found.take(items.len() as int) =~= found);
    assert(edge_counts(found).take(items.len() as int) =~= edge_counts(found));
    WalkOutcome { entries: sort(list), capped, edge_counts: counts, seed_count }
}

/// An empty outcome: nothing was walked.
pub fn nothing_walked(capped: bool) -> (out: WalkOutcome)
    ensures
        out.entries@.len() == 0,
        out.edge_counts@.len() == 0,
        out.seed_count == 0,
        out.capped == capped,
{
    WalkOutcome { entries: Vec::new(), capped, edge_counts: Vec::new(), seed_count: 0 }
}

// ---------------------------------------------------------------------------
// Seeds
// ---------------------------------------------------------------------------

/// The qualified names of definitions.
pub open spec fn qualified_names(s: Seq<Symbol>) -> Seq<Seq<char>> {
    s.map_values(|x: Symbol| x.qualified_name@)
}

/// A bare name that definitions with different qualified names share.
pub open spec fn ambiguous(name: Seq<char>, symbols: Seq<Symbol>) -> bool {
    !qualified(name) && symbols.len() > 1 && order::ascending_set(qualified_names(symbols)).len()
        > 1
}

/// Refuses an ambiguous name and says how to qualify it. Definitions that
/// share one qualified name cannot be told apart, so their union stands.
pub fn check_unambiguous(name: &str, symbols: &Vec<Symbol>) -> (r: Result<(), String>)
    ensures
        match r {
            Ok(()) => !ambiguous(name@, symbols@),
            Err(message) => ambiguous(name@, symbols@) && message@ == "ambiguous symbol '"@ + name@
                + "': "@ + text::decimal(symbols@.len()) + " definitions \u{2014} qualify with one of: "@
                + text::joined(order::ascending_set(qualified_names(symbols@)), ", "@)
                + ", or target a single file instead"@,
        },
{
    broadcast use text::group_views;
    if is_qualified_symbol_name(name) || symbols.len() <= 1 {
        return Ok(());
    }
    let mut names: Vec<String> = Vec::new();
    let mut i: usize = 0;
    while i < symbols.len()
        invariant
            i <= symbols.len(),
            text::views(names@) == qualified_names(symbols@).take(i as int),
        decreases symbols.len() - i,
    {
        broadcast use text::group_views;
        assert(qualified_names(symbols@).take(i + 1) =~= qualified_names(symbols@).take(
            i as int,
        ).push(symbols@[i as int].qualified_name@));
        names.push(symbols[i].qualified_name.clone());
        i += 1;
    }
    assert(qualified_names(symbols@).take(symbols@.len() as int) =~= qualified_names(symbols@));
    let candidates = ascending_list(&names);
    if candidates.len() <= 1 {
        return Ok(());
    }
    let mut message = String::from_str("ambiguous symbol '");
    message.append(name);
    message.append("': ");
    let count = decimal_of(symbols.len() as u64);
    message.append(count.as_str());
    message.append(" definitions \u{2014} qualify with one of: ");
    let list = join(&candidates, ", ");
    message.append(list.as_str());
    message.append(", or target a single file instead");
    Err(message)
}

/// The rows whose resolved definitions hold the one that `key` identifies.
pub open spec fn rows_resolving_to(
    rows: Seq<Reference>,
    resolved: Seq<Vec<Symbol>>,
    key: model::SymbolKey,
) -> Seq<Reference>
    decreases rows.len(),
{
    if rows.len() == 0 {
        rows
    } else {
        let front = rows_resolving_to(rows.drop_last(), resolved, key);
        if crate::symbols::keys(resolved[rows.len() - 1]@).contains(key) {
            front.push(rows.last())
        } else {
            front
        }
    }
}

/// Keeps the rows whose call site resolves to `sym`: a reverse edge has to
/// agree with forward resolution. `resolved` holds the definitions that each
/// row's spelling resolves to from its file.
pub fn resolve_references_to_symbol(
    sym: &Symbol,
    rows: &Vec<Reference>,
    resolved: &Vec<Vec<Symbol>>,
) -> (out: Vec<Reference>)
    requires
        rows@.len() == resolved@.len(),
    ensures
        out@ == rows_resolving_to(rows@, resolved@, sym.key()),
{
    let mut out: Vec<Reference> = Vec::new();
    let mut i: usize = 0;
    assert(rows@.take(0) =~= Seq::empty());
    while i < rows.len()
        invariant
            i <= rows.len(),
            rows@.len() == resolved@.len(),
            out@ == rows_resolving_to(rows@.take(i as int), resolved@, sym.key()),
        decreases rows.len() - i,
    {
        assert(rows@.take(i + 1).drop_last() =~= rows@.take(i as int));
        if crate::symbols::has_symbol(&resolved[i], sym) {
            out.push(rows[i].clone());
        }
        i += 1;
    }
    assert(rows@.take(rows@.len() as int) =~= rows@);
    out
}

} // verus!
