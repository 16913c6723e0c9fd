//! What makes a file risky to change, said in notes.
//!
//! The weighted score is a float and stays with the caller; the signals that
//! it is made of, and every note, are decided here.
use vstd::prelude::*;
use vstd::string::*;
use crate::history::coupling;
use crate::history::coupling::{span_unknown_count, span_unknown_note, CoChangeRow};
use crate::impact;
use crate::impact::{EntryView, ImpactEntry};
use crate::impact_report;
use crate::model::FileCategory;
use crate::order;
use crate::order::{among, ascending_list, before, sort, Ranked};
use crate::text;
use crate::text::{concat2, concat3, concat4, concat5, decimal_of, join, same};

verus! {

/// Depth of the reverse-dependency walk behind the blast radius and the test
/// check.
pub const DEPENDENT_DEPTH: u32 = 2;

pub const TEST_GAP_NOTE: &'static str =
    "test gap: no test found by sibling convention, co-change history, or within 2 dependency hops";

pub const TEST_GAP_UNMEASURED_NOTE: &'static str =
    "test gap: no test found by sibling convention or co-change history; the dependency-hop check could not run (file has no indexed symbols)";

pub const TEST_GAP_CAPPED_NOTE: &'static str =
    "test gap: no test found by sibling convention or co-change history; the 2-hop dependency check was truncated at its traversal cap, so a test beyond the cap may exist";

pub const NO_STRUCTURAL_SIGNALS_NOTE: &'static str =
    "structural signals unavailable: file has no indexed symbols, so the reverse-dependency walk and the dependency-hop test check could not run (0 dependents means unknown, not zero)";

pub const CYCLE_SIGNAL_FAILED_NOTE: &'static str =
    "import-cycle detection failed; cycle membership is unknown and omitted from the score";

pub const NO_HISTORY_NOTE: &'static str =
    "no git history for this file (file too new, or `codesage git-index` hasn't been run)";

pub const NOT_INDEXED_NOTE: &'static str =
    "file is not indexed (path may be wrong, excluded, deleted, or index is stale)";

/// One note where the condition holds, none where it does not.
pub open spec fn maybe(condition: bool, note: Seq<char>) -> Seq<Seq<char>> {
    if condition {
        seq![note]
    } else {
        Seq::empty()
    }
}

/// The test-gap note claims the dependency check only where it was completed.
pub open spec fn gap_text(no_symbols: bool, walk_capped: bool) -> Seq<char> {
    if no_symbols {
        TEST_GAP_UNMEASURED_NOTE@
    } else if walk_capped {
        TEST_GAP_CAPPED_NOTE@
    } else {
        TEST_GAP_NOTE@
    }
}

pub fn test_gap_note(no_symbols: bool, walk_capped: bool) -> (out: String)
    ensures
        out@ == gap_text(no_symbols, walk_capped),
{
    if no_symbols {
        String::from_str(TEST_GAP_UNMEASURED_NOTE)
    } else if walk_capped {
        String::from_str(TEST_GAP_CAPPED_NOTE)
    } else {
        String::from_str(TEST_GAP_NOTE)
    }
}

// ---------------------------------------------------------------------------
// Signals
// ---------------------------------------------------------------------------

/// A set of files that import each other in a ring or a knot.
#[derive(Debug)]
pub struct CycleEntry {
    pub members: Vec<String>,
    pub size: u32,
    pub max_churn_file: Option<String>,
}

/// An import inside a cycle. `rank` orders the edges by how often the two
/// files change together, and `shown` is that weight in digits; a weight of
/// zero is not `positive`.
#[derive(Debug)]
pub struct CycleEdge {
    pub from: String,
    pub to: String,
    pub rank: u64,
    pub positive: bool,
    pub shown: String,
}

/// What the history holds of a file.
#[derive(Debug, Clone, Copy)]
pub struct FileHistory {
    pub total_commits: u32,
    pub fix_count: u32,
}

/// Everything that was measured of one file.
#[derive(Debug)]
pub struct RiskSignals {
    pub file: String,
    pub history: Option<FileHistory>,
    /// The churn percentile in percent, where the file is a hotspot.
    pub hotspot_percent: Option<u32>,
    /// The share of fixes in percent.
    pub fix_percent: u32,
    /// The pairs of the file, by weight alone.
    pub coupled: Vec<CoChangeRow>,
    /// The pairs that are displayed, by recurrence.
    pub ranked: Vec<CoChangeRow>,
    pub dependents: Vec<ImpactEntry>,
    pub walk_capped: bool,
    pub has_symbols: bool,
    pub has_sibling_test: bool,
    pub cycles: Vec<CycleEntry>,
    pub cycle_failed: bool,
    /// The imports within the file's cycle; `None` where they could not be
    /// read.
    pub cycle_edges: Option<Vec<CycleEdge>>,
    pub trust_boundaries: Vec<String>,
    pub author_note: String,
}

/// The entries as they are seen.
pub open spec fn dependents(s: RiskSignals) -> Seq<EntryView> {
    text::views(s.dependents@)
}

/// Nothing was walked: there are no dependents and no symbol to start from.
pub open spec fn unmeasured(s: RiskSignals) -> bool {
    s.dependents@.len() == 0 && !s.has_symbols
}

/// How many source files depend on the file.
pub open spec fn source_dependents(s: RiskSignals) -> nat {
    impact_report::of_category(dependents(s), FileCategory::Source)
}

/// The entry at `i` is the nearest test, and the first of the nearest.
pub open spec fn is_nearest_test(e: Seq<EntryView>, i: int) -> bool {
    &&& 0 <= i < e.len()
    &&& e[i].category == FileCategory::Test
    &&& forall|j: int|
        0 <= j < e.len() && (#[trigger] e[j]).category == FileCategory::Test ==> e[i].distance
            < e[j].distance || (e[i].distance == e[j].distance && i <= j)
}

pub open spec fn nearest_test(e: Seq<EntryView>) -> Option<int> {
    if exists|i: int| is_nearest_test(e, i) {
        Some(choose|i: int| is_nearest_test(e, i))
    } else {
        None
    }
}

pub open spec fn any_test(rows: Seq<CoChangeRow>) -> bool {
    exists|i: int| 0 <= i < rows.len() && (#[trigger] rows[i]).is_test
}

pub open spec fn has_coupled_test(s: RiskSignals) -> bool {
    any_test(s.coupled@) || any_test(s.ranked@)
}

/// No test was found: not beside the file, not among the files it changes
/// with, and not among its dependents.
pub open spec fn test_gap(s: RiskSignals) -> bool {
    !has_coupled_test(s) && !s.has_sibling_test && nearest_test(dependents(s)) is None
}

/// The files of pairs.
pub open spec fn pair_files(rows: Seq<CoChangeRow>) -> Seq<Seq<char>> {
    rows.map_values(|r: CoChangeRow| r.file@)
}

/// The coupled tests that the displayed pairs leave out.
pub open spec fn hidden_tests(s: RiskSignals) -> Seq<CoChangeRow> {
    s.coupled@.filter(|r: CoChangeRow| r.is_test && !pair_files(s.ranked@).contains(r.file@))
}

/// Fixes make up at least two in five of five or more commits.
pub open spec fn fix_heavy(h: Option<FileHistory>) -> bool {
    match h {
        Some(h) => h.total_commits >= 5 && h.fix_count * 5 >= h.total_commits * 2,
        None => false,
    }
}

pub fn is_fix_heavy(h: &Option<FileHistory>) -> (r: bool)
    ensures
        r == fix_heavy(*h),
{
    match h {
        Some(h) => h.total_commits >= 5 && (h.fix_count as u64) * 5 >= (h.total_commits as u64) * 2,
        None => false,
    }
}

// ---------------------------------------------------------------------------
// Cycles
// ---------------------------------------------------------------------------

/// The position of the first cycle that holds the file, from `i` on.
pub open spec fn cycle_from(cycles: Seq<CycleEntry>, file: Seq<char>, i: int) -> Option<int>
    decreases cycles.len() - i,
{
    if i < 0 || i >= cycles.len() {
        None
    } else if text::views(cycles[i].members@).contains(file) {
        Some(i)
    } else {
        cycle_from(cycles, file, i + 1)
    }
}

pub open spec fn others(members: Seq<Seq<char>>, file: Seq<char>) -> Seq<Seq<char>> {
    members.filter(|m: Seq<char>| m != file)
}

/// Whether the file is in a cycle, the size of the cycle, and its other
/// members.
pub open spec fn membership(cycles: Seq<CycleEntry>, file: Seq<char>) -> (
    bool,
    u32,
    Seq<Seq<char>>,
) {
    match cycle_from(cycles, file, 0) {
        Some(i) => (true, cycles[i].size, others(text::views(cycles[i].members@), file)),
        None => (false, 0, Seq::empty()),
    }
}

pub fn cycle_membership(cycles: &Vec<CycleEntry>, file_path: &str) -> (out: (
    bool,
    u32,
    Vec<String>,
))
    ensures
        (out.0, out.1, text::views(out.2@)) == membership(cycles@, file_path@),
{
    broadcast use text::group_views;
    let mut i: usize = 0;
    while i < cycles.len()
        invariant
            i <= cycles.len(),
            cycle_from(cycles@, file_path@, 0) == cycle_from(cycles@, file_path@, i as int),
        decreases cycles.len() - i,
    {
        broadcast use text::group_views;
        if among(&cycles[i].members, file_path) {
            let rest = others_of(&cycles[i].members, file_path);
            return (true, cycles[i].size, rest);
        }
        i += 1;
    }
    (false, 0, Vec::new())
}

fn others_of(members: &Vec<String>, file: &str) -> (out: Vec<String>)
    ensures
        text::views(out@) == others(text::views(members@), file@),
{
    broadcast use text::group_views;
    let ghost all = text::views(members@);
    let ghost keep = |m: Seq<char>| m != file@;
    let mut out: Vec<String> = Vec::new();
    let mut i: usize = 0;
    proof {
        assert(all.take(0) =~= Seq::empty());
        reveal(Seq::filter);
    }
    while i < members.len()
        invariant
            i <= members.len(),
            all == text::views(members@),
            keep == (|m: Seq<char>| m != file@),
            text::views(out@) == all.take(i as int).filter(keep),
        decreases members.len() - i,
    {
        broadcast use text::group_views;
        proof {
            assert(all.take(i + 1).drop_last() =~= all.take(i as int));
            assert(all.take(i + 1).last() == members@[i as int]@);
            reveal(Seq::filter);
        }
        if !same(members[i].as_str(), file) {
            out.push(members[i].clone());
        }
        i += 1;
    }
    assert(all.take(members@.len() as int) =~= all);
    out
}

/// The files that edges lead to.
pub open spec fn edge_targets(edges: Seq<CycleEdge>) -> Seq<Seq<char>> {
    edges.map_values(|e: CycleEdge| e.to@)
}

/// How many edges lead to a file.
pub open spec fn in_degree(edges: Seq<CycleEdge>, file: Seq<char>) -> nat {
    edges.filter(|e: CycleEdge| e.to@ == file).len()
}

/// Every file of the cycle is imported at most twice within it, and there are
/// at most half again as many imports as files.
pub open spec fn ring_like(edges: Seq<CycleEdge>, files: nat) -> bool {
    &&& forall|i: int|
        0 <= i < edges.len() ==> in_degree(edges, (#[trigger] edges[i]).to@) <= 2
    &&& edges.len() <= files + files / 2
}

/// The edge at `i` has the lowest weight, and among equals stands first by
/// its files.
pub open spec fn is_weakest(edges: Seq<CycleEdge>, i: int) -> bool {
    &&& 0 <= i < edges.len()
    &&& forall|j: int| #![trigger edges[j]] 0 <= j < edges.len() ==> !weaker(edges[j], edges[i]) && (
    weaker(edges[i], edges[j]) || i <= j)
}

pub open spec fn weaker(a: CycleEdge, b: CycleEdge) -> bool {
    ||| a.rank < b.rank
    ||| a.rank == b.rank && order::text_before(a.from@, b.from@)
    ||| a.rank == b.rank && a.from@ == b.from@ && order::text_before(a.to@, b.to@)
}

pub open spec fn weakest(edges: Seq<CycleEdge>) -> int {
    choose|i: int| is_weakest(edges, i)
}

/// A file of a cycle with the number of imports of it.
#[derive(Debug)]
pub struct Hub {
    pub file: String,
    pub degree: usize,
}

impl View for Hub {
    type V = (Seq<char>, nat);

    open spec fn view(&self) -> (Seq<char>, nat) {
        (self.file@, self.degree as nat)
    }
}

/// Most-imported first.
impl Ranked for Hub {
    open spec fn ahead(a: (Seq<char>, nat), b: (Seq<char>, nat)) -> bool {
        a.1 > b.1
    }

    fn is_ahead(&self, other: &Hub) -> (r: bool) {
        self.degree > other.degree
    }

    proof fn ahead_is_asymmetric(a: (Seq<char>, nat), b: (Seq<char>, nat)) {
    }

    proof fn ahead_is_negatively_transitive(
        a: (Seq<char>, nat),
        b: (Seq<char>, nat),
        c: (Seq<char>, nat),
    ) {
    }
}

/// The files of a cycle by how often they are imported within it, equals by
/// name.
pub open spec fn hubs(edges: Seq<CycleEdge>) -> Seq<(Seq<char>, nat)> {
    order::sorted::<Hub>(
        order::ascending_set(edge_targets(edges)).map_values(
            |f: Seq<char>| (f, in_degree(edges, f)),
        ),
    )
}

/// How to break a cycle: a ring at its weakest edge, a knot at its hubs.
pub open spec fn break_text(edges: Seq<CycleEdge>, files: nat) -> Seq<char> {
    if ring_like(edges, files) {
        let e = edges[weakest(edges)];
        if e.positive {
            "candidate break point: "@ + e.from@ + " → "@ + e.to@ + " (lowest co-change weight "@
                + e.shown@ + " among cycle edges)"@
        } else {
            "candidate break point: "@ + e.from@ + " → "@ + e.to@
                + " (these cycle files do not co-change in git history)"@
        }
    } else {
        "cycle is hub-dominated (not a simple ring); cutting one edge won't break it — most-depended-on within the cycle (decoupling targets): "@
            + text::joined(
            impact::at_most(hubs(edges), 3).map_values(|h: (Seq<char>, nat)| h.0),
            ", "@,
        )
    }
}

fn in_degree_of(edges: &Vec<CycleEdge>, file: &str) -> (n: usize)
    ensures
        n == in_degree(edges@, file@),
{
    let ghost p = |e: CycleEdge| e.to@ == file@;
    let mut n: usize = 0;
    let mut i: usize = 0;
    proof {
        assert(edges@.take(0) =~= Seq::empty());
        reveal(Seq::filter);
    }
    while i < edges.len()
        invariant
            i <= edges.len(),
            p == (|e: CycleEdge| e.to@ == file@),
            n == edges@.take(i as int).filter(p).len(),
            n <= i,
        decreases edges.len() - i,
    {
        proof {
            assert(edges@.take(i + 1).drop_last() =~= edges@.take(i as int));
            assert(edges@.take(i + 1).last() == edges@[i as int]);
            reveal(Seq::filter);
        }
        if same(edges[i].to.as_str(), file) {
            n += 1;
        }
        i += 1;
    }
    assert(edges@.take(edges@.len() as int) =~= edges@);
    n
}

fn is_ring_like(edges: &Vec<CycleEdge>, peers: usize) -> (r: bool)
    ensures
        r == ring_like(edges@, peers as nat + 1),
{
    let mut i: usize = 0;
    while i < edges.len()
        invariant
            i <= edges.len(),
            forall|j: int| 0 <= j < i ==> in_degree(edges@, (#[trigger] edges@[j]).to@) <= 2,
        decreases edges.len() - i,
    {
        if in_degree_of(edges, edges[i].to.as_str()) > 2 {
            assert(in_degree(edges@, edges@[i as int].to@) > 2);
            return false;
        }
        i += 1;
    }
    let files: u128 = peers as u128 + 1;
    edges.len() as u128 <= files + files / 2
}

proof fn lemma_weaker(a: CycleEdge, b: CycleEdge, c: CycleEdge)
    ensures
        !(weaker(a, b) && weaker(b, a)),
        weaker(a, b) && !weaker(c, b) ==> weaker(a, c),
        !weaker(a, b) && weaker(c, b) ==> weaker(c, a),
{
    order::lemma_text_before_total(a.from@, b.from@);
    order::lemma_text_before_total(b.from@, c.from@);
    order::lemma_text_before_total(a.from@, c.from@);
    order::lemma_text_before_total(a.to@, b.to@);
    order::lemma_text_before_total(b.to@, c.to@);
    order::lemma_text_before_total(a.to@, c.to@);
    order::lemma_text_before_irreflexive(a.from@);
    order::lemma_text_before_irreflexive(b.from@);
    order::lemma_text_before_irreflexive(c.from@);
    order::lemma_text_before_irreflexive(a.to@);
    order::lemma_text_before_irreflexive(b.to@);
    order::lemma_text_before_irreflexive(c.to@);
    lemma_triples(a.from@, b.from@, c.from@);
    lemma_triples(a.to@, b.to@, c.to@);
}

proof fn lemma_triples(a: Seq<char>, b: Seq<char>, c: Seq<char>)
    ensures
        order::text_before(a, b) && order::text_before(b, c) ==> order::text_before(a, c),
        order::text_before(a, c) && order::text_before(c, b) ==> order::text_before(a, b),
        order::text_before(b, a) && order::text_before(a, c) ==> order::text_before(b, c),
        order::text_before(b, c) && order::text_before(c, a) ==> order::text_before(b, a),
        order::text_before(c, a) && order::text_before(a, b) ==> order::text_before(c, b),
        order::text_before(c, b) && order::text_before(b, a) ==> order::text_before(c, a),
        !(order::text_before(a, b) && order::text_before(b, a)),
        !(order::text_before(a, c) && order::text_before(c, a)),
        !(order::text_before(b, c) && order::text_before(c, b)),
{
    if order::text_before(a, b) && order::text_before(b, c) {
        order::lemma_text_before_transitive(a, b, c);
    }
    if order::text_before(a, c) && order::text_before(c, b) {
        order::lemma_text_before_transitive(a, c, b);
    }
    if order::text_before(b, a) && order::text_before(a, c) {
        order::lemma_text_before_transitive(b, a, c);
    }
    if order::text_before(b, c) && order::text_before(c, a) {
        order::lemma_text_before_transitive(b, c, a);
    }
    if order::text_before(c, a) && order::text_before(a, b) {
        order::lemma_text_before_transitive(c, a, b);
    }
    if order::text_before(c, b) && order::text_before(b, a) {
        order::lemma_text_before_transitive(c, b, a);
    }
    if order::text_before(a, b) {
        String::ahead_is_asymmetric(a, b);
    }
    if order::text_before(a, c) {
        String::ahead_is_asymmetric(a, c);
    }
    if order::text_before(b, c) {
        String::ahead_is_asymmetric(b, c);
    }
}

fn is_weaker(a: &CycleEdge, b: &CycleEdge) -> (r: bool)
    ensures
        r == weaker(*a, *b),
{
    if a.rank != b.rank {
        return a.rank < b.rank;
    }
    if before(a.from.as_str(), b.from.as_str()) {
        return true;
    }
    same(a.from.as_str(), b.from.as_str()) && before(a.to.as_str(), b.to.as_str())
}

fn weakest_of(edges: &Vec<CycleEdge>) -> (r: usize)
    requires
        edges@.len() > 0,
    ensures
        is_weakest(edges@, r as int),
        r == weakest(edges@),
{
    let mut best: usize = 0;
    let mut i: usize = 1;
    proof {
        lemma_weaker(edges@[0], edges@[0], edges@[0]);
    }
    while i < edges.len()
        invariant
            0 <= best < i <= edges.len(),
            forall|j: int|
                #![trigger edges@[j]]
                0 <= j < i ==> !weaker(edges@[j], edges@[best as int]) && (weaker(
                    edges@[best as int],
                    edges@[j],
                ) || best <= j),
        decreases edges.len() - i,
    {
        proof {
            assert forall|j: int| #![trigger edges@[j]] 0 <= j <= i implies true by {
            }
            if weaker(edges@[i as int], edges@[best as int]) {
                assert forall|j: int|
                    #![trigger edges@[j]]
                    0 <= j <= i implies !weaker(edges@[j], edges@[i as int]) && (weaker(
                    edges@[i as int],
                    edges@[j],
                ) || i <= j) by {
                    lemma_weaker(edges@[i as int], edges@[best as int], edges@[j]);
                    lemma_weaker(edges@[i as int], edges@[j], edges@[i as int]);
                    lemma_weaker(edges@[i as int], edges@[i as int], edges@[i as int]);
                }
            } else {
                lemma_weaker(edges@[best as int], edges@[i as int], edges@[best as int]);
            }
        }
        if is_weaker(&edges[i], &edges[best]) {
            best = i;
        }
        i += 1;
    }
    proof {
        assert(is_weakest(edges@, best as int));
        let w = weakest(edges@);
        assert(is_weakest(edges@, w));
        assert(edges@[w] == edges@[w] && edges@[best as int] == edges@[best as int]);
    }
    best
}

fn hubs_of(edges: &Vec<CycleEdge>) -> (out: Vec<Hub>)
    ensures
        text::views(out@) == hubs(edges@),
{
    broadcast use text::group_views;
    let mut targets: Vec<String> = Vec::new();
    let mut i: usize = 0;
    while i < edges.len()
        invariant
            i <= edges.len(),
            text::views(targets@) == edge_targets(edges@).take(i as int),
        decreases edges.len() - i,
    {
        broadcast use text::group_views;
        assert(edge_targets(edges@).take(i + 1) =~= edge_targets(edges@).take(i as int).push(
            edges@[i as int].to@,
        ));
        targets.push(edges[i].to.clone());
        i += 1;
    }
    assert(edge_targets(edges@).take(edges@.len() as int) =~= edge_targets(edges@));
    let names = ascending_list(&targets);
    let ghost want = text::views(names@).map_values(|f: Seq<char>| (f, in_degree(edges@, f)));
    let mut out: Vec<Hub> = Vec::new();
    let mut j: usize = 0;
    while j < names.len()
        invariant
            j <= names.len(),
            want == text::views(names@).map_values(|f: Seq<char>| (f, in_degree(edges@, f))),
            text::views(out@) == want.take(j as int),
        decreases names.len() - j,
    {
        broadcast use text::group_views;
        assert(want.take(j + 1) =~= want.take(j as int).push(want[j as int]));
        assert(text::views(names@)[j as int] == names@[j as int]@);
        let degree: usize = in_degree_of(edges, names[j].as_str());
        out.push(Hub { file: names[j].clone(), degree });
        j += 1;
    }
    assert(want.take(names@.len() as int) =~= want);
    sort(out)
}

/// The note on how to break a cycle of a file and its `peers`.
pub fn cycle_break_note(edges: &Vec<CycleEdge>, peers: usize) -> (out: String)
    requires
        edges@.len() > 0,
    ensures
        out@ == break_text(edges@, peers as nat + 1),
{
    broadcast use text::group_views;
    if is_ring_like(edges, peers) {
        let w: usize = weakest_of(edges);
        let e = &edges[w];
        let mut out = concat4("candidate break point: ", e.from.as_str(), " → ", e.to.as_str());
        if e.positive {
            out.append(" (lowest co-change weight ");
            out.append(e.shown.as_str());
            out.append(" among cycle edges)");
        } else {
            out.append(" (these cycle files do not co-change in git history)");
        }
        out
    } else {
        let ranked = hubs_of(edges);
        let ghost want = impact::at_most(hubs(edges@), 3).map_values(|h: (Seq<char>, nat)| h.0);
        let mut names: Vec<String> = Vec::new();
        let mut i: usize = 0;
        while i < ranked.len() && i < 3
            invariant
                i <= ranked.len(),
                i <= 3,
                text::views(ranked@) == hubs(edges@),
                want == impact::at_most(hubs(edges@), 3).map_values(|h: (Seq<char>, nat)| h.0),
                text::views(names@) == want.take(i as int),
            decreases ranked.len() - i,
        {
            broadcast use text::group_views;
            assert(text::views(ranked@)[i as int] == ranked@[i as int]@);
            assert(want.take(i + 1) =~= want.take(i as int).push(ranked@[i as int].file@));
            names.push(ranked[i].file.clone());
            i += 1;
        }
        assert(want.take(i as int) =~= want);
        let list = join(&names, ", ");
        concat2(
            "cycle is hub-dominated (not a simple ring); cutting one edge won't break it — most-depended-on within the cycle (decoupling targets): ",
            list.as_str(),
        )
    }
}

// ---------------------------------------------------------------------------
// Notes
// ---------------------------------------------------------------------------

/// A few names and how many more there are.
pub open spec fn sampled(names: Seq<Seq<char>>, n: nat) -> Seq<char> {
    if names.len() > n {
        text::joined(names.take(n as int), ", "@) + " (+"@ + text::decimal(
            (names.len() - n) as nat,
        ) + " more)"@
    } else {
        text::joined(names, ", "@)
    }
}

fn sample(names: &Vec<String>, n: usize) -> (out: String)
    ensures
        out@ == sampled(text::views(names@), n as nat),
{
    broadcast use text::group_views;
    if names.len() > n {
        let ghost all = text::views(names@);
        let mut some: Vec<String> = Vec::new();
        let mut i: usize = 0;
        while i < n
            invariant
                i <= n < names.len(),
                all == text::views(names@),
                text::views(some@) == all.take(i as int),
            decreases n - i,
        {
            broadcast use text::group_views;
            assert(all.take(i + 1) =~= all.take(i as int).push(names@[i as int]@));
            some.push(names[i].clone());
            i += 1;
        }
        let list = join(&some, ", ");
        let more = decimal_of((names.len() - n) as u64);
        concat4(list.as_str(), " (+", more.as_str(), " more)")
    } else {
        join(names, ", ")
    }
}

/// The hidden coupled tests whose span is unknown, or known.
pub open spec fn hidden_files(s: RiskSignals, unknown: bool) -> Seq<Seq<char>> {
    pair_files(
        hidden_tests(s).filter(|r: CoChangeRow| (r.first_observed_at is None) == unknown),
    )
}

pub open spec fn hidden_text(s: RiskSignals, unknown: bool) -> Seq<char> {
    if unknown {
        "span unknown coupled test(s) exist below the ranked `top_coupled` list: "@ + sampled(
            hidden_files(s, true),
            3,
        ) + "; indexed before recurrence tracking, run `codesage git-index --full`"@
    } else {
        "one-off coupled test(s) exist below the ranked `top_coupled` list: "@ + sampled(
            hidden_files(s, false),
            3,
        )
    }
}

/// What is said about tests: the gap, or the tests that stand behind the
/// claim that there is none but are not displayed.
pub open spec fn test_notes(s: RiskSignals) -> Seq<Seq<char>> {
    if test_gap(s) {
        seq![gap_text(unmeasured(s), s.walk_capped)]
    } else if hidden_tests(s).len() > 0 && !any_test(s.ranked@) {
        maybe(hidden_files(s, false).len() > 0, hidden_text(s, false)) + maybe(
            hidden_files(s, true).len() > 0,
            hidden_text(s, true),
        )
    } else if !s.has_sibling_test && !has_coupled_test(s) {
        match nearest_test(dependents(s)) {
            Some(i) => seq![
                "no direct test; test "@ + dependents(s)[i].path + " reaches this file in "@
                    + text::decimal(dependents(s)[i].distance as nat) + " dependency hop(s)"@,
            ],
            None => Seq::empty(),
        }
    } else {
        Seq::empty()
    }
}

/// What is said about an import cycle.
pub open spec fn cycle_notes(s: RiskSignals) -> Seq<Seq<char>> {
    let (in_cycle, size, peers) = membership(s.cycles@, s.file@);
    if in_cycle {
        seq![
            "in import cycle of "@ + text::decimal(size as nat) + " files: "@ + sampled(peers, 5),
        ] + match s.cycle_edges {
            Some(edges) => maybe(edges@.len() > 0, break_text(edges@, peers.len() + 1)),
            None => Seq::empty(),
        }
    } else {
        Seq::empty()
    }
}

/// What is said about measurements that are missing or bounded.
pub open spec fn measurement_notes(s: RiskSignals) -> Seq<Seq<char>> {
    maybe(s.history is None, NO_HISTORY_NOTE@) + maybe(unmeasured(s), NO_STRUCTURAL_SIGNALS_NOTE@)
        + maybe(
        s.walk_capped,
        "reverse-dependency walk was truncated at its internal frontier cap; "@ + text::decimal(
            source_dependents(s),
        ) + " dependents is a lower bound"@,
    ) + maybe(s.cycle_failed, CYCLE_SIGNAL_FAILED_NOTE@)
}

/// What is said about churn, fixes, dependents and coupling.
pub open spec fn pressure_notes(s: RiskSignals) -> Seq<Seq<char>> {
    (match s.hotspot_percent {
        Some(p) => seq!["hotspot: churn percentile "@ + text::decimal(p as nat) + "%"@],
        None => Seq::empty(),
    }) + (match s.history {
        Some(h) => maybe(
            fix_heavy(s.history),
            "fix-heavy: "@ + text::decimal(h.fix_count as nat) + "/"@ + text::decimal(
                h.total_commits as nat,
            ) + " commits ("@ + text::decimal(s.fix_percent as nat) + "%) tagged as fixes"@,
        ),
        None => Seq::empty(),
    }) + maybe(
        source_dependents(s) >= 10,
        "wide blast radius: "@ + text::decimal(source_dependents(s))
            + " files depend on this (depth-2)"@,
    ) + maybe(
        s.coupled@.len() >= 5,
        "high coupling: "@ + text::decimal(s.coupled@.len())
            + " files historically change with this"@,
    ) + maybe(
        coupling::unknown_spans(s.ranked@) > 0,
        coupling::span_unknown_text(
            coupling::unknown_spans(s.ranked@),
            "this file's top "@ + text::decimal(s.ranked@.len()) + " co-change pairs"@,
        ),
    )
}

pub open spec fn boundary_notes(s: RiskSignals) -> Seq<Seq<char>> {
    maybe(
        s.trust_boundaries@.len() >= 3,
        "crosses "@ + text::decimal(s.trust_boundaries@.len()) + " trust boundaries ("@
            + text::joined(text::views(s.trust_boundaries@), ", "@)
            + ") — security review recommended"@,
    )
}

/// Everything that is said of a file.
pub open spec fn risk_notes(s: RiskSignals) -> Seq<Seq<char>> {
    measurement_notes(s) + pressure_notes(s) + test_notes(s) + cycle_notes(s) + boundary_notes(s)
        + seq![s.author_note@]
}

fn nearest_test_of(entries: &Vec<ImpactEntry>) -> (r: Option<usize>)
    ensures
        match r {
            Some(i) => nearest_test(text::views(entries@)) == Some(i as int) && i < entries.len(),
            None => nearest_test(text::views(entries@)) is None,
        },
{
    broadcast use text::group_views;
    let ghost e = text::views(entries@);
    let mut best: Option<usize> = None;
    let mut i: usize = 0;
    while i < entries.len()
        invariant
            i <= entries.len(),
            e == text::views(entries@),
            match best {
                Some(b) => b < i && e[b as int].category == FileCategory::Test && forall|j: int|
                    0 <= j < i && (#[trigger] e[j]).category == FileCategory::Test
                        ==> e[b as int].distance < e[j].distance || (e[b as int].distance
                        == e[j].distance && b <= j),
                None => forall|j: int|
                    0 <= j < i ==> (#[trigger] e[j]).category != FileCategory::Test,
            },
        decreases entries.len() - i,
    {
        broadcast use text::group_views;
        assert(e[i as int] == entries@[i as int]@);
        if entries[i].category == FileCategory::Test {
            match best {
                Some(b) => {
                    assert(e[b as int] == entries@[b as int]@);
                    if entries[i].distance < entries[b].distance {
                        best = Some(i);
                    }
                },
                None => {
                    best = Some(i);
                },
            }
        }
        i += 1;
    }
    proof {
        match best {
            Some(b) => {
                assert(is_nearest_test(e, b as int));
                let c = nearest_test(e)->0;
                assert(is_nearest_test(e, c));
                assert(e[c].category == FileCategory::Test && e[b as int].category
                    == FileCategory::Test);
            },
            None => {},
        }
    }
    best
}

fn has_test(rows: &Vec<CoChangeRow>) -> (r: bool)
    ensures
        r == any_test(rows@),
{
    let mut i: usize = 0;
    while i < rows.len()
        invariant
            i <= rows.len(),
            forall|j: int| 0 <= j < i ==> !(#[trigger] rows@[j]).is_test,
        decreases rows.len() - i,
    {
        if rows[i].is_test {
            assert(rows@[i as int].is_test);
            return true;
        }
        i += 1;
    }
    false
}

fn lists_file(rows: &Vec<CoChangeRow>, file: &str) -> (r: bool)
    ensures
        r == pair_files(rows@).contains(file@),
{
    let mut i: usize = 0;
    while i < rows.len()
        invariant
            i <= rows.len(),
            forall|j: int| 0 <= j < i ==> pair_files(rows@)[j] != file@,
        decreases rows.len() - i,
    {
        if same(rows[i].file.as_str(), file) {
            assert(pair_files(rows@)[i as int] == file@);
            return true;
        }
        i += 1;
    }
    false
}

/// The hidden coupled tests by whether their span is unknown.
fn hidden_tests_of(s: &RiskSignals, unknown: bool) -> (out: Vec<String>)
    ensures
        text::views(out@) == hidden_files(*s, unknown),
{
    broadcast use text::group_views;
    let ghost all = s.coupled@;
    let ghost hid = |r: CoChangeRow| r.is_test && !pair_files(s.ranked@).contains(r.file@);
    let ghost side = |r: CoChangeRow| (r.first_observed_at is None) == unknown;
    let mut out: Vec<String> = Vec::new();
    let mut i: usize = 0;
    proof {
        assert(all.take(0) =~= Seq::empty());
        reveal(Seq::filter);
        assert(pair_files(Seq::empty()) =~= Seq::empty());
    }
    while i < s.coupled.len()
        invariant
            i <= s.coupled.len(),
            all == s.coupled@,
            hid == (|r: CoChangeRow| r.is_test && !pair_files(s.ranked@).contains(r.file@)),
            side == (|r: CoChangeRow| (r.first_observed_at is None) == unknown),
            text::views(out@) == pair_files(all.take(i as int).filter(hid).filter(side)),
        decreases s.coupled.len() - i,
    {
        broadcast use text::group_views;
        let r = &s.coupled[i];
        let ghost head = all.take(i as int).filter(hid);
        proof {
            assert(all.take(i + 1).drop_last() =~= all.take(i as int));
            assert(all.take(i + 1).last() == r);
            reveal(Seq::filter);
            assert(head.push(*r).drop_last() =~= head);
            assert(pair_files(head.filter(side).push(*r)) =~= pair_files(head.filter(side)).push(
                r.file@,
            ));
        }
        if r.is_test && !lists_file(&s.ranked, r.file.as_str()) {
            assert(all.take(i + 1).filter(hid) == head.push(*r));
            if r.first_observed_at.is_none() == unknown {
                assert(head.push(*r).filter(side) == head.filter(side).push(*r));
                out.push(r.file.clone());
            } else {
                assert(head.push(*r).filter(side) == head.filter(side));
            }
        } else {
            assert(all.take(i + 1).filter(hid) == head);
        }
        i += 1;
    }
    assert(all.take(all.len() as int) =~= all);
    out
}

proof fn lemma_hidden_split(rows: Seq<CoChangeRow>)
    ensures
        (rows.len() > 0) == (rows.filter(
            |r: CoChangeRow| (r.first_observed_at is None) == true,
        ).len() > 0 || rows.filter(|r: CoChangeRow| (r.first_observed_at is None) == false).len()
            > 0),
{
    reveal(Seq::filter);
    if rows.len() > 0 {
        assert(rows.drop_last().push(rows.last()) =~= rows);
    }
}

fn source_dependents_of(entries: &Vec<ImpactEntry>) -> (n: usize)
    ensures
        n == impact_report::of_category(text::views(entries@), FileCategory::Source),
{
    broadcast use text::group_views;
    let ghost e = text::views(entries@);
    let ghost p = |e: EntryView| e.category == FileCategory::Source;
    let mut n: usize = 0;
    let mut i: usize = 0;
    proof {
        assert(e.take(0) =~= Seq::empty());
        reveal(Seq::filter);
    }
    while i < entries.len()
        invariant
            i <= entries.len(),
            e == text::views(entries@),
            p == (|e: EntryView| e.category == FileCategory::Source),
            n == e.take(i as int).filter(p).len(),
            n <= i,
        decreases entries.len() - i,
    {
        broadcast use text::group_views;
        proof {
            assert(e.take(i + 1).drop_last() =~= e.take(i as int));
            assert(e.take(i + 1).last() == entries@[i as int]@);
            reveal(Seq::filter);
        }
        if entries[i].category == FileCategory::Source {
            n += 1;
        }
        i += 1;
    }
    assert(e.take(e.len() as int) =~= e);
    n
}

fn push_measurements(notes: &mut Vec<String>, s: &RiskSignals, dependents: usize)
    requires
        dependents == source_dependents(*s),
    ensures
        text::views(final(notes)@) == text::views(old(notes)@) + measurement_notes(*s),
{
    broadcast use text::group_views;
    if s.history.is_none() {
        notes.push(String::from_str(NO_HISTORY_NOTE));
    }
    if s.dependents.len() == 0 && !s.has_symbols {
        notes.push(String::from_str(NO_STRUCTURAL_SIGNALS_NOTE));
    }
    if s.walk_capped {
        let n = decimal_of(dependents as u64);
        notes.push(
            concat3(
                "reverse-dependency walk was truncated at its internal frontier cap; ",
                n.as_str(),
                " dependents is a lower bound",
            ),
        );
    }
    if s.cycle_failed {
        notes.push(String::from_str(CYCLE_SIGNAL_FAILED_NOTE));
    }
    assert(text::views(notes@) =~= text::views(old(notes)@) + measurement_notes(*s));
}

fn push_pressures(notes: &mut Vec<String>, s: &RiskSignals, dependents: usize)
    requires
        dependents == source_dependents(*s),
    ensures
        text::views(final(notes)@) == text::views(old(notes)@) + pressure_notes(*s),
{
    broadcast use text::group_views;
    if let Some(p) = s.hotspot_percent {
        let n = decimal_of(p as u64);
        notes.push(concat3("hotspot: churn percentile ", n.as_str(), "%"));
    }
    if let Some(h) = s.history {
        if is_fix_heavy(&s.history) {
            let fixes = decimal_of(h.fix_count as u64);
            let total = decimal_of(h.total_commits as u64);
            let percent = decimal_of(s.fix_percent as u64);
            let mut note = concat4("fix-heavy: ", fixes.as_str(), "/", total.as_str());
            note.append(" commits (");
            note.append(percent.as_str());
            note.append("%) tagged as fixes");
            notes.push(note);
        }
    }
    if dependents >= 10 {
        let n = decimal_of(dependents as u64);
        notes.push(
            concat3("wide blast radius: ", n.as_str(), " files depend on this (depth-2)"),
        );
    }
    if s.coupled.len() >= 5 {
        let n = decimal_of(s.coupled.len() as u64);
        notes.push(concat3("high coupling: ", n.as_str(), " files historically change with this"));
    }
    let unknown: usize = span_unknown_count(&s.ranked);
    if unknown > 0 {
        let n = decimal_of(s.ranked.len() as u64);
        let scope = concat3("this file's top ", n.as_str(), " co-change pairs");
        notes.push(span_unknown_note(unknown, scope.as_str()));
    }
    assert(text::views(notes@) =~= text::views(old(notes)@) + pressure_notes(*s));
}

fn push_hidden(notes: &mut Vec<String>, s: &RiskSignals)
    ensures
        text::views(final(notes)@) == text::views(old(notes)@) + (maybe(
            hidden_files(*s, false).len() > 0,
            hidden_text(*s, false),
        ) + maybe(hidden_files(*s, true).len() > 0, hidden_text(*s, true))),
{
    broadcast use text::group_views;
    let known = hidden_tests_of(s, false);
    if known.len() > 0 {
        let list = sample(&known, 3);
        notes.push(
            concat2(
                "one-off coupled test(s) exist below the ranked `top_coupled` list: ",
                list.as_str(),
            ),
        );
    }
    let unknown = hidden_tests_of(s, true);
    if unknown.len() > 0 {
        let list = sample(&unknown, 3);
        notes.push(
            concat3(
                "span unknown coupled test(s) exist below the ranked `top_coupled` list: ",
                list.as_str(),
                "; indexed before recurrence tracking, run `codesage git-index --full`",
            ),
        );
    }
    assert(text::views(notes@) =~= text::views(old(notes)@) + (maybe(
        hidden_files(*s, false).len() > 0,
        hidden_text(*s, false),
    ) + maybe(hidden_files(*s, true).len() > 0, hidden_text(*s, true))));
}

fn push_tests(notes: &mut Vec<String>, s: &RiskSignals) -> (gap: bool)
    ensures
        text::views(final(notes)@) == text::views(old(notes)@) + test_notes(*s),
        gap == test_gap(*s),
{
    broadcast use text::group_views;
    let coupled_test = has_test(&s.coupled) || has_test(&s.ranked);
    let nearest = nearest_test_of(&s.dependents);
    let gap = !coupled_test && !s.has_sibling_test && nearest.is_none();
    let ghost was = text::views(notes@);
    if gap {
        notes.push(test_gap_note(s.dependents.len() == 0 && !s.has_symbols, s.walk_capped));
        assert(text::views(notes@) =~= was + test_notes(*s));
        return gap;
    }
    let known = hidden_tests_of(s, false);
    let unknown = hidden_tests_of(s, true);
    proof {
        lemma_hidden_split(hidden_tests(*s));
    }
    if (known.len() > 0 || unknown.len() > 0) && !has_test(&s.ranked) {
        push_hidden(notes, s);
    } else if !s.has_sibling_test && !coupled_test {
        if let Some(i) = nearest {
            let e = &s.dependents[i];
            assert(dependents(*s)[i as int] == e@);
            let hops = decimal_of(e.distance as u64);
            notes.push(
                concat5(
                    "no direct test; test ",
                    e.file_path.as_str(),
                    " reaches this file in ",
                    hops.as_str(),
                    " dependency hop(s)",
                ),
            );
        }
    }
    assert(text::views(notes@) =~= was + test_notes(*s));
    gap
}

fn push_cycle(notes: &mut Vec<String>, s: &RiskSignals, in_cycle: bool, size: u32, peers: &Vec<String>)
    requires
        (in_cycle, size, text::views(peers@)) == membership(s.cycles@, s.file@),
    ensures
        text::views(final(notes)@) == text::views(old(notes)@) + cycle_notes(*s),
{
    broadcast use text::group_views;
    if in_cycle {
        let n = decimal_of(size as u64);
        let list = sample(peers, 5);
        notes.push(concat4("in import cycle of ", n.as_str(), " files: ", list.as_str()));
        if let Some(edges) = &s.cycle_edges {
            if edges.len() > 0 {
                notes.push(cycle_break_note(edges, peers.len()));
            }
        }
    }
    assert(text::views(notes@) =~= text::views(old(notes)@) + cycle_notes(*s));
}

fn push_boundaries(notes: &mut Vec<String>, s: &RiskSignals)
    ensures
        text::views(final(notes)@) == text::views(old(notes)@) + boundary_notes(*s),
{
    broadcast use text::group_views;
    if s.trust_boundaries.len() >= 3 {
        let n = decimal_of(s.trust_boundaries.len() as u64);
        let list = join(&s.trust_boundaries, ", ");
        notes.push(
            concat5(
                "crosses ",
                n.as_str(),
                " trust boundaries (",
                list.as_str(),
                ") — security review recommended",
            ),
        );
    }
    assert(text::views(notes@) =~= text::views(old(notes)@) + boundary_notes(*s));
}

// ---------------------------------------------------------------------------
// The assessment
// ---------------------------------------------------------------------------

/// What is known of one file. `rank` orders the files of a patch by score:
/// the higher, the riskier, and equal scores have equal ranks.
#[derive(Debug)]
pub struct RiskAssessment {
    pub found: bool,
    pub file: String,
    pub rank: u64,
    pub hotspot: bool,
    pub fix_heavy: bool,
    pub total_commits: u32,
    pub fix_count: u32,
    pub dependent_files: usize,
    pub coupled_files: usize,
    pub test_gap: bool,
    pub in_cycle: bool,
    pub cycle_size: u32,
    pub cycle_files: Vec<String>,
    pub trust_boundaries: Vec<String>,
    pub notes: Vec<String>,
    /// The test gap was found without a complete dependency check.
    pub gap_check_partial: bool,
}

/// The assessment of a file that neither the index nor the history knows.
pub fn not_indexed(file: &str) -> (out: RiskAssessment)
    ensures
        !out.found,
        out.file@ == file@,
        out.rank == 0,
        !out.hotspot && !out.fix_heavy && !out.test_gap && !out.in_cycle && !out.gap_check_partial,
        out.total_commits == 0 && out.fix_count == 0 && out.cycle_size == 0,
        out.dependent_files == 0 && out.coupled_files == 0,
        out.cycle_files@.len() == 0 && out.trust_boundaries@.len() == 0,
        text::views(out.notes@) == seq![NOT_INDEXED_NOTE@],
{
    broadcast use text::group_views;
    let mut notes: Vec<String> = Vec::new();
    notes.push(String::from_str(NOT_INDEXED_NOTE));
    assert(text::views(notes@) =~= seq![NOT_INDEXED_NOTE@]);
    RiskAssessment {
        found: false,
        file: file.to_owned(),
        rank: 0,
        hotspot: false,
        fix_heavy: false,
        total_commits: 0,
        fix_count: 0,
        dependent_files: 0,
        coupled_files: 0,
        test_gap: false,
        in_cycle: false,
        cycle_size: 0,
        cycle_files: Vec::new(),
        trust_boundaries: Vec::new(),
        notes,
        gap_check_partial: false,
    }
}

/// What an assessment says of the signals of a file.
pub open spec fn assesses(out: RiskAssessment, s: RiskSignals) -> bool {
    &&& out.found
    &&& out.file@ == s.file@
    &&& out.rank == 0
    &&& out.hotspot == (s.hotspot_percent is Some)
    &&& out.fix_heavy == fix_heavy(s.history)
    &&& out.total_commits == (match s.history {
        Some(h) => h.total_commits,
        None => 0,
    })
    &&& out.fix_count == (match s.history {
        Some(h) => h.fix_count,
        None => 0,
    })
    &&& out.dependent_files == source_dependents(s)
    &&& out.coupled_files == s.coupled@.len()
    &&& out.test_gap == test_gap(s)
    &&& (out.in_cycle, out.cycle_size, text::views(out.cycle_files@)) == membership(
        s.cycles@,
        s.file@,
    )
    &&& text::views(out.trust_boundaries@) == text::views(s.trust_boundaries@)
    &&& text::views(out.notes@) == risk_notes(s)
    &&& out.gap_check_partial == (test_gap(s) && (unmeasured(s) || s.walk_capped))
}

/// Assesses a file from its signals.
pub fn assess_risk(s: &RiskSignals) -> (out: RiskAssessment)
    ensures
        assesses(out, *s),
{
    broadcast use text::group_views;
    let dependents: usize = source_dependents_of(&s.dependents);
    let (in_cycle, cycle_size, cycle_files) = cycle_membership(&s.cycles, s.file.as_str());
    let mut notes: Vec<String> = Vec::new();
    push_measurements(&mut notes, s, dependents);
    push_pressures(&mut notes, s, dependents);
    let gap = push_tests(&mut notes, s);
    push_cycle(&mut notes, s, in_cycle, cycle_size, &cycle_files);
    push_boundaries(&mut notes, s);
    notes.push(s.author_note.clone());
    assert(text::views(notes@) =~= risk_notes(*s));
    let (total_commits, fix_count): (u32, u32) = match s.history {
        Some(h) => (h.total_commits, h.fix_count),
        None => (0, 0),
    };
    RiskAssessment {
        found: true,
        file: s.file.clone(),
        rank: 0,
        hotspot: s.hotspot_percent.is_some(),
        fix_heavy: is_fix_heavy(&s.history),
        total_commits,
        fix_count,
        dependent_files: dependents,
        coupled_files: s.coupled.len(),
        test_gap: gap,
        in_cycle,
        cycle_size,
        cycle_files,
        trust_boundaries: text::copy_strings(&s.trust_boundaries),
        notes,
        gap_check_partial: gap && ((s.dependents.len() == 0 && !s.has_symbols) || s.walk_capped),
    }
}

} // verus!
