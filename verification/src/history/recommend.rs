//! Which tests to run after an edit.
use vstd::prelude::*;
use vstd::string::*;
use crate::history::siblings;
use crate::history::siblings::{is_fixture, test_sibling_paths};
use crate::order;
use crate::order::{among, ascending_list, before, sort, Ranked};
use crate::paths;
use crate::paths::extension_of;
use crate::text;
use crate::text::{concat2, concat3, concat4, decimal_of, join, same};

verus! {

/// How many paths a note names before the rest become a count.
pub const ABBREVIATE_CAP: usize = 5;

/// The first five paths, and how many more there are.
pub open spec fn abbreviated(paths: Seq<Seq<char>>) -> Seq<char> {
    if paths.len() > ABBREVIATE_CAP {
        text::joined(paths.take(ABBREVIATE_CAP as int), ", "@) + " and "@ + text::decimal(
            (paths.len() - ABBREVIATE_CAP) as nat,
        ) + " more"@
    } else {
        text::joined(paths, ", "@)
    }
}

/// The first five paths verbatim, the rest as a count.
pub fn abbreviate_paths(paths: &Vec<String>) -> (out: String)
    ensures
        out@ == abbreviated(text::views(paths@)),
{
    broadcast use text::group_views;
    if paths.len() <= ABBREVIATE_CAP {
        return join(paths, ", ");
    }
    let ghost all = text::views(paths@);
    let mut some: Vec<String> = Vec::new();
    let mut i: usize = 0;
    while i < ABBREVIATE_CAP
        invariant
            i <= ABBREVIATE_CAP < paths.len(),
            all == text::views(paths@),
            text::views(some@) == all.take(i as int),
        decreases ABBREVIATE_CAP - i,
    {
        broadcast use text::group_views;
        assert(all.take(i + 1) =~= all.take(i as int).push(paths@[i as int]@));
        some.push(paths[i].clone());
        i += 1;
    }
    let shown = join(&some, ", ");
    let more = decimal_of((paths.len() - ABBREVIATE_CAP) as u64);
    concat4(shown.as_str(), " and ", more.as_str(), " more")
}

// ---------------------------------------------------------------------------
// Sibling tests and tests that co-change
// ---------------------------------------------------------------------------

/// A file that co-changes with an input. `rank` orders the pairs by weight:
/// the higher, the stronger.
#[derive(Debug)]
pub struct CoupledRow {
    pub file: String,
    pub rank: u64,
    pub count: u32,
    /// The file is a test by its category.
    pub is_test: bool,
}

/// A test that co-changes with an input.
#[derive(Debug)]
pub struct CoupledTestEntry {
    pub file: String,
    pub rank: u64,
    pub count: u32,
    pub source: String,
}

#[verifier::ext_equal]
pub struct CoupledView {
    pub file: Seq<char>,
    pub rank: u64,
    pub count: u32,
    pub source: Seq<char>,
}

impl View for CoupledTestEntry {
    type V = CoupledView;

    open spec fn view(&self) -> CoupledView {
        CoupledView {
            file: self.file@,
            rank: self.rank,
            count: self.count,
            source: self.source@,
        }
    }
}

/// Stronger pairs first; equals keep their order.
impl Ranked for CoupledTestEntry {
    open spec fn ahead(a: CoupledView, b: CoupledView) -> bool {
        a.rank > b.rank
    }

    fn is_ahead(&self, other: &CoupledTestEntry) -> (r: bool) {
        self.rank > other.rank
    }

    proof fn ahead_is_asymmetric(a: CoupledView, b: CoupledView) {
    }

    proof fn ahead_is_negatively_transitive(a: CoupledView, b: CoupledView, c: CoupledView) {
    }
}

/// An input with the files that co-change with it.
#[derive(Debug)]
pub struct CoupledInput {
    pub path: String,
    pub rows: Vec<CoupledRow>,
}

/// Sibling tests and co-changing tests, before any note is written.
#[derive(Debug)]
pub struct BaseRecommendations {
    pub primary: Vec<String>,
    pub coupled: Vec<CoupledTestEntry>,
    /// Inputs whose `.phpt` directory is too large to list.
    pub suppressed_sources: Vec<String>,
    /// The tests in those directories: vouched for, just not listed.
    pub withheld: Vec<String>,
}

/// The sibling tests of several inputs, one input after the other.
pub open spec fn all_siblings(index: Seq<Seq<char>>, inputs: Seq<CoupledInput>) -> Seq<Seq<char>>
    decreases inputs.len(),
{
    if inputs.len() == 0 {
        Seq::empty()
    } else {
        all_siblings(index, inputs.drop_last()) + siblings::sibling_tests(
            index,
            inputs.last().path@,
        ).0
    }
}

/// The withheld tests of several inputs.
pub open spec fn all_withheld(index: Seq<Seq<char>>, inputs: Seq<CoupledInput>) -> Seq<Seq<char>>
    decreases inputs.len(),
{
    if inputs.len() == 0 {
        Seq::empty()
    } else {
        all_withheld(index, inputs.drop_last()) + siblings::sibling_tests(
            index,
            inputs.last().path@,
        ).1
    }
}

/// The inputs that have withheld tests.
pub open spec fn suppressed(index: Seq<Seq<char>>, inputs: Seq<CoupledInput>) -> Seq<Seq<char>>
    decreases inputs.len(),
{
    if inputs.len() == 0 {
        Seq::empty()
    } else {
        let front = suppressed(index, inputs.drop_last());
        if siblings::sibling_tests(index, inputs.last().path@).1.len() > 0 {
            front.push(inputs.last().path@)
        } else {
            front
        }
    }
}

/// The co-changing tests among rows: fixtures are no tests to run, and a test
/// in `primary` already says to run it.
pub open spec fn coupled_rows(
    rows: Seq<CoupledRow>,
    source: Seq<char>,
    primary: Seq<Seq<char>>,
) -> Seq<CoupledView>
    decreases rows.len(),
{
    if rows.len() == 0 {
        Seq::empty()
    } else {
        let front = coupled_rows(rows.drop_last(), source, primary);
        let r = rows.last();
        if r.is_test && !siblings::fixture(r.file@) && !primary.contains(r.file@) {
            front.push(CoupledView { file: r.file@, rank: r.rank, count: r.count, source: source })
        } else {
            front
        }
    }
}

pub open spec fn all_coupled(inputs: Seq<CoupledInput>, primary: Seq<Seq<char>>) -> Seq<CoupledView>
    decreases inputs.len(),
{
    if inputs.len() == 0 {
        Seq::empty()
    } else {
        all_coupled(inputs.drop_last(), primary) + coupled_rows(
            inputs.last().rows@,
            inputs.last().path@,
            primary,
        )
    }
}

pub open spec fn coupled_files(s: Seq<CoupledView>) -> Seq<Seq<char>> {
    s.map_values(|c: CoupledView| c.file)
}

/// The first entry of each file.
pub open spec fn first_by_file(s: Seq<CoupledView>) -> Seq<CoupledView>
    decreases s.len(),
{
    if s.len() == 0 {
        s
    } else {
        let front = first_by_file(s.drop_last());
        if coupled_files(front).contains(s.last().file) {
            front
        } else {
            front.push(s.last())
        }
    }
}

/// The co-changing tests of the inputs, the strongest pair of each file first.
pub open spec fn coupled_tests(inputs: Seq<CoupledInput>, primary: Seq<Seq<char>>) -> Seq<CoupledView> {
    first_by_file(order::sorted::<CoupledTestEntry>(all_coupled(inputs, primary)))
}

fn push_coupled(
    out: &mut Vec<CoupledTestEntry>,
    rows: &Vec<CoupledRow>,
    source: &str,
    primary: &Vec<String>,
)
    ensures
        text::views(final(out)@) == text::views(old(out)@) + coupled_rows(
            rows@,
            source@,
            text::views(primary@),
        ),
{
    broadcast use text::group_views;
    let ghost was = text::views(out@);
    let mut i: usize = 0;
    assert(rows@.take(0) =~= Seq::empty());
    assert(was + coupled_rows(rows@.take(0), source@, text::views(primary@)) =~= was);
    while i < rows.len()
        invariant
            i <= rows.len(),
            text::views(out@) == was + coupled_rows(
                rows@.take(i as int),
                source@,
                text::views(primary@),
            ),
        decreases rows.len() - i,
    {
        broadcast use text::group_views;
        let r = &rows[i];
        proof {
            assert(rows@.take(i + 1).drop_last() =~= rows@.take(i as int));
            assert(rows@.take(i + 1).last() == r);
            let head = coupled_rows(rows@.take(i as int), source@, text::views(primary@));
            let v = CoupledView {
                file: r.file@,
                rank: r.rank,
                count: r.count,
                source: source@,
            };
            assert(was + head.push(v) =~= (was + head).push(v));
        }
        if r.is_test && !is_fixture(r.file.as_str()) && !among(primary, r.file.as_str()) {
            out.push(
                CoupledTestEntry {
                    file: r.file.clone(),
                    rank: r.rank,
                    count: r.count,
                    source: source.to_owned(),
                },
            );
        }
        i += 1;
    }
    assert(rows@.take(rows@.len() as int) =~= rows@);
}

fn keep_first_by_file(v: Vec<CoupledTestEntry>) -> (out: Vec<CoupledTestEntry>)
    ensures
        text::views(out@) == first_by_file(text::views(v@)),
{
    broadcast use text::group_views;
    let ghost items = v@;
    let ghost all = text::views(v@);
    let mut files: Vec<String> = Vec::new();
    let mut out: Vec<CoupledTestEntry> = Vec::new();
    assert(all.take(0) =~= Seq::empty());
    assert(coupled_files(Seq::empty()) =~= Seq::empty());
    for e in it: v
        invariant
            it.seq() == items,
            all == text::views(items),
            text::views(out@) == first_by_file(all.take(it.index())),
            text::views(files@) == coupled_files(first_by_file(all.take(it.index()))),
    {
        broadcast use text::group_views;
        proof {
            let n = it.index();
            assert(all.take(n + 1).drop_last() =~= all.take(n));
            assert(all[n] == e@);
            assert(all.take(n + 1).last() == e@);
            let front = first_by_file(all.take(n));
            assert(coupled_files(front.push(e@)) =~= coupled_files(front).push(e@.file));
        }
        if !among(&files, e.file.as_str()) {
            files.push(e.file.clone());
            out.push(e);
        }
    }
    assert(all.take(all.len() as int) =~= all);
    out
}

/// What the two cheap signals recommend.
pub open spec fn base_of(
    out: BaseRecommendations,
    index: Seq<Seq<char>>,
    inputs: Seq<CoupledInput>,
) -> bool {
    let primary = order::ascending_set(all_siblings(index, inputs));
    &&& text::views(out.primary@) == primary
    &&& text::views(out.coupled@) == coupled_tests(inputs, primary)
    &&& text::views(out.suppressed_sources@) == suppressed(index, inputs)
    &&& text::views(out.withheld@) == all_withheld(index, inputs)
}

/// Collects the sibling tests of the inputs, each once and ascending, and the
/// tests that co-change with them, the strongest pair of each first.
pub fn base_recommendations(index: &Vec<String>, inputs: &Vec<CoupledInput>) -> (out:
    BaseRecommendations)
    ensures
        base_of(out, text::views(index@), inputs@),
{
    broadcast use text::group_views;
    let ghost idx = text::views(index@);
    let mut found: Vec<String> = Vec::new();
    let mut withheld: Vec<String> = Vec::new();
    let mut suppressed_sources: Vec<String> = Vec::new();
    let mut i: usize = 0;
    assert(inputs@.take(0) =~= Seq::empty());
    while i < inputs.len()
        invariant
            i <= inputs.len(),
            idx == text::views(index@),
            text::views(found@) == all_siblings(idx, inputs@.take(i as int)),
            text::views(withheld@) == all_withheld(idx, inputs@.take(i as int)),
            text::views(suppressed_sources@) == suppressed(idx, inputs@.take(i as int)),
        decreases inputs.len() - i,
    {
        broadcast use text::group_views;
        assert(inputs@.take(i + 1).drop_last() =~= inputs@.take(i as int));
        assert(inputs@.take(i + 1).last() == inputs@[i as int]);
        let (siblings, withheld_here) = test_sibling_paths(index, inputs[i].path.as_str());
        assert(text::views(withheld_here@).len() == withheld_here@.len());
        if withheld_here.len() > 0 {
            suppressed_sources.push(inputs[i].path.clone());
        }
        text::append_strings(&mut withheld, &withheld_here);
        text::append_strings(&mut found, &siblings);
        i += 1;
    }
    assert(inputs@.take(inputs@.len() as int) =~= inputs@);
    let primary = ascending_list(&found);
    let mut coupled: Vec<CoupledTestEntry> = Vec::new();
    let mut j: usize = 0;
    assert(inputs@.take(0) =~= Seq::empty());
    while j < inputs.len()
        invariant
            j <= inputs.len(),
            text::views(coupled@) == all_coupled(inputs@.take(j as int), text::views(primary@)),
        decreases inputs.len() - j,
    {
        assert(inputs@.take(j + 1).drop_last() =~= inputs@.take(j as int));
        assert(inputs@.take(j + 1).last() == inputs@[j as int]);
        push_coupled(&mut coupled, &inputs[j].rows, inputs[j].path.as_str(), &primary);
        j += 1;
    }
    assert(inputs@.take(inputs@.len() as int) =~= inputs@);
    let coupled = keep_first_by_file(sort(coupled));
    BaseRecommendations { primary, coupled, suppressed_sources, withheld }
}

// ---------------------------------------------------------------------------
// Notes
// ---------------------------------------------------------------------------

/// Why the advice to add tests is withheld though nothing was found.
#[derive(Debug, Clone, Copy, PartialEq, Eq, Structural)]
pub enum AbsenceOverride {
    /// Some other route found tests.
    OtherSignal,
    /// The search was cut short.
    WalkCapped,
    /// The index holds no test files at all.
    NoTestFilesIndexed,
    /// No input has a parser, so nothing was looked up.
    NoUsableInput,
}

pub open spec fn base_text(
    siblings: nat,
    coupled: nat,
    suppressed: Seq<Seq<char>>,
    absent: Option<AbsenceOverride>,
) -> Seq<Seq<char>> {
    if siblings == 0 && coupled == 0 && absent is None && suppressed.len() == 0 {
        seq![
            "no test files found via sibling conventions or co-change history; run `codesage git-index` if you haven't, or add tests for these files"@,
        ]
    } else {
        (if siblings > 0 {
            seq![text::decimal(siblings) + " sibling test file(s) found by language convention"@]
        } else {
            Seq::empty()
        }) + (if coupled > 0 {
            seq![
                text::decimal(coupled)
                    + " additional test file(s) suggested by co-change history"@,
            ]
        } else {
            Seq::empty()
        }) + (if suppressed.len() > 0 {
            seq![
                "tests/ directory next to "@ + text::joined(suppressed, ", "@)
                    + " holds more than 50 .phpt files — omitted from `primary` to keep output bounded; run that directory's suite"@,
            ]
        } else {
            Seq::empty()
        })
    }
}

/// The notes that both kinds of recommendation share.
pub fn base_notes(
    base: &BaseRecommendations,
    sibling_count: usize,
    absence_override: Option<AbsenceOverride>,
) -> (notes: Vec<String>)
    ensures
        text::views(notes@) == base_text(
            sibling_count as nat,
            base.coupled@.len(),
            text::views(base.suppressed_sources@),
            absence_override,
        ),
{
    broadcast use text::group_views;
    let mut notes: Vec<String> = Vec::new();
    assert(text::views(base.suppressed_sources@).len() == base.suppressed_sources@.len());
    let ghost want = base_text(
        sibling_count as nat,
        base.coupled@.len(),
        text::views(base.suppressed_sources@),
        absence_override,
    );
    if sibling_count == 0 && base.coupled.len() == 0 && absence_override.is_none()
        && base.suppressed_sources.len() == 0 {
        notes.push(
            String::from_str(
                "no test files found via sibling conventions or co-change history; run `codesage git-index` if you haven't, or add tests for these files",
            ),
        );
        assert(text::views(notes@) =~= want);
        return notes;
    }
    if sibling_count > 0 {
        let n = decimal_of(sibling_count as u64);
        notes.push(concat2(n.as_str(), " sibling test file(s) found by language convention"));
    }
    if base.coupled.len() > 0 {
        let n = decimal_of(base.coupled.len() as u64);
        notes.push(
            concat2(n.as_str(), " additional test file(s) suggested by co-change history"),
        );
    }
    if base.suppressed_sources.len() > 0 {
        let list = join(&base.suppressed_sources, ", ");
        notes.push(
            concat3(
                "tests/ directory next to ",
                list.as_str(),
                " holds more than 50 .phpt files — omitted from `primary` to keep output bounded; run that directory's suite",
            ),
        );
    }
    assert(text::views(notes@) =~= want);
    notes
}

/// A test that reaches a changed file through calls and imports.
#[derive(Debug)]
pub struct ReachableTestEntry {
    pub path: String,
    pub distance: u32,
    pub edge_count: u32,
    /// The input through which the test was reached.
    pub input: String,
}

#[verifier::ext_equal]
pub struct ReachableView {
    pub path: Seq<char>,
    pub distance: u32,
    pub edge_count: u32,
    pub input: Seq<char>,
}

impl View for ReachableTestEntry {
    type V = ReachableView;

    open spec fn view(&self) -> ReachableView {
        ReachableView {
            path: self.path@,
            distance: self.distance,
            edge_count: self.edge_count,
            input: self.input@,
        }
    }
}

/// Nearer tests first, then those with more edges, then by path.
impl Ranked for ReachableTestEntry {
    open spec fn ahead(a: ReachableView, b: ReachableView) -> bool {
        ||| a.distance < b.distance
        ||| a.distance == b.distance && a.edge_count > b.edge_count
        ||| a.distance == b.distance && a.edge_count == b.edge_count && order::text_before(
            a.path,
            b.path,
        )
    }

    fn is_ahead(&self, other: &ReachableTestEntry) -> (r: bool) {
        if self.distance != other.distance {
            self.distance < other.distance
        } else if self.edge_count != other.edge_count {
            self.edge_count > other.edge_count
        } else {
            before(self.path.as_str(), other.path.as_str())
        }
    }

    proof fn ahead_is_asymmetric(a: ReachableView, b: ReachableView) {
        if order::text_before(a.path, b.path) {
            String::ahead_is_asymmetric(a.path, b.path);
        }
    }

    proof fn ahead_is_negatively_transitive(a: ReachableView, b: ReachableView, c: ReachableView) {
        if !order::text_before(a.path, b.path) && !order::text_before(b.path, c.path) {
            String::ahead_is_negatively_transitive(a.path, b.path, c.path);
        }
    }
}

/// The tests to run, and what is not known about the rest.
#[derive(Debug)]
pub struct TestRecommendations {
    pub primary: Vec<String>,
    pub coupled: Vec<CoupledTestEntry>,
    pub reachable: Vec<ReachableTestEntry>,
    pub reachable_total: usize,
    pub reachable_capped: bool,
    pub reach_walk_capped: bool,
    pub unwalked_files: Vec<String>,
    pub partial_files: Vec<String>,
    pub unindexed_files: Vec<String>,
    pub no_symbol_files: Vec<String>,
    pub unsupported_files: Vec<String>,
    pub unmodelled: usize,
    pub indexed_test_files: usize,
    pub notes: Vec<String>,
}

/// The fields about reachability are as if nothing had been walked.
pub open spec fn walked_nothing(r: TestRecommendations) -> bool {
    &&& r.reachable@.len() == 0 && r.reachable_total == 0 && !r.reachable_capped
        && !r.reach_walk_capped
    &&& r.unwalked_files@.len() == 0 && r.partial_files@.len() == 0 && r.unindexed_files@.len() == 0
        && r.no_symbol_files@.len() == 0
    &&& r.unmodelled == 0 && r.indexed_test_files == 0
}

/// What convention and co-change alone recommend.
pub open spec fn suggests(out: TestRecommendations, index: Seq<Seq<char>>, inputs: Seq<CoupledInput>) -> bool {
    let primary = order::ascending_set(all_siblings(index, inputs));
    let coupled = coupled_tests(inputs, primary);
    &&& text::views(out.primary@) == primary
    &&& text::views(out.coupled@) == coupled
    &&& text::views(out.notes@) == base_text(primary.len(), coupled.len(), suppressed(index, inputs), None)
}

/// Recommends tests by convention and co-change alone, without a walk.
pub fn recommend_tests(index: &Vec<String>, inputs: &Vec<CoupledInput>) -> (out: TestRecommendations)
    ensures
        walked_nothing(out),
        out.unsupported_files@.len() == 0,
        suggests(out, text::views(index@), inputs@),
{
    let base = base_recommendations(index, inputs);
    assert(text::views(base.primary@).len() == base.primary@.len());
    assert(text::views(base.coupled@).len() == base.coupled@.len());
    let notes = base_notes(&base, base.primary.len(), None);
    TestRecommendations {
        primary: base.primary,
        coupled: base.coupled,
        reachable: Vec::new(),
        reachable_total: 0,
        reachable_capped: false,
        reach_walk_capped: false,
        unwalked_files: Vec::new(),
        partial_files: Vec::new(),
        unindexed_files: Vec::new(),
        no_symbol_files: Vec::new(),
        unsupported_files: Vec::new(),
        unmodelled: 0,
        indexed_test_files: 0,
        notes,
    }
}

// ---------------------------------------------------------------------------
// Inputs
// ---------------------------------------------------------------------------

/// An input path with what is known of it.
#[derive(Debug)]
pub struct KnownInput {
    pub path: String,
    /// The parser knows its language.
    pub parsed: bool,
    /// It is a test by its category.
    pub is_test: bool,
    pub indexed: bool,
}

/// Inputs sorted by what a walk can do with them.
#[derive(Debug)]
pub struct InputTriage {
    /// Indexed files that a walk starts from, changed tests among them.
    pub walkable: Vec<String>,
    /// Paths of a supported language that the index does not hold.
    pub unindexed: Vec<String>,
    /// Paths that no parser knows and that are no runnable test either.
    pub unsupported: Vec<String>,
    /// Inputs that are tests themselves.
    pub changed_tests: Vec<String>,
    /// Those of them that no parser knows: they have no edges to walk.
    pub unparsed_changed_tests: Vec<String>,
}

/// A runnable test type or a language that the parser knows.
pub open spec fn supported(k: KnownInput) -> bool {
    k.parsed || paths::extension(k.path@) == Some("phpt"@)
}

/// A runnable test among the inputs.
pub open spec fn changed_test(k: KnownInput) -> bool {
    supported(k) && k.is_test && !siblings::fixture(k.path@)
}

/// The paths of the inputs that satisfy a condition, in order.
pub open spec fn paths_where(inputs: Seq<KnownInput>, p: spec_fn(KnownInput) -> bool) -> Seq<
    Seq<char>,
> {
    inputs.filter(p).map_values(|k: KnownInput| k.path@)
}

pub open spec fn is_walkable(k: KnownInput) -> bool {
    supported(k) && !(changed_test(k) && !k.parsed) && k.indexed
}

pub open spec fn is_unindexed(k: KnownInput) -> bool {
    supported(k) && !(changed_test(k) && !k.parsed) && !k.indexed
}

pub open spec fn triages(t: InputTriage, inputs: Seq<KnownInput>) -> bool {
    &&& text::views(t.walkable@) == paths_where(inputs, |k: KnownInput| is_walkable(k))
    &&& text::views(t.unindexed@) == paths_where(inputs, |k: KnownInput| is_unindexed(k))
    &&& text::views(t.unsupported@) == paths_where(inputs, |k: KnownInput| !supported(k))
    &&& text::views(t.changed_tests@) == paths_where(inputs, |k: KnownInput| changed_test(k))
    &&& text::views(t.unparsed_changed_tests@) == paths_where(
        inputs,
        |k: KnownInput| changed_test(k) && !k.parsed,
    )
}

proof fn lemma_paths_push(inputs: Seq<KnownInput>, k: KnownInput, p: spec_fn(KnownInput) -> bool)
    ensures
        paths_where(inputs.push(k), p) == if p(k) {
            paths_where(inputs, p).push(k.path@)
        } else {
            paths_where(inputs, p)
        },
{
    reveal(Seq::filter);
    assert(inputs.push(k).drop_last() =~= inputs);
    assert(paths_where(inputs.push(k), p) =~= if p(k) {
        paths_where(inputs, p).push(k.path@)
    } else {
        paths_where(inputs, p)
    });
}

/// Decides for each input whether it can be walked, is itself a test, or is
/// nothing that can be used.
pub fn triage_inputs(inputs: &Vec<KnownInput>) -> (t: InputTriage)
    ensures
        triages(t, inputs@),
{
    broadcast use text::group_views;
    let mut walkable: Vec<String> = Vec::new();
    let mut unindexed: Vec<String> = Vec::new();
    let mut unsupported: Vec<String> = Vec::new();
    let mut changed_tests: Vec<String> = Vec::new();
    let mut unparsed: Vec<String> = Vec::new();
    let ghost pw = |k: KnownInput| is_walkable(k);
    let ghost pi = |k: KnownInput| is_unindexed(k);
    let ghost pu = |k: KnownInput| !supported(k);
    let ghost pc = |k: KnownInput| changed_test(k);
    let ghost pn = |k: KnownInput| changed_test(k) && !k.parsed;
    let mut i: usize = 0;
    proof {
        assert(inputs@.take(0) =~= Seq::empty());
        reveal(Seq::filter);
        assert(paths_where(Seq::empty(), pw) =~= Seq::empty());
        assert(paths_where(Seq::empty(), pi) =~= Seq::empty());
        assert(paths_where(Seq::empty(), pu) =~= Seq::empty());
        assert(paths_where(Seq::empty(), pc) =~= Seq::empty());
        assert(paths_where(Seq::empty(), pn) =~= Seq::empty());
    }
    while i < inputs.len()
        invariant
            i <= inputs.len(),
            pw == (|k: KnownInput| is_walkable(k)),
            pi == (|k: KnownInput| is_unindexed(k)),
            pu == (|k: KnownInput| !supported(k)),
            pc == (|k: KnownInput| changed_test(k)),
            pn == (|k: KnownInput| changed_test(k) && !k.parsed),
            text::views(walkable@) == paths_where(inputs@.take(i as int), pw),
            text::views(unindexed@) == paths_where(inputs@.take(i as int), pi),
            text::views(unsupported@) == paths_where(inputs@.take(i as int), pu),
            text::views(changed_tests@) == paths_where(inputs@.take(i as int), pc),
            text::views(unparsed@) == paths_where(inputs@.take(i as int), pn),
        decreases inputs.len() - i,
    {
        broadcast use text::group_views;
        let k = &inputs[i];
        proof {
            let t = inputs@.take(i as int);
            assert(inputs@.take(i + 1) =~= t.push(*k));
            lemma_paths_push(t, *k, pw);
            lemma_paths_push(t, *k, pi);
            lemma_paths_push(t, *k, pu);
            lemma_paths_push(t, *k, pc);
            lemma_paths_push(t, *k, pn);
        }
        let runnable = match extension_of(k.path.as_str()) {
            Some(e) => same(e, "phpt"),
            None => false,
        };
        if !k.parsed && !runnable {
            unsupported.push(k.path.clone());
        } else {
            let test_like = k.is_test && !is_fixture(k.path.as_str());
            if test_like {
                changed_tests.push(k.path.clone());
            }
            if test_like && !k.parsed {
                unparsed.push(k.path.clone());
            } else if k.indexed {
                walkable.push(k.path.clone());
            } else {
                unindexed.push(k.path.clone());
            }
        }
        i += 1;
    }
    assert(inputs@.take(inputs@.len() as int) =~= inputs@);
    InputTriage {
        walkable,
        unindexed,
        unsupported,
        changed_tests,
        unparsed_changed_tests: unparsed,
    }
}

} // verus!
