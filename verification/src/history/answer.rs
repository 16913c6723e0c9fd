//! The answer to "which tests should run", put together from the inputs, the
//! cheap signals and the walks.
use vstd::prelude::*;
use vstd::string::*;
use crate::history::reach::{ReachOutcome, ReachabilityOptions};
use crate::history::recommend;
use crate::history::recommend::{
    abbreviate_paths, base_notes, AbsenceOverride, BaseRecommendations, CoupledTestEntry, InputTriage,
    ReachableTestEntry, ReachableView, TestRecommendations,
};
use crate::history::risk;
use crate::history::siblings;
use crate::history::siblings::{is_fixture, join_unique};
use crate::impact;
use crate::order;
use crate::order::{among, ascending_list, sort};
use crate::paths;
use crate::paths::normalize_input_path;
use crate::text;
use crate::text::{concat2, concat3, concat4, decimal_of, join, same, trim};

verus! {

// ---------------------------------------------------------------------------
// Inputs as the caller spelled them
// ---------------------------------------------------------------------------

/// The inputs of a request: each file once, in the form that the index uses
/// and as the caller first spelled it, and how many were ignored.
#[derive(Debug)]
pub struct Inputs {
    pub paths: Vec<String>,
    pub given: Vec<String>,
    pub blank: usize,
    pub roots: usize,
    pub duplicates: usize,
}

#[verifier::ext_equal]
pub struct InputsView {
    pub paths: Seq<Seq<char>>,
    pub given: Seq<Seq<char>>,
    pub blank: nat,
    pub roots: nat,
    pub duplicates: nat,
}

impl View for Inputs {
    type V = InputsView;

    open spec fn view(&self) -> InputsView {
        InputsView {
            paths: text::views(self.paths@),
            given: text::views(self.given@),
            blank: self.blank as nat,
            roots: self.roots as nat,
            duplicates: self.duplicates as nat,
        }
    }
}

/// Takes the inputs in turn: a blank one names nothing, the project root
/// names no file, and another spelling of a path is the same input.
pub open spec fn taken(given: Seq<Seq<char>>, root: Option<Seq<char>>) -> InputsView
    decreases given.len(),
{
    if given.len() == 0 {
        InputsView {
            paths: Seq::empty(),
            given: Seq::empty(),
            blank: 0,
            roots: 0,
            duplicates: 0,
        }
    } else {
        let front = taken(given.drop_last(), root);
        let g = given.last();
        let p = paths::normalized(root, g);
        if text::trimmed(g).len() == 0 {
            InputsView { blank: front.blank + 1, ..front }
        } else if p.len() == 0 {
            InputsView { roots: front.roots + 1, ..front }
        } else if front.paths.contains(p) {
            InputsView { duplicates: front.duplicates + 1, ..front }
        } else {
            InputsView { paths: front.paths.push(p), given: front.given.push(g), ..front }
        }
    }
}

/// No two inputs name one file, and each has a spelling.
pub proof fn law_inputs_are_distinct(given: Seq<Seq<char>>, root: Option<Seq<char>>)
    ensures
        taken(given, root).paths.no_duplicates(),
        taken(given, root).paths.len() == taken(given, root).given.len(),
        taken(given, root).paths.len() + taken(given, root).blank + taken(given, root).roots + taken(
            given,
            root,
        ).duplicates == given.len(),
    decreases given.len(),
{
    if given.len() > 0 {
        law_inputs_are_distinct(given.drop_last(), root);
    }
}

/// Sorts the inputs of a request out.
pub fn take_inputs(given: &Vec<String>, root: Option<&str>) -> (out: Inputs)
    ensures
        out.paths@.len() == out.given@.len(),
        out@ == taken(
            text::views(given@),
            match root {
                Some(r) => Some(r@),
                None => None,
            },
        ),
{
    broadcast use text::group_views;
    let ghost base = match root {
        Some(r) => Some(r@),
        None => None,
    };
    let ghost all = text::views(given@);
    let mut out = Inputs {
        paths: Vec::new(),
        given: Vec::new(),
        blank: 0,
        roots: 0,
        duplicates: 0,
    };
    let mut i: usize = 0;
    assert(all.take(0) =~= Seq::empty());
    assert(out@ == taken(all.take(0), base));
    while i < given.len()
        invariant
            i <= given.len(),
            all == text::views(given@),
            base == (match root {
                Some(r) => Some(r@),
                None => None,
            }),
            out@ == taken(all.take(i as int), base),
            out.paths@.len() == out.given@.len(),
            out.blank + out.roots + out.duplicates <= i,
        decreases given.len() - i,
    {
        broadcast use text::group_views;
        let g = given[i].as_str();
        assert(all.take(i + 1).drop_last() =~= all.take(i as int));
        assert(all.take(i + 1).last() == g@);
        let p = normalize_input_path(root, g);
        if trim(g).is_empty() {
            out.blank = out.blank + 1;
        } else if p.as_str().is_empty() {
            out.roots = out.roots + 1;
        } else if among(&out.paths, p.as_str()) {
            out.duplicates = out.duplicates + 1;
        } else {
            out.paths.push(p);
            out.given.push(g.to_owned());
        }
        assert(out@ == taken(all.take(i + 1), base));
        i += 1;
    }
    assert(all.take(all.len() as int) =~= all);
    out
}

/// What is said of inputs that were ignored.
pub open spec fn ignored(v: InputsView) -> Seq<Seq<char>> {
    risk::maybe(v.blank > 0, text::decimal(v.blank) + " empty input(s) ignored"@) + risk::maybe(
        v.roots > 0,
        text::decimal(v.roots) + " input(s) ignored: the project root names no file"@,
    ) + risk::maybe(
        v.duplicates > 0,
        text::decimal(v.duplicates)
            + " duplicate input(s) ignored: another spelling of the same path"@,
    )
}

fn push_ignored(notes: &mut Vec<String>, inputs: &Inputs)
    ensures
        text::views(final(notes)@) == text::views(old(notes)@) + ignored(inputs@),
{
    broadcast use text::group_views;
    if inputs.blank > 0 {
        let n = decimal_of(inputs.blank as u64);
        notes.push(concat2(n.as_str(), " empty input(s) ignored"));
    }
    if inputs.roots > 0 {
        let n = decimal_of(inputs.roots as u64);
        notes.push(concat2(n.as_str(), " input(s) ignored: the project root names no file"));
    }
    if inputs.duplicates > 0 {
        let n = decimal_of(inputs.duplicates as u64);
        notes.push(
            concat2(n.as_str(), " duplicate input(s) ignored: another spelling of the same path"),
        );
    }
    assert(text::views(notes@) =~= text::views(old(notes)@) + ignored(inputs@));
}

/// The spelling that the caller gave to a path, from position `i` on.
pub open spec fn spelled_from(v: InputsView, p: Seq<char>, i: int) -> Seq<char>
    decreases v.paths.len() - i,
{
    if i < 0 || i >= v.paths.len() {
        p
    } else if v.paths[i] == p {
        v.given[i]
    } else {
        spelled_from(v, p, i + 1)
    }
}

/// Paths as the caller spelled them.
pub open spec fn spelled(v: InputsView, s: Seq<Seq<char>>) -> Seq<Seq<char>> {
    s.map_values(|p: Seq<char>| spelled_from(v, p, 0))
}

fn restore(inputs: &Inputs, list: &Vec<String>) -> (out: Vec<String>)
    requires
        inputs.paths@.len() == inputs.given@.len(),
    ensures
        text::views(out@) == spelled(inputs@, text::views(list@)),
{
    broadcast use text::group_views;
    let ghost want = spelled(inputs@, text::views(list@));
    let mut out: Vec<String> = Vec::new();
    let mut i: usize = 0;
    while i < list.len()
        invariant
            i <= list.len(),
            inputs.paths@.len() == inputs.given@.len(),
            want == spelled(inputs@, text::views(list@)),
            text::views(out@) == want.take(i as int),
        decreases list.len() - i,
    {
        broadcast use text::group_views;
        let p = list[i].as_str();
        assert(text::views(list@)[i as int] == p@);
        assert(want.take(i + 1) =~= want.take(i as int).push(spelled_from(inputs@, p@, 0)));
        let mut k: usize = 0;
        let mut hit: Option<usize> = None;
        while k < inputs.paths.len() && hit.is_none()
            invariant
                k <= inputs.paths.len(),
                inputs.paths@.len() == inputs.given@.len(),
                hit is None ==> spelled_from(inputs@, p@, 0) == spelled_from(
                    inputs@,
                    p@,
                    k as int,
                ),
                hit matches Some(h) ==> h < inputs.given@.len() && spelled_from(inputs@, p@, 0)
                    == inputs.given@[h as int]@,
            decreases inputs.paths.len() - k,
        {
            broadcast use text::group_views;
            assert(inputs@.paths[k as int] == inputs.paths@[k as int]@);
            assert(inputs@.given[k as int] == inputs.given@[k as int]@);
            if same(inputs.paths[k].as_str(), p) {
                hit = Some(k);
            }
            k += 1;
        }
        match hit {
            Some(h) => out.push(inputs.given[h].clone()),
            None => out.push(list[i].clone()),
        }
        i += 1;
    }
    assert(want.take(want.len() as int) =~= want);
    out
}

// ---------------------------------------------------------------------------
// Notes
// ---------------------------------------------------------------------------

/// What is said of inputs that no parser knows.
pub open spec fn unsupported_text(given: Seq<Seq<char>>) -> Seq<char> {
    text::decimal(given.len()) + " file(s) skipped, no parser for their type: "@
        + recommend::abbreviated(given)
}

pub fn unsupported_note(as_given: &Vec<String>) -> (out: String)
    ensures
        out@ == unsupported_text(text::views(as_given@)),
{
    let n = decimal_of(as_given.len() as u64);
    let list = abbreviate_paths(as_given);
    assert(text::views(as_given@).len() == as_given@.len());
    concat3(n.as_str(), " file(s) skipped, no parser for their type: ", list.as_str())
}

/// The parts of a disclosure: which inputs were not walked, cut short, not
/// indexed, or define no symbols.
pub open spec fn cap_parts(r: TestRecommendations) -> Seq<Seq<char>> {
    risk::maybe(
        r.unwalked_files@.len() > 0,
        "not walked: "@ + recommend::abbreviated(text::views(r.unwalked_files@)),
    ) + risk::maybe(
        r.partial_files@.len() > 0,
        "cut short: "@ + recommend::abbreviated(text::views(r.partial_files@)),
    ) + risk::maybe(
        r.unindexed_files@.len() > 0,
        "not indexed: "@ + recommend::abbreviated(text::views(r.unindexed_files@)),
    ) + risk::maybe(
        r.no_symbol_files@.len() > 0,
        "no symbols indexed: "@ + recommend::abbreviated(text::views(r.no_symbol_files@)),
    )
}

pub open spec fn cap_clause(r: TestRecommendations) -> Option<Seq<char>> {
    if cap_parts(r).len() == 0 {
        None
    } else {
        Some(text::joined(cap_parts(r), "; "@))
    }
}

/// The lower-bound disclosure of an incomplete answer; `None` of a complete
/// one.
pub fn reach_cap_clause(recs: &TestRecommendations) -> (out: Option<String>)
    ensures
        text::view_opt(out) == cap_clause(*recs),
{
    broadcast use text::group_views;
    let mut parts: Vec<String> = Vec::new();
    if recs.unwalked_files.len() > 0 {
        let list = abbreviate_paths(&recs.unwalked_files);
        parts.push(concat2("not walked: ", list.as_str()));
    }
    if recs.partial_files.len() > 0 {
        let list = abbreviate_paths(&recs.partial_files);
        parts.push(concat2("cut short: ", list.as_str()));
    }
    if recs.unindexed_files.len() > 0 {
        let list = abbreviate_paths(&recs.unindexed_files);
        parts.push(concat2("not indexed: ", list.as_str()));
    }
    if recs.no_symbol_files.len() > 0 {
        let list = abbreviate_paths(&recs.no_symbol_files);
        parts.push(concat2("no symbols indexed: ", list.as_str()));
    }
    assert(text::views(parts@) =~= cap_parts(*recs));
    assert(text::views(parts@).len() == parts@.len());
    if parts.len() == 0 {
        None
    } else {
        Some(join(&parts, "; "))
    }
}

/// What is said of the tests that reach the inputs. An incomplete answer says
/// that it is a lower bound and asserts no missing edge.
pub open spec fn reach_text(r: TestRecommendations, depth: u32, list_cap: usize) -> Seq<char> {
    let head = text::decimal(r.reachable_total as nat)
        + " reachable test file(s) via call/import edges (distance ≤ "@ + text::decimal(
        depth as nat,
    ) + ")"@ + if r.reachable_capped {
        ", capped at "@ + text::decimal(list_cap as nat)
    } else {
        Seq::empty()
    };
    match cap_clause(r) {
        Some(clause) => head + "; reachable is a lower bound ("@ + clause + ")"@,
        None => head + "; "@ + text::decimal(r.unmodelled as nat) + " of "@ + text::decimal(
            r.indexed_test_files as nat,
        )
            + " indexed test files have no resolved edge into the changed set and are not vouched for"@,
    }
}

fn reach_note(recs: &TestRecommendations, depth: u32, list_cap: usize) -> (out: String)
    ensures
        out@ == reach_text(*recs, depth, list_cap),
{
    let total = decimal_of(recs.reachable_total as u64);
    let hops = decimal_of(depth as u64);
    let mut note = concat4(
        total.as_str(),
        " reachable test file(s) via call/import edges (distance ≤ ",
        hops.as_str(),
        ")",
    );
    if recs.reachable_capped {
        let cap = decimal_of(list_cap as u64);
        let suffix = concat2(", capped at ", cap.as_str());
        note.append(suffix.as_str());
    } else {
        assert(note@ + Seq::<char>::empty() =~= note@);
    }
    match reach_cap_clause(recs) {
        Some(clause) => {
            note.append("; reachable is a lower bound (");
            note.append(clause.as_str());
            note.append(")");
        },
        None => {
            let unmodelled = decimal_of(recs.unmodelled as u64);
            let indexed = decimal_of(recs.indexed_test_files as u64);
            note.append("; ");
            note.append(unmodelled.as_str());
            note.append(" of ");
            note.append(indexed.as_str());
            note.append(
                " indexed test files have no resolved edge into the changed set and are not vouched for",
            );
        },
    }
    note
}

// ---------------------------------------------------------------------------
// The answer
// ---------------------------------------------------------------------------

/// A file of the index.
#[derive(Debug)]
pub struct IndexedPath {
    pub path: String,
    /// It is a test by its category.
    pub is_test: bool,
}

/// The test files of an index, fixtures aside.
pub open spec fn index_tests(index: Seq<IndexedPath>) -> Seq<Seq<char>>
    decreases index.len(),
{
    if index.len() == 0 {
        Seq::empty()
    } else {
        let front = index_tests(index.drop_last());
        let f = index.last();
        if f.is_test && !siblings::fixture(f.path@) {
            front.push(f.path@)
        } else {
            front
        }
    }
}

/// The tests that the index holds: by category, and those that conventions
/// found though their category does not say so.
pub open spec fn test_files(index: Seq<IndexedPath>, base: BaseRecommendations) -> Seq<Seq<char>> {
    order::ascending_set(
        index_tests(index) + text::views(base.primary@) + text::views(base.withheld@),
    )
}

/// The tests that the index holds, ascending. Where there are none, no walk
/// can find one.
pub fn indexed_tests(index: &Vec<IndexedPath>, base: &BaseRecommendations) -> (out: Vec<String>)
    ensures
        text::views(out@) == test_files(index@, *base),
{
    broadcast use text::group_views;
    let mut found: Vec<String> = Vec::new();
    let mut i: usize = 0;
    assert(index@.take(0) =~= Seq::empty());
    while i < index.len()
        invariant
            i <= index.len(),
            text::views(found@) == index_tests(index@.take(i as int)),
        decreases index.len() - i,
    {
        broadcast use text::group_views;
        assert(index@.take(i + 1).drop_last() =~= index@.take(i as int));
        assert(index@.take(i + 1).last() == index@[i as int]);
        if index[i].is_test && !is_fixture(index[i].path.as_str()) {
            found.push(index[i].path.clone());
        }
        i += 1;
    }
    assert(index@.take(index@.len() as int) =~= index@);
    text::append_strings(&mut found, &base.primary);
    text::append_strings(&mut found, &base.withheld);
    ascending_list(&found)
}

/// The files of coupled entries.
pub open spec fn coupled_paths(v: Seq<CoupledTestEntry>) -> Seq<Seq<char>> {
    v.map_values(|c: CoupledTestEntry| c.file@)
}

/// The tests that are vouched for before any walk.
pub open spec fn vouched(primary: Seq<Seq<char>>, base: BaseRecommendations) -> Seq<Seq<char>> {
    primary + coupled_paths(base.coupled@) + text::views(base.withheld@)
}

/// The reached tests that no other signal vouches for, nearest first.
pub open spec fn reaching(
    reached: Seq<ReachableView>,
    vouched: Seq<Seq<char>>,
) -> Seq<ReachableView> {
    order::sorted::<ReachableTestEntry>(
        reached.filter(|e: ReachableView| !vouched.contains(e.path)),
    )
}

pub open spec fn reachable_paths(s: Seq<ReachableView>) -> Seq<Seq<char>> {
    s.map_values(|e: ReachableView| e.path)
}

/// The tests that no signal vouches for and that are no input either.
pub open spec fn unvouched(
    tests: Seq<Seq<char>>,
    vouched: Seq<Seq<char>>,
    inputs: Seq<Seq<char>>,
) -> nat {
    tests.filter(|p: Seq<char>| !vouched.contains(p) && !inputs.contains(p)).len()
}

/// The primary tests with the inputs that are tests themselves.
pub open spec fn primary_with(base: Seq<Seq<char>>, changed: Seq<Seq<char>>) -> Seq<Seq<char>> {
    let all = siblings::joined_unique(base, changed);
    if all.len() > base.len() {
        order::sorted::<String>(all)
    } else {
        base
    }
}

/// How many inputs are tests that no convention had found.
pub open spec fn changed_count(base: Seq<Seq<char>>, changed: Seq<Seq<char>>) -> int {
    siblings::joined_unique(base, changed).len() - base.len()
}

pub open spec fn absence(
    reachable_total: nat,
    changed: int,
    tests: nat,
    capped: bool,
) -> Option<AbsenceOverride> {
    if reachable_total > 0 || changed > 0 {
        Some(AbsenceOverride::OtherSignal)
    } else if tests == 0 {
        Some(AbsenceOverride::NoTestFilesIndexed)
    } else if capped {
        Some(AbsenceOverride::WalkCapped)
    } else {
        None
    }
}

pub open spec fn changed_text(n: nat, unparsed: Seq<Seq<char>>) -> Seq<char> {
    text::decimal(n) + " changed file(s) are tests themselves; listed in `primary`"@ + if unparsed.len()
        > 0 {
        " (not parsed by the indexer: "@ + recommend::abbreviated(unparsed) + ")"@
    } else {
        Seq::empty()
    }
}

/// Everything that an answer says.
pub open spec fn answer_notes(
    r: TestRecommendations,
    v: InputsView,
    base: BaseRecommendations,
    t: InputTriage,
    opts: ReachabilityOptions,
) -> Seq<Seq<char>> {
    let changed = changed_count(text::views(base.primary@), text::views(t.changed_tests@));
    recommend::base_text(
        base.primary@.len(),
        base.coupled@.len(),
        text::views(base.suppressed_sources@),
        absence(
            r.reachable_total as nat,
            changed,
            r.indexed_test_files as nat,
            r.reach_walk_capped,
        ),
    ) + risk::maybe(
        changed > 0,
        changed_text(changed as nat, text::views(t.unparsed_changed_tests@)),
    ) + ignored(v) + risk::maybe(
        r.indexed_test_files == 0,
        "the index contains no test files (check `[index] exclude_patterns`); reachability walk skipped"@,
    ) + risk::maybe(
        r.reachable_total > 0 || r.unmodelled > 0 || r.reach_walk_capped,
        reach_text(r, opts.depth, opts.list_cap),
    ) + risk::maybe(
        r.unsupported_files@.len() > 0,
        unsupported_text(text::views(r.unsupported_files@)),
    )
}

/// A walk was incomplete: an input was skipped, cut short, unindexed, or had
/// nothing to start from.
pub open spec fn incomplete(reach: ReachOutcome, t: InputTriage) -> bool {
    reach.unwalked@.len() > 0 || reach.partial@.len() > 0 || t.unindexed@.len() > 0
        || reach.no_symbol@.len() > 0
}

/// What the answer to a request with something to look up lists and counts.
pub open spec fn lists(
    r: TestRecommendations,
    v: InputsView,
    base: BaseRecommendations,
    t: InputTriage,
    tests: Seq<Seq<char>>,
    reach: ReachOutcome,
    list_cap: usize,
) -> bool {
    let primary = primary_with(text::views(base.primary@), text::views(t.changed_tests@));
    let first = vouched(primary, base);
    let all = reaching(text::views(reach.reached@), first);
    &&& text::views(r.primary@) == primary
    &&& text::views(r.reachable@) == impact::at_most(all, list_cap)
    &&& r.reachable_total == all.len()
    &&& r.reachable_capped == (all.len() > list_cap)
    &&& r.reach_walk_capped == incomplete(reach, t)
    &&& text::views(r.unwalked_files@) == spelled(v, text::views(reach.unwalked@))
    &&& text::views(r.partial_files@) == spelled(v, text::views(reach.partial@))
    &&& text::views(r.unindexed_files@) == spelled(v, text::views(t.unindexed@))
    &&& text::views(r.no_symbol_files@) == spelled(v, text::views(reach.no_symbol@))
    &&& text::views(r.unsupported_files@) == spelled(v, text::views(t.unsupported@))
    &&& r.unmodelled == unvouched(tests, first + reachable_paths(all), v.paths)
    &&& r.indexed_test_files == tests.len()
}

/// The answer to a request with something to look up.
pub open spec fn answers(
    r: TestRecommendations,
    v: InputsView,
    base: BaseRecommendations,
    t: InputTriage,
    tests: Seq<Seq<char>>,
    reach: ReachOutcome,
    opts: ReachabilityOptions,
) -> bool {
    &&& lists(r, v, base, t, tests, reach, opts.list_cap)
    &&& r.coupled == base.coupled
    &&& text::views(r.notes@) == answer_notes(r, v, base, t, opts)
}

fn keep_unvouched(reached: Vec<ReachableTestEntry>, known: &Vec<String>) -> (out: Vec<
    ReachableTestEntry,
>)
    ensures
        text::views(out@) == text::views(reached@).filter(
            |e: ReachableView| !text::views(known@).contains(e.path),
        ),
{
    broadcast use text::group_views;
    let ghost items = reached@;
    let ghost all = text::views(reached@);
    let ghost keep = |e: ReachableView| !text::views(known@).contains(e.path);
    let mut out: Vec<ReachableTestEntry> = Vec::new();
    proof {
        assert(all.take(0) =~= Seq::empty());
        reveal(Seq::filter);
    }
    for e in it: reached
        invariant
            it.seq() == items,
            all == text::views(items),
            keep == (|e: ReachableView| !text::views(known@).contains(e.path)),
            text::views(out@) == all.take(it.index()).filter(keep),
    {
        broadcast use text::group_views;
        proof {
            let n = it.index();
            assert(all.take(n + 1).drop_last() =~= all.take(n));
            assert(all[n] == e@);
            assert(all.take(n + 1).last() == e@);
            reveal(Seq::filter);
        }
        if !among(known, e.path.as_str()) {
            out.push(e);
        }
    }
    assert(all.take(all.len() as int) =~= all);
    out
}

fn append_coupled(known: &mut Vec<String>, coupled: &Vec<CoupledTestEntry>)
    ensures
        text::views(final(known)@) == text::views(old(known)@) + coupled_paths(coupled@),
{
    broadcast use text::group_views;
    let ghost was = text::views(known@);
    let ghost all = coupled_paths(coupled@);
    let mut i: usize = 0;
    assert(was + all.take(0) =~= was);
    while i < coupled.len()
        invariant
            i <= coupled.len(),
            all == coupled_paths(coupled@),
            text::views(known@) == was + all.take(i as int),
        decreases coupled.len() - i,
    {
        broadcast use text::group_views;
        assert(was + all.take(i + 1) =~= (was + all.take(i as int)).push(coupled@[i as int].file@));
        known.push(coupled[i].file.clone());
        i += 1;
    }
    assert(all.take(all.len() as int) =~= all);
}

fn append_reachable(known: &mut Vec<String>, list: &Vec<ReachableTestEntry>)
    ensures
        text::views(final(known)@) == text::views(old(known)@) + reachable_paths(
            text::views(list@),
        ),
{
    broadcast use text::group_views;
    let ghost was = text::views(known@);
    let ghost all = reachable_paths(text::views(list@));
    let mut i: usize = 0;
    assert(was + all.take(0) =~= was);
    while i < list.len()
        invariant
            i <= list.len(),
            all == reachable_paths(text::views(list@)),
            text::views(known@) == was + all.take(i as int),
        decreases list.len() - i,
    {
        broadcast use text::group_views;
        assert(text::views(list@)[i as int] == list@[i as int]@);
        assert(was + all.take(i + 1) =~= (was + all.take(i as int)).push(list@[i as int].path@));
        known.push(list[i].path.clone());
        i += 1;
    }
    assert(all.take(all.len() as int) =~= all);
}

fn count_unvouched(tests: &Vec<String>, known: &Vec<String>, inputs: &Vec<String>) -> (n: usize)
    ensures
        n == unvouched(text::views(tests@), text::views(known@), text::views(inputs@)),
{
    broadcast use text::group_views;
    let ghost all = text::views(tests@);
    let ghost p = |p: Seq<char>|
        !text::views(known@).contains(p) && !text::views(inputs@).contains(p);
    let mut n: usize = 0;
    let mut i: usize = 0;
    proof {
        assert(all.take(0) =~= Seq::empty());
        reveal(Seq::filter);
    }
    while i < tests.len()
        invariant
            i <= tests.len(),
            all == text::views(tests@),
            p == (|p: Seq<char>|
                !text::views(known@).contains(p) && !text::views(inputs@).contains(p)),
            n == all.take(i as int).filter(p).len(),
            n <= i,
        decreases tests.len() - i,
    {
        broadcast use text::group_views;
        proof {
            assert(all.take(i + 1).drop_last() =~= all.take(i as int));
            assert(all.take(i + 1).last() == tests@[i as int]@);
            reveal(Seq::filter);
        }
        if !among(known, tests[i].as_str()) && !among(inputs, tests[i].as_str()) {
            n += 1;
        }
        i += 1;
    }
    assert(all.take(all.len() as int) =~= all);
    n
}

fn changed_note(n: usize, unparsed: &Vec<String>) -> (out: String)
    ensures
        out@ == changed_text(n as nat, text::views(unparsed@)),
{
    let count = decimal_of(n as u64);
    let mut out = concat2(
        count.as_str(),
        " changed file(s) are tests themselves; listed in `primary`",
    );
    assert(text::views(unparsed@).len() == unparsed@.len());
    if unparsed.len() > 0 {
        let list = abbreviate_paths(unparsed);
        let tail = concat3(" (not parsed by the indexer: ", list.as_str(), ")");
        out.append(tail.as_str());
    } else {
        assert(out@ + Seq::<char>::empty() =~= out@);
    }
    out
}

proof fn lemma_joined_unique_grows(found: Seq<Seq<char>>, more: Seq<Seq<char>>)
    ensures
        siblings::joined_unique(found, more).len() >= found.len(),
    decreases more.len(),
{
    if more.len() > 0 {
        lemma_joined_unique_grows(found, more.drop_last());
    }
}

fn primary_of(base: &Vec<String>, changed: &Vec<String>) -> (out: (Vec<String>, usize))
    ensures
        text::views(out.0@) == primary_with(text::views(base@), text::views(changed@)),
        out.1 == changed_count(text::views(base@), text::views(changed@)),
{
    broadcast use text::group_views;
    let mut all = text::copy_strings(base);
    join_unique(&mut all, changed);
    proof {
        lemma_joined_unique_grows(text::views(base@), text::views(changed@));
        assert(text::views(all@).len() == all@.len());
        assert(text::views(base@).len() == base@.len());
    }
    let n: usize = all.len() - base.len();
    if n > 0 {
        (sort(all), n)
    } else {
        (text::copy_strings(base), n)
    }
}

fn push_answer_tail(notes: &mut Vec<String>, r: &TestRecommendations, opts: &ReachabilityOptions)
    ensures
        text::views(final(notes)@) == text::views(old(notes)@) + risk::maybe(
            r.indexed_test_files == 0,
            "the index contains no test files (check `[index] exclude_patterns`); reachability walk skipped"@,
        ) + risk::maybe(
            r.reachable_total > 0 || r.unmodelled > 0 || r.reach_walk_capped,
            reach_text(*r, opts.depth, opts.list_cap),
        ) + risk::maybe(
            r.unsupported_files@.len() > 0,
            unsupported_text(text::views(r.unsupported_files@)),
        ),
{
    broadcast use text::group_views;
    if r.indexed_test_files == 0 {
        notes.push(
            String::from_str(
                "the index contains no test files (check `[index] exclude_patterns`); reachability walk skipped",
            ),
        );
    }
    if r.reachable_total > 0 || r.unmodelled > 0 || r.reach_walk_capped {
        notes.push(reach_note(r, opts.depth, opts.list_cap));
    }
    if r.unsupported_files.len() > 0 {
        notes.push(unsupported_note(&r.unsupported_files));
    }
}

/// The notes of an answer read neither its coupled tests nor its notes.
proof fn lemma_notes_aside(a: TestRecommendations, b: TestRecommendations)
    requires
        b == (TestRecommendations { notes: b.notes, coupled: b.coupled, ..a }),
    ensures
        forall|d: u32, c: usize| #[trigger] reach_text(a, d, c) == reach_text(b, d, c),
{
    assert(cap_parts(a) == cap_parts(b));
    assert(cap_clause(a) == cap_clause(b));
}

/// Lists and counts everything but the coupled tests and the notes.
fn list_answer(
    inputs: &Inputs,
    base: &BaseRecommendations,
    triage: &InputTriage,
    tests: &Vec<String>,
    reach: ReachOutcome,
    list_cap: usize,
) -> (out: TestRecommendations)
    requires
        inputs.paths@.len() == inputs.given@.len(),
    ensures
        lists(out, inputs@, *base, *triage, text::views(tests@), reach, list_cap),
{
    broadcast use text::group_views;
    let (primary, changed): (Vec<String>, usize) = primary_of(&base.primary, &triage.changed_tests);
    let mut known = text::copy_strings(&primary);
    append_coupled(&mut known, &base.coupled);
    text::append_strings(&mut known, &base.withheld);
    let reach_walk_capped = reach.unwalked.len() > 0 || reach.partial.len() > 0
        || triage.unindexed.len() > 0 || reach.no_symbol.len() > 0;
    let unwalked_files = restore(inputs, &reach.unwalked);
    let partial_files = restore(inputs, &reach.partial);
    let unindexed_files = restore(inputs, &triage.unindexed);
    let no_symbol_files = restore(inputs, &reach.no_symbol);
    let unsupported_files = restore(inputs, &triage.unsupported);
    let ghost first = text::views(known@);
    assert(first =~= vouched(text::views(primary@), *base));
    let mut reachable = sort(keep_unvouched(reach.reached, &known));
    let ghost all = text::views(reachable@);
    let total: usize = reachable.len();
    append_reachable(&mut known, &reachable);
    let unmodelled: usize = count_unvouched(tests, &known, &inputs.paths);
    let reachable_capped = total > list_cap;
    if reachable_capped {
        reachable.truncate(list_cap);
        assert(text::views(reachable@) =~= all.take(list_cap as int));
    }
    assert(text::views(tests@).len() == tests@.len());
    TestRecommendations {
        primary,
        coupled: Vec::new(),
        reachable,
        reachable_total: total,
        reachable_capped,
        reach_walk_capped,
        unwalked_files,
        partial_files,
        unindexed_files,
        no_symbol_files,
        unsupported_files,
        unmodelled,
        indexed_test_files: tests.len(),
        notes: Vec::new(),
    }
}

/// Writes the notes of an answer.
fn write_notes(
    r: &TestRecommendations,
    inputs: &Inputs,
    base: &BaseRecommendations,
    triage: &InputTriage,
    opts: &ReachabilityOptions,
) -> (notes: Vec<String>)
    ensures
        text::views(notes@) == answer_notes(*r, inputs@, *base, *triage, *opts),
{
    broadcast use text::group_views;
    let (_, changed): (Vec<String>, usize) = primary_of(&base.primary, &triage.changed_tests);
    let absence_override = if r.reachable_total > 0 || changed > 0 {
        Some(AbsenceOverride::OtherSignal)
    } else if r.indexed_test_files == 0 {
        Some(AbsenceOverride::NoTestFilesIndexed)
    } else if r.reach_walk_capped {
        Some(AbsenceOverride::WalkCapped)
    } else {
        None
    };
    let mut notes = base_notes(base, base.primary.len(), absence_override);
    let ghost head = text::views(notes@);
    if changed > 0 {
        notes.push(changed_note(changed, &triage.unparsed_changed_tests));
    }
    assert(text::views(notes@) =~= head + risk::maybe(
        changed > 0,
        changed_text(changed as nat, text::views(triage.unparsed_changed_tests@)),
    ));
    push_ignored(&mut notes, inputs);
    push_answer_tail(&mut notes, r, opts);
    notes
}

/// Puts the answer together from the inputs, the cheap signals, the tests of
/// the index and what the walks reached.
pub fn assemble(
    inputs: &Inputs,
    base: BaseRecommendations,
    triage: &InputTriage,
    tests: &Vec<String>,
    reach: ReachOutcome,
    opts: &ReachabilityOptions,
) -> (out: TestRecommendations)
    requires
        inputs.paths@.len() == inputs.given@.len(),
    ensures
        answers(out, inputs@, base, *triage, text::views(tests@), reach, *opts),
{
    let mut out = list_answer(inputs, &base, triage, tests, reach, opts.list_cap);
    let ghost bare = out;
    let notes = write_notes(&out, inputs, &base, triage, opts);
    out.coupled = base.coupled;
    out.notes = notes;
    proof {
        lemma_notes_aside(bare, out);
    }
    out
}

/// What is answered where no input names a file: why the inputs went unused.
pub open spec fn answers_nothing(r: TestRecommendations, v: InputsView) -> bool {
    &&& recommend::walked_nothing(r)
    &&& r.primary@.len() == 0 && r.coupled@.len() == 0 && r.unsupported_files@.len() == 0
    &&& text::views(r.notes@) == ignored(v)
}

/// The answer where no input names a file: only why the inputs went unused.
pub fn nothing_named(inputs: &Inputs) -> (out: TestRecommendations)
    ensures
        answers_nothing(out, inputs@),
{
    broadcast use text::group_views;
    let mut notes: Vec<String> = Vec::new();
    push_ignored(&mut notes, inputs);
    assert(text::views(notes@) =~= ignored(inputs@));
    TestRecommendations {
        primary: Vec::new(),
        coupled: Vec::new(),
        reachable: Vec::new(),
        reachable_total: 0,
        reachable_capped: false,
        reach_walk_capped: false,
        unwalked_files: Vec::new(),
        partial_files: Vec::new(),
        unindexed_files: Vec::new(),
        no_symbol_files: Vec::new(),
        unsupported_files: Vec::new(),
        unmodelled: 0,
        indexed_test_files: 0,
        notes,
    }
}

/// No input can be walked or run, and none is missing from the index.
pub open spec fn nothing_usable(t: InputTriage) -> bool {
    t.walkable@.len() == 0 && t.changed_tests@.len() == 0 && t.unindexed@.len() == 0
}

pub fn is_nothing_usable(t: &InputTriage) -> (r: bool)
    ensures
        r == nothing_usable(*t),
{
    t.walkable.len() == 0 && t.changed_tests.len() == 0 && t.unindexed.len() == 0
}

/// What is answered where no input has a parser: the tests that need none, and
/// no claim that any is absent.
pub open spec fn answers_unparsed(
    r: TestRecommendations,
    v: InputsView,
    base: BaseRecommendations,
    t: InputTriage,
) -> bool {
    &&& recommend::walked_nothing(r)
    &&& r.primary == base.primary
    &&& r.coupled == base.coupled
    &&& text::views(r.unsupported_files@) == spelled(v, text::views(t.unsupported@))
    &&& text::views(r.notes@) == recommend::base_text(
        base.primary@.len(),
        base.coupled@.len(),
        text::views(base.suppressed_sources@),
        Some(AbsenceOverride::NoUsableInput),
    ) + ignored(v) + seq![unsupported_text(text::views(r.unsupported_files@))]
}

/// The answer where every input lacks a parser: what co-change says, and that
/// nothing was looked up.
pub fn nothing_parsed(inputs: &Inputs, base: BaseRecommendations, triage: &InputTriage) -> (out:
    TestRecommendations)
    requires
        inputs.paths@.len() == inputs.given@.len(),
    ensures
        answers_unparsed(out, inputs@, base, *triage),
{
    broadcast use text::group_views;
    let mut notes = base_notes(&base, base.primary.len(), Some(AbsenceOverride::NoUsableInput));
    let unsupported_files = restore(inputs, &triage.unsupported);
    push_ignored(&mut notes, inputs);
    let ghost before = text::views(notes@);
    notes.push(unsupported_note(&unsupported_files));
    assert(text::views(notes@) =~= before + seq![
        unsupported_text(text::views(unsupported_files@)),
    ]);
    TestRecommendations {
        primary: base.primary,
        coupled: base.coupled,
        reachable: Vec::new(),
        reachable_total: 0,
        reachable_capped: false,
        reach_walk_capped: false,
        unwalked_files: Vec::new(),
        partial_files: Vec::new(),
        unindexed_files: Vec::new(),
        no_symbol_files: Vec::new(),
        unsupported_files,
        unmodelled: 0,
        indexed_test_files: 0,
        notes,
    }
}

} // verus!
