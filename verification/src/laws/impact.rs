//! What an impact analysis lists.
use vstd::prelude::*;
use crate::impact;
use crate::impact::{entries, entry, EntryView, ImpactEntry, ReachedView, Walk, WalkOutcome};
use crate::laws::sorting;
use crate::model::{FileCategory, Reference, ReferenceKind, Symbol};
use crate::order;
use crate::order::Ranked;
use crate::symbols;
use crate::text;

verus! {

proof fn lemma_entries(found: Seq<ReachedView>, categories: Seq<FileCategory>, source_only: bool)
    requires
        found.len() <= categories.len(),
    ensures
        forall|x: EntryView| #[trigger]
            entries(found, categories, source_only).contains(x) ==> exists|k: int|
                0 <= k < found.len() && x == entry(#[trigger] found[k], categories[k]) && (source_only ==> categories[k]
                    == FileCategory::Source),
        forall|k: int|
            0 <= k < found.len() && (source_only ==> categories[k] == FileCategory::Source) ==> entries(
                found,
                categories,
                source_only,
            ).contains(entry(#[trigger] found[k], categories[k])),
    decreases found.len(),
{
    if found.len() > 0 {
        let front = found.drop_last();
        let n = found.len() - 1;
        lemma_entries(front, categories, source_only);
        let a = entries(front, categories, source_only);
        let b = entries(found, categories, source_only);
        assert forall|x: EntryView| #[trigger] b.contains(x) implies exists|k: int|
            0 <= k < found.len() && x == entry(#[trigger] found[k], categories[k]) && (source_only ==> categories[k]
                == FileCategory::Source) by {
            let i = choose|i: int| 0 <= i < b.len() && b[i] == x;
            if i < a.len() {
                assert(a[i] == x);
                assert(a.contains(x));
                let k = choose|k: int|
                    0 <= k < front.len() && x == entry(#[trigger] front[k], categories[k]) && (source_only
                        ==> categories[k] == FileCategory::Source);
                assert(found[k] == front[k]);
            } else {
                assert(x == entry(found[n], categories[n]));
            }
        }
        assert forall|k: int|
            0 <= k < found.len() && (source_only ==> categories[k] == FileCategory::Source) implies b.contains(
            entry(#[trigger] found[k], categories[k]),
        ) by {
            if k < n {
                let x = entry(front[k], categories[k]);
                assert(a.contains(x));
                let i = choose|i: int| 0 <= i < a.len() && a[i] == x;
                assert(b[i] == x);
            } else {
                assert(b[b.len() - 1] == entry(found[n], categories[n]));
            }
        }
    }
}

/// What an entry says of a reached file: the file, how far away it is, what it
/// is for, and the first ten of its edges.
pub open spec fn tells_of(e: ImpactEntry, r: impact::Reached, category: FileCategory) -> bool {
    &&& e.file_path@ == r.path@
    &&& e.distance == r.distance
    &&& e.category == category
    &&& e.reasons@.len() == (if r.edges@.len() < 10 {
        r.edges@.len()
    } else {
        10
    })
    &&& forall|m: int|
        0 <= m < e.reasons@.len() ==> (#[trigger] e.reasons@[m]).via_symbol@ == r.edges@[m].via_symbol@
            && e.reasons@[m].kind == r.edges@[m].kind && e.reasons@[m].line == r.edges@[m].line
}

proof fn lemma_tells(e: ImpactEntry, r: impact::Reached, category: FileCategory)
    requires
        e@ == entry(r@, category),
    ensures
        tells_of(e, r, category),
{
    broadcast use text::group_views;

    assert(text::views(e.reasons@).len() == e.reasons@.len());
    assert(text::views(r.edges@).len() == r.edges@.len());
    assert forall|m: int| 0 <= m < e.reasons@.len() implies (#[trigger] e.reasons@[m]).via_symbol@
        == r.edges@[m].via_symbol@ && e.reasons@[m].kind == r.edges@[m].kind && e.reasons@[m].line
        == r.edges@[m].line by {
        assert(text::views(e.reasons@)[m] == e.reasons@[m]@);
        assert(text::views(r.edges@)[m] == r.edges@[m]@);
    }
}

/// An entry tells of one of the reached files.
pub open spec fn tells_of_one(e: ImpactEntry, reached: Seq<impact::Reached>, categories: Seq<FileCategory>) -> bool {
    exists|k: int| 0 <= k < reached.len() && #[trigger] tells_of(e, reached[k], categories[k])
}

/// One of the entries tells of a reached file.
pub open spec fn is_told(entries: Seq<ImpactEntry>, r: impact::Reached, category: FileCategory) -> bool {
    exists|i: int| 0 <= i < entries.len() && #[trigger] tells_of(entries[i], r, category)
}

/// An analysis lists the files that a walk reached. Every entry tells of a
/// reached file; every reached file has an entry, and where source files alone
/// are asked for, every reached source file has one and no other file has.
pub proof fn law_an_analysis_lists_what_was_reached(
    walk: Walk,
    categories: Seq<FileCategory>,
    source_only: bool,
    out: WalkOutcome,
)
    requires
        impact::ends_in(walk, categories, source_only, out),
        categories.len() == walk.reached@.len(),
    ensures
        forall|i: int|
            0 <= i < out.entries@.len() ==> tells_of_one(#[trigger] out.entries@[i], walk.reached@, categories),
        forall|i: int|
            0 <= i < out.entries@.len() && source_only ==> (#[trigger] out.entries@[i]).category
                == FileCategory::Source,
        forall|k: int|
            0 <= k < walk.reached@.len() && (!source_only || categories[k] == FileCategory::Source) ==> is_told(
                out.entries@,
                #[trigger] walk.reached@[k],
                categories[k],
            ),
        out.capped == walk.capped,
        out.seed_count == walk.seed_count,
{
    broadcast use text::group_views;

    let found = text::views(walk.reached@);
    let all = entries(found, categories, source_only);
    let shown = text::views(out.entries@);
    lemma_entries(found, categories, source_only);
    sorting::law_sorting_keeps_what_is_listed::<ImpactEntry>(all);
    assert forall|i: int| 0 <= i < out.entries@.len() implies tells_of_one(
        #[trigger] out.entries@[i],
        walk.reached@,
        categories,
    ) && (source_only ==> out.entries@[i].category == FileCategory::Source) by {
        assert(shown[i] == out.entries@[i]@);
        assert(shown.contains(shown[i]));
        assert(all.contains(shown[i]));
        let k = choose|k: int|
            0 <= k < found.len() && shown[i] == entry(#[trigger] found[k], categories[k]) && (source_only
                ==> categories[k] == FileCategory::Source);
        assert(found[k] == walk.reached@[k]@);
        lemma_tells(out.entries@[i], walk.reached@[k], categories[k]);
    }
    assert forall|k: int|
        0 <= k < walk.reached@.len() && (!source_only || categories[k] == FileCategory::Source) implies is_told(
        out.entries@,
        #[trigger] walk.reached@[k],
        categories[k],
    ) by {
        assert(found[k] == walk.reached@[k]@);
        let x = entry(found[k], categories[k]);
        assert(all.contains(x));
        assert(shown.contains(x));
        let i = choose|i: int| 0 <= i < shown.len() && shown[i] == x;
        assert(shown[i] == out.entries@[i]@);
        lemma_tells(out.entries@[i], walk.reached@[k], categories[k]);
    }
}

/// Nearer files come first, of equally near ones those with more reasons, and of
/// those the lower path.
pub proof fn law_an_analysis_lists_the_nearest_first(
    walk: Walk,
    categories: Seq<FileCategory>,
    source_only: bool,
    out: WalkOutcome,
    i: int,
    j: int,
)
    requires
        impact::ends_in(walk, categories, source_only, out),
        0 <= i < j < out.entries@.len(),
    ensures
        ({
            let (a, b) = (out.entries@[i], out.entries@[j]);
            &&& a.distance <= b.distance
            &&& a.distance == b.distance ==> a.reasons@.len() >= b.reasons@.len()
            &&& a.distance == b.distance && a.reasons@.len() == b.reasons@.len() ==> !order::text_before(
                b.file_path@,
                a.file_path@,
            )
        }),
{
    broadcast use text::group_views;

    let all = entries(text::views(walk.reached@), categories, source_only);
    order::lemma_sorted::<ImpactEntry>(all);
    let shown = text::views(out.entries@);
    assert(shown[i] == out.entries@[i]@ && shown[j] == out.entries@[j]@);
    assert(!ImpactEntry::ahead(shown[j], shown[i]));
    assert(text::views(out.entries@[i].reasons@).len() == out.entries@[i].reasons@.len());
    assert(text::views(out.entries@[j].reasons@).len() == out.entries@[j].reasons@.len());
}

/// The edge counts count every distinct edge of every reached file, not the ten
/// that are shown.
pub proof fn law_edge_counts_count_every_edge(
    walk: Walk,
    categories: Seq<FileCategory>,
    source_only: bool,
    out: WalkOutcome,
    k: int,
)
    requires
        impact::ends_in(walk, categories, source_only, out),
        0 <= k < walk.reached@.len(),
        walk.reached@[k].edges@.len() <= u32::MAX,
    ensures
        out.edge_counts@.len() == walk.reached@.len(),
        out.edge_counts@[k].path@ == walk.reached@[k].path@,
        out.edge_counts@[k].count == walk.reached@[k].edges@.len(),
{
    broadcast use text::group_views;

    assert(text::views(out.edge_counts@).len() == out.edge_counts@.len());
    assert(text::views(walk.reached@).len() == walk.reached@.len());
    assert(text::views(out.edge_counts@)[k] == out.edge_counts@[k]@);
    assert(text::views(walk.reached@)[k] == walk.reached@[k]@);
    assert(text::views(walk.reached@[k].edges@).len() == walk.reached@[k].edges@.len());
}

// ---------------------------------------------------------------------------
// Levels
// ---------------------------------------------------------------------------

/// A file is among the reached ones, no further away than `depth`, by an edge.
pub open spec fn reached_by(
    found: Seq<ReachedView>,
    path: Seq<char>,
    depth: u32,
    edge: (Seq<char>, ReferenceKind, u32),
) -> bool {
    exists|i: int|
        0 <= i < found.len() && (#[trigger] found[i]).path == path && found[i].distance <= depth
            && found[i].edges.contains(edge)
}

proof fn lemma_position_holds(found: Seq<ReachedView>, path: Seq<char>)
    ensures
        match impact::position(found, path) {
            Some(i) => 0 <= i < found.len() && found[i].path == path,
            None => true,
        },
    decreases found.len(),
{
    if found.len() > 0 && found.last().path != path {
        lemma_position_holds(found.drop_last(), path);
    }
}

proof fn lemma_noted_reaches(
    found: Seq<ReachedView>,
    path: Seq<char>,
    depth: u32,
    edge: (Seq<char>, ReferenceKind, u32),
)
    ensures
        reached_by(impact::noted(found, path, depth, edge), path, depth, edge),
{
    lemma_position_holds(found, path);
    let after = impact::noted(found, path, depth, edge);
    match impact::position(found, path) {
        Some(i) => {
            let edges = found[i].edges;
            assert(after[i].path == path);
            if !edges.contains(edge) {
                assert(after[i].edges[edges.len() as int] == edge);
            }
        },
        None => {
            let n = found.len() as int;
            assert(after[n].path == path);
            assert(after[n].edges[0] == edge);
        },
    }
}

proof fn lemma_noted_keeps(
    found: Seq<ReachedView>,
    path: Seq<char>,
    depth: u32,
    edge: (Seq<char>, ReferenceKind, u32),
    p: Seq<char>,
    d: u32,
    e: (Seq<char>, ReferenceKind, u32),
)
    requires
        reached_by(found, p, d, e),
    ensures
        reached_by(impact::noted(found, path, depth, edge), p, d, e),
{
    lemma_position_holds(found, path);
    let after = impact::noted(found, path, depth, edge);
    let i = choose|i: int|
        0 <= i < found.len() && (#[trigger] found[i]).path == p && found[i].distance <= d && found[i].edges.contains(e);
    let m = choose|m: int| 0 <= m < found[i].edges.len() && found[i].edges[m] == e;
    assert(after[i].path == p);
    assert(after[i].edges[m] == e);
    assert(after[i].distance <= d);
}

/// A level finds every file that its rows come from: each row from outside the
/// target makes its file a dependent, no further away than the level, through
/// the name that the row goes through.
pub proof fn law_a_level_finds_every_file_that_refers(
    found: Seq<ReachedView>,
    origins: Seq<Seq<char>>,
    rows: Seq<Reference>,
    through: spec_fn(Reference) -> Seq<char>,
    depth: u32,
    k: int,
)
    requires
        0 <= k < rows.len(),
        !origins.contains(rows[k].from_file@),
    ensures
        reached_by(
            impact::noted_all(found, origins, rows, through, depth),
            rows[k].from_file@,
            depth,
            (through(rows[k]), rows[k].kind, rows[k].line),
        ),
    decreases rows.len(),
{
    let front = rows.drop_last();
    let before = impact::noted_all(found, origins, front, through, depth);
    let last = rows.last();
    let edge = (through(last), last.kind, last.line);
    if k < front.len() {
        law_a_level_finds_every_file_that_refers(found, origins, front, through, depth, k);
        if !origins.contains(last.from_file@) {
            lemma_noted_keeps(
                before,
                last.from_file@,
                depth,
                edge,
                rows[k].from_file@,
                depth,
                (through(rows[k]), rows[k].kind, rows[k].line),
            );
        }
    } else {
        lemma_noted_reaches(before, last.from_file@, depth, edge);
    }
}

/// A level finds nothing else: a file that was not reached before is one that a
/// row from outside the target comes from, and it stands at the level's depth.
pub proof fn law_a_level_finds_only_files_that_refer(
    found: Seq<ReachedView>,
    origins: Seq<Seq<char>>,
    rows: Seq<Reference>,
    through: spec_fn(Reference) -> Seq<char>,
    depth: u32,
    i: int,
)
    requires
        0 <= i < impact::noted_all(found, origins, rows, through, depth).len(),
    ensures
        ({
            let after = impact::noted_all(found, origins, rows, through, depth);
            ||| i < found.len() && after[i].path == found[i].path
            ||| after[i].distance == depth && exists|k: int|
                0 <= k < rows.len() && (#[trigger] rows[k]).from_file@ == after[i].path && !origins.contains(
                    rows[k].from_file@,
                )
        }),
    decreases rows.len(),
{
    if rows.len() > 0 {
        let front = rows.drop_last();
        let before = impact::noted_all(found, origins, front, through, depth);
        let after = impact::noted_all(found, origins, rows, through, depth);
        let last = rows.last();
        lemma_position_holds(before, last.from_file@);
        if i < before.len() {
            law_a_level_finds_only_files_that_refer(found, origins, front, through, depth, i);
            assert(after[i].path == before[i].path);
            if !(i < found.len() && before[i].path == found[i].path) {
                let k = choose|k: int|
                    0 <= k < front.len() && (#[trigger] front[k]).from_file@ == before[i].path && !origins.contains(
                        front[k].from_file@,
                    );
                assert(rows[k].from_file@ == after[i].path);
            }
        } else {
            assert(rows[rows.len() - 1].from_file@ == after[i].path);
        }
    }
}

/// The definition that owns a reference is the one whose qualified name was
/// recorded with it; where none of that name is listed, one whose lines enclose
/// the reference, and no enclosing one is shorter. There is none only where no
/// listed definition has the name and none encloses the line.
pub proof fn law_a_reference_belongs_to_the_definition_around_it(
    defs: Seq<Symbol>,
    recorded: Option<Seq<char>>,
    line: u32,
)
    ensures
        match symbols::owner(defs, recorded, line) {
            Some(i) => {
                &&& 0 <= i < defs.len()
                &&& {
                    ||| recorded == Some(defs[i].qualified_name@)
                    ||| {
                        &&& defs[i].line_start <= line <= defs[i].line_end
                        &&& forall|j: int|
                            0 <= j < defs.len() && (#[trigger] defs[j]).line_start <= line <= defs[j].line_end
                                ==> defs[i].line_end - defs[i].line_start <= defs[j].line_end - defs[j].line_start
                        &&& forall|j: int|
                            0 <= j < defs.len() ==> recorded != Some((#[trigger] defs[j]).qualified_name@)
                    }
                }
            },
            None => forall|j: int|
                0 <= j < defs.len() ==> recorded != Some((#[trigger] defs[j]).qualified_name@) && !(defs[j].line_start
                    <= line <= defs[j].line_end),
        },
{
    if recorded is Some {
        lemma_named(defs, recorded->0, 0);
    }
    if symbols::owner(defs, recorded, line) is None {
        assert forall|j: int| 0 <= j < defs.len() implies recorded != Some((#[trigger] defs[j]).qualified_name@) && !(
        defs[j].line_start <= line <= defs[j].line_end) by {
            if symbols::encloses(defs[j], line) {
                symbols::law_an_enclosed_line_has_an_innermost_definition(defs, line, j);
            }
        }
    } else if symbols::innermost_at(defs, line) is Some {
        let i = symbols::innermost_at(defs, line)->0;
        assert(symbols::is_innermost(defs, line, i));
        assert forall|j: int|
            0 <= j < defs.len() && (#[trigger] defs[j]).line_start <= line <= defs[j].line_end implies defs[i].line_end
            - defs[i].line_start <= defs[j].line_end - defs[j].line_start by {
            assert(symbols::encloses(defs[j], line));
        }
    }
}

proof fn lemma_named(defs: Seq<Symbol>, qn: Seq<char>, i: int)
    requires
        0 <= i,
    ensures
        match symbols::named_from(defs, qn, i) {
            Some(k) => i <= k < defs.len() && defs[k].qualified_name@ == qn,
            None => forall|j: int| i <= j < defs.len() ==> (#[trigger] defs[j]).qualified_name@ != qn,
        },
    decreases defs.len() - i,
{
    if i < defs.len() && defs[i].qualified_name@ != qn {
        lemma_named(defs, qn, i + 1);
    }
}

proof fn lemma_listed(by_file: Seq<impact::FileSymbols>, path: Seq<char>, i: int)
    requires
        0 <= i,
    ensures
        match impact::listed_from(by_file, path, i) {
            Some(k) => i <= k < by_file.len() && by_file[k].path@ == path,
            None => forall|j: int| i <= j < by_file.len() ==> (#[trigger] by_file[j]).path@ != path,
        },
    decreases by_file.len() - i,
{
    if i < by_file.len() && by_file[i].path@ != path {
        lemma_listed(by_file, path, i + 1);
    }
}

/// A definition of a listed file is the one that a reference from that file
/// belongs to.
pub open spec fn belongs_to(r: Reference, by_file: Seq<impact::FileSymbols>, f: int, d: int) -> bool {
    &&& 0 <= f < by_file.len()
    &&& by_file[f].path@ == r.from_file@
    &&& symbols::owner(by_file[f].symbols@, text::view_opt(r.from_symbol), r.line) == Some(d)
}

/// The next level looks for the references to what referred on this one: every
/// symbol of it is the definition that a pending reference belongs to, and every
/// definition that one belongs to is looked for, where the file is listed once.
pub proof fn law_the_next_level_holds_what_refers(
    rows: Seq<Reference>,
    by_file: Seq<impact::FileSymbols>,
    k: int,
    f: int,
    d: int,
)
    requires
        0 <= k < rows.len(),
        belongs_to(rows[k], by_file, f, d),
        forall|j: int| 0 <= j < by_file.len() && j != f ==> (#[trigger] by_file[j]).path@ != by_file[f].path@,
    ensures
        symbols::keys(impact::next_symbols(rows, by_file)).contains(by_file[f].symbols@[d].key()),
{
    lemma_listed(by_file, rows[k].from_file@, 0);
    lemma_callers_hold(rows, by_file, k);
    let all = impact::callers(rows, by_file);
    symbols::law_first_appearances_lose_no_definition(all);
    let s = by_file[f].symbols@[d];
    assert(impact::caller(rows[k], by_file) == Some(s));
    let i = choose|i: int| 0 <= i < all.len() && all[i] == s;
    assert(symbols::keys(all)[i] == s.key());
}

proof fn lemma_callers_hold(rows: Seq<Reference>, by_file: Seq<impact::FileSymbols>, k: int)
    requires
        0 <= k < rows.len(),
        impact::caller(rows[k], by_file) is Some,
    ensures
        impact::callers(rows, by_file).contains(impact::caller(rows[k], by_file)->0),
    decreases rows.len(),
{
    let front = rows.drop_last();
    let all = impact::callers(rows, by_file);
    if k < front.len() {
        lemma_callers_hold(front, by_file, k);
        let some = impact::callers(front, by_file);
        let i = choose|i: int| 0 <= i < some.len() && some[i] == impact::caller(rows[k], by_file)->0;
        assert(all[i] == some[i]);
    } else {
        assert(all[all.len() - 1] == impact::caller(rows[k], by_file)->0);
    }
}

/// A step to the next level: the level rises by one, no more symbols and files
/// are looked for than the frontier may hold, the walk is capped where some are
/// left out, and a file is looked for only once.
pub proof fn law_a_frontier_is_bounded_and_says_so(a: Walk, b: Walk, by_file: Seq<impact::FileSymbols>)
    requires
        impact::advanced(a, b, by_file),
    ensures
        b.depth == a.depth + 1,
        b.frontier@.len() <= a.max_frontier,
        b.file_frontier@.len() <= a.max_frontier,
        impact::next_symbols(a.pending@, by_file).len() > a.max_frontier ==> b.capped,
        b.capped && !a.capped ==> b.frontier@.len() == a.max_frontier || b.file_frontier@.len() == a.max_frontier,
        a.capped ==> b.capped,
        forall|i: int|
            0 <= i < b.file_frontier@.len() ==> !text::views(a.visited_files@).contains(
                (#[trigger] b.file_frontier@[i])@,
            ),
{
    broadcast use text::group_views;

    let files = impact::next_files(a.file_target, a.pending@, text::views(a.visited_files@));
    let shown = text::views(b.file_frontier@);
    assert(shown.len() == b.file_frontier@.len());
    assert forall|i: int| 0 <= i < b.file_frontier@.len() implies !text::views(a.visited_files@).contains(
        (#[trigger] b.file_frontier@[i])@,
    ) by {
        assert(shown[i] == b.file_frontier@[i]@);
        assert(files[i] == shown[i]);
        assert(files.contains(files[i]));
        if a.file_target {
            let keep = |p: Seq<char>| !text::views(a.visited_files@).contains(p);
            let sources = order::ascending_set(impact::sources_of(a.pending@));
            assert(files == sources.filter(keep));
            sources.lemma_filter_contains_rev(keep, files[i]);
        }
    }
}

/// A file target is followed through the files that refer to it: every file that
/// a pending reference comes from and that was not visited is looked for, up to
/// the bound.
pub proof fn law_a_file_walk_follows_every_referring_file(
    rows: Seq<Reference>,
    visited: Seq<Seq<char>>,
    k: int,
)
    requires
        0 <= k < rows.len(),
        !visited.contains(rows[k].from_file@),
    ensures
        impact::next_files(true, rows, visited).contains(rows[k].from_file@),
{
    let sources = impact::sources_of(rows);
    order::lemma_ascending_set_holds(sources);
    let all = order::ascending_set(sources);
    assert(sources[k] == rows[k].from_file@);
    assert(all.contains(rows[k].from_file@));
    let i = choose|i: int| 0 <= i < all.len() && all[i] == rows[k].from_file@;
    let keep = |p: Seq<char>| !visited.contains(p);
    all.lemma_filter_contains(keep, i);
}

} // verus!
