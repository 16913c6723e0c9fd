//! What an index pass does, and which definition is which.
use vstd::prelude::*;
use crate::impact;
use crate::index;
use crate::index::{FileRow, IndexPlan, IndexStrategy, ParsedFile};
use crate::model::{Reference, Symbol};
use crate::symbols;
use crate::text;

verus! {

// ---------------------------------------------------------------------------
// Passes
// ---------------------------------------------------------------------------

proof fn lemma_stored_hash(stored: Seq<FileRow>, path: Seq<char>)
    ensures
        index::stored_hash(stored, path) matches Some(h) ==> exists|k: int|
            0 <= k < stored.len() && (#[trigger] stored[k]).path@ == path && stored[k].content_hash@ == h,
        index::stored_hash(stored, path) is None ==> forall|k: int|
            0 <= k < stored.len() ==> (#[trigger] stored[k]).path@ != path,
    decreases stored.len(),
{
    if stored.len() > 0 {
        assert(stored[stored.len() - 1] == stored.last());
        if stored.last().path@ != path {
            let less = stored.drop_last();
            lemma_stored_hash(less, path);
            if index::stored_hash(less, path) is Some {
                let k = choose|k: int|
                    0 <= k < less.len() && (#[trigger] less[k]).path@ == path && less[k].content_hash@
                        == index::stored_hash(less, path)->0;
                assert(stored[k] == less[k]);
            } else {
                assert forall|k: int| 0 <= k < stored.len() implies (#[trigger] stored[k]).path@ != path by {
                    if k < less.len() {
                        assert(less[k] == stored[k]);
                    }
                }
            }
        }
    }
}

proof fn lemma_read_positions(strategy: IndexStrategy, stored: Seq<FileRow>, files: Seq<FileRow>, k: int)
    requires
        0 <= k < files.len() <= usize::MAX,
    ensures
        index::read_positions(strategy, stored, files).contains(k as usize) <==> strategy == IndexStrategy::Full
            || index::stored_hash(stored, files[k].path@) != Some(files[k].content_hash@),
        forall|i: int|
            0 <= i < index::read_positions(strategy, stored, files).len() ==> (#[trigger] index::read_positions(
                strategy,
                stored,
                files,
            )[i]) < files.len(),
        index::read_positions(strategy, stored, files).len() <= files.len(),
    decreases files.len(),
{
    let less = files.drop_last();
    let front = index::read_positions(strategy, stored, less);
    let all = index::read_positions(strategy, stored, files);
    let n = files.len() - 1;
    if less.len() > 0 {
        lemma_read_positions(strategy, stored, less, if k < less.len() { k } else { 0 });
    }
    if k < less.len() {
        assert(less[k] == files[k]);
        if front.contains(k as usize) {
            let i = choose|i: int| 0 <= i < front.len() && front[i] == k;
            assert(all[i] == k);
        }
        if all.contains(k as usize) && !front.contains(k as usize) {
            let i = choose|i: int| 0 <= i < all.len() && all[i] == k;
            if i < front.len() {
                assert(front[i] == k);
            }
        }
    } else {
        if index::is_read(strategy, stored, files.last()) {
            assert(all[front.len() as int] == n);
        } else if all.contains(k as usize) {
            let i = choose|i: int| 0 <= i < all.len() && all[i] == k;
            assert(front[i] == k);
        }
    }
}

/// A pass removes the indexed paths that are no file any more, and only these. A
/// full pass reads every file; an incremental one those whose text is not the one
/// that was stored under their path. The others are skipped.
pub proof fn law_a_pass_reads_what_changed_and_removes_what_is_gone(
    out: IndexPlan,
    files: Seq<FileRow>,
    existing: Seq<Seq<char>>,
    stored: Seq<FileRow>,
    strategy: IndexStrategy,
    k: int,
    x: Seq<char>,
)
    requires
        index::plans(out, files, existing, stored, strategy),
        0 <= k < files.len() <= usize::MAX,
    ensures
        text::views(out.orphans@).contains(x) <==> existing.contains(x) && forall|j: int|
            0 <= j < files.len() ==> (#[trigger] files[j]).path@ != x,
        strategy == IndexStrategy::Full ==> out.to_parse@.contains(k as usize),
        strategy == IndexStrategy::Incremental && (forall|j: int|
            0 <= j < stored.len() && (#[trigger] stored[j]).path@ == files[k].path@ ==> stored[j].content_hash@
                != files[k].content_hash@) ==> out.to_parse@.contains(k as usize),
        strategy == IndexStrategy::Incremental && (exists|j: int|
            0 <= j < stored.len() && (#[trigger] stored[j]).path@ == files[k].path@) && (forall|j: int|
            0 <= j < stored.len() && (#[trigger] stored[j]).path@ == files[k].path@ ==> stored[j].content_hash@
                == files[k].content_hash@) ==> !out.to_parse@.contains(k as usize),
        out.skipped + out.to_parse@.len() == files.len(),
{
    lemma_read_positions(strategy, stored, files, k);
    lemma_stored_hash(stored, files[k].path@);
    let gone = |p: Seq<char>| !index::row_paths(files).contains(p);
    let left = existing.filter(gone);
    assert(text::views(out.orphans@) == left);
    assert(index::row_paths(files).contains(x) <==> exists|j: int|
        0 <= j < files.len() && (#[trigger] files[j]).path@ == x) by {
        if index::row_paths(files).contains(x) {
            let j = choose|j: int| 0 <= j < files.len() && index::row_paths(files)[j] == x;
            assert(files[j].path@ == x);
        }
        if exists|j: int| 0 <= j < files.len() && (#[trigger] files[j]).path@ == x {
            let j = choose|j: int| 0 <= j < files.len() && (#[trigger] files[j]).path@ == x;
            assert(index::row_paths(files)[j] == x);
        }
    }
    if left.contains(x) {
        let i = choose|i: int| 0 <= i < left.len() && left[i] == x;
        existing.lemma_filter_pred(gone, i);
        existing.lemma_filter_contains_rev(gone, x);
    }
    if existing.contains(x) && gone(x) {
        let i = choose|i: int| 0 <= i < existing.len() && existing[i] == x;
        existing.lemma_filter_contains(gone, i);
    }
}

/// Two references are one where they name the same thing in the same way at the
/// same place; a difference in any of these keeps both.
pub proof fn law_references_collapse_where_nothing_differs(s: Seq<Reference>, r: Reference)
    ensures
        ({
            let a = index::first_by_key(s);
            let b = index::first_by_key(s.push(r));
            &&& (exists|i: int| {
                &&& 0 <= i < a.len()
                &&& (#[trigger] a[i]).to_name@ == r.to_name@
                &&& a[i].kind == r.kind
                &&& a[i].line == r.line
                &&& a[i].col == r.col
            }) ==> b == a
            &&& (forall|i: int|
                0 <= i < a.len() ==> (#[trigger] a[i]).to_name@ != r.to_name@ || a[i].kind != r.kind || a[i].line
                    != r.line || a[i].col != r.col) ==> b == a.push(r)
        }),
{
    assert(s.push(r).drop_last() =~= s);
    let a = index::first_by_key(s);
    if exists|i: int| {
        &&& 0 <= i < a.len()
        &&& (#[trigger] a[i]).to_name@ == r.to_name@
        &&& a[i].kind == r.kind
        &&& a[i].line == r.line
        &&& a[i].col == r.col
    } {
        let i = choose|i: int| {
            &&& 0 <= i < a.len()
            &&& (#[trigger] a[i]).to_name@ == r.to_name@
            &&& a[i].kind == r.kind
            &&& a[i].line == r.line
            &&& a[i].col == r.col
        };
        assert(index::reference_key(a[i]) == index::reference_key(r));
    }
}

/// What a pass counts: the symbols and the references of every file, and the
/// files that were read in part.
pub proof fn law_a_pass_counts_every_file(s: Seq<ParsedFile>, f: ParsedFile)
    ensures
        index::total_symbols(Seq::empty()) == 0,
        index::total_references(Seq::empty()) == 0,
        index::total_degraded(Seq::empty()) == 0,
        index::total_symbols(s.push(f)) == index::total_symbols(s) + f.symbols,
        index::total_references(s.push(f)) == index::total_references(s) + f.references,
        f.degraded ==> index::total_degraded(s.push(f)) == index::total_degraded(s) + 1,
        !f.degraded ==> index::total_degraded(s.push(f)) == index::total_degraded(s),
{
    assert(s.push(f).drop_last() =~= s);
}

/// A reference belongs to the smallest definition around its line, first and last
/// line included; the rest of it stays as it is.
pub proof fn law_a_reference_gets_the_smallest_definition_around_it(
    defs: Seq<Symbol>,
    before: Reference,
    after: Reference,
)
    requires
        index::owned(defs, before, after),
    ensures
        after.from_file == before.from_file,
        after.to_name == before.to_name,
        after.kind == before.kind,
        after.line == before.line,
        after.col == before.col,
        (forall|k: int|
            0 <= k < defs.len() ==> !((#[trigger] defs[k]).line_start <= before.line && before.line <= defs[k].line_end))
            ==> after.from_symbol == before.from_symbol,
        (exists|k: int|
            0 <= k < defs.len() && (#[trigger] defs[k]).line_start <= before.line && before.line <= defs[k].line_end)
            ==> exists|i: int| {
            &&& 0 <= i < defs.len()
            &&& (#[trigger] defs[i]).line_start <= before.line
            &&& before.line <= defs[i].line_end
            &&& after.from_symbol matches Some(n) && n@ == defs[i].qualified_name@
            &&& forall|k: int|
                0 <= k < defs.len() && (#[trigger] defs[k]).line_start <= before.line && before.line <= defs[k].line_end
                    ==> defs[i].line_end - defs[i].line_start < defs[k].line_end - defs[k].line_start || (
                defs[i].line_end - defs[i].line_start == defs[k].line_end - defs[k].line_start && i <= k)
        },
{
    if exists|k: int|
        0 <= k < defs.len() && (#[trigger] defs[k]).line_start <= before.line && before.line <= defs[k].line_end {
        let k = choose|k: int|
            0 <= k < defs.len() && (#[trigger] defs[k]).line_start <= before.line && before.line <= defs[k].line_end;
        symbols::law_an_enclosed_line_has_an_innermost_definition(defs, before.line, k);
        let i = symbols::innermost_at(defs, before.line)->0;
        assert(symbols::is_innermost(defs, before.line, i));
        assert forall|k: int|
            0 <= k < defs.len() && (#[trigger] defs[k]).line_start <= before.line && before.line
                <= defs[k].line_end implies defs[i].line_end - defs[i].line_start < defs[k].line_end
            - defs[k].line_start || (defs[i].line_end - defs[i].line_start == defs[k].line_end - defs[k].line_start
            && i <= k) by {
            assert(symbols::encloses(defs[k], before.line));
        }
        assert(defs[i].line_start <= before.line);
    } else {
        assert forall|i: int| !(#[trigger] symbols::is_innermost(defs, before.line, i)) by {
            if 0 <= i < defs.len() {
                assert(!(defs[i].line_start <= before.line && before.line <= defs[i].line_end));
            }
        }
    }
}

proof fn lemma_named_from(defs: Seq<Symbol>, qn: Seq<char>, i: int)
    requires
        0 <= i,
    ensures
        match symbols::named_from(defs, qn, i) {
            Some(k) => i <= k < defs.len() && defs[k].qualified_name@ == qn && forall|j: int|
                i <= j < k ==> (#[trigger] defs[j]).qualified_name@ != qn,
            None => forall|k: int| i <= k < defs.len() ==> (#[trigger] defs[k]).qualified_name@ != qn,
        },
    decreases defs.len() - i,
{
    if i < defs.len() && defs[i].qualified_name@ != qn {
        lemma_named_from(defs, qn, i + 1);
    }
}

/// The definition that a reference was recorded for owns it, where the file still
/// has it; else the smallest definition around its line.
pub proof fn law_the_recorded_definition_owns_its_reference(defs: Seq<Symbol>, qn: Seq<char>, line: u32)
    ensures
        (exists|k: int| 0 <= k < defs.len() && (#[trigger] defs[k]).qualified_name@ == qn) ==> (symbols::owner(
            defs,
            Some(qn),
            line,
        ) matches Some(i) && 0 <= i < defs.len() && defs[i].qualified_name@ == qn && forall|j: int|
            0 <= j < i ==> (#[trigger] defs[j]).qualified_name@ != qn),
        (forall|k: int| 0 <= k < defs.len() ==> (#[trigger] defs[k]).qualified_name@ != qn) ==> symbols::owner(
            defs,
            Some(qn),
            line,
        ) == symbols::innermost_at(defs, line),
        symbols::owner(defs, None, line) == symbols::innermost_at(defs, line),
{
    lemma_named_from(defs, qn, 0);
}

/// Two definitions are one where they share the file, the qualified name and the
/// first line.
pub proof fn law_a_definition_is_its_file_its_name_and_its_line(a: Symbol, b: Symbol)
    ensures
        a.key() == b.key() <==> a.file_path@ == b.file_path@ && a.qualified_name@ == b.qualified_name@ && a.line_start
            == b.line_start,
{
}

// ---------------------------------------------------------------------------
// References to a definition
// ---------------------------------------------------------------------------

/// A row refers to a definition exactly where it is among those that the row
/// means; rows keep their order.
pub proof fn law_a_row_refers_to_what_it_means(
    rows: Seq<Reference>,
    resolved: Seq<Vec<Symbol>>,
    r: Reference,
    found: Vec<Symbol>,
    s: Symbol,
)
    requires
        rows.len() == resolved.len(),
    ensures
        ({
            let a = impact::rows_resolving_to(rows, resolved, s.key());
            let b = impact::rows_resolving_to(rows.push(r), resolved.push(found), s.key());
            let means = exists|k: int| {
                &&& 0 <= k < found@.len()
                &&& (#[trigger] found@[k]).file_path@ == s.file_path@
                &&& found@[k].qualified_name@ == s.qualified_name@
                &&& found@[k].line_start == s.line_start
            };
            &&& means ==> b == a.push(r)
            &&& !means ==> b == a
        }),
{
    let all = resolved.push(found);
    assert(rows.push(r).drop_last() =~= rows);
    lemma_same_rows(rows, resolved, all, s);
    let keys = symbols::keys(found@);
    assert(all[rows.len() as int] == found);
    if keys.contains(s.key()) {
        let k = choose|k: int| 0 <= k < keys.len() && keys[k] == s.key();
        assert(found@[k].file_path@ == s.file_path@);
    }
    if exists|k: int| {
        &&& 0 <= k < found@.len()
        &&& (#[trigger] found@[k]).file_path@ == s.file_path@
        &&& found@[k].qualified_name@ == s.qualified_name@
        &&& found@[k].line_start == s.line_start
    } {
        let k = choose|k: int| {
            &&& 0 <= k < found@.len()
            &&& (#[trigger] found@[k]).file_path@ == s.file_path@
            &&& found@[k].qualified_name@ == s.qualified_name@
            &&& found@[k].line_start == s.line_start
        };
        assert(keys[k] == s.key());
    }
}

proof fn lemma_same_rows(rows: Seq<Reference>, a: Seq<Vec<Symbol>>, b: Seq<Vec<Symbol>>, s: Symbol)
    requires
        rows.len() <= a.len(),
        rows.len() <= b.len(),
        forall|i: int| 0 <= i < rows.len() ==> #[trigger] a[i] == b[i],
    ensures
        impact::rows_resolving_to(rows, a, s.key()) == impact::rows_resolving_to(rows, b, s.key()),
    decreases rows.len(),
{
    if rows.len() > 0 {
        lemma_same_rows(rows.drop_last(), a, b, s);
        assert(a[rows.len() - 1] == b[rows.len() - 1]);
    }
}

/// Looking through so many files for a name of so many definitions costs their
/// product, and one a file where nothing is defined.
pub proof fn law_a_lookup_costs_files_times_definitions(files: usize, definitions: usize)
    ensures
        definitions > 0 && files * definitions <= usize::MAX ==> impact::priced_at(files, definitions) == files
            * definitions,
        definitions == 0 ==> impact::priced_at(files, definitions) == files,
        definitions > 0 && files * definitions > usize::MAX ==> impact::priced_at(files, definitions) == usize::MAX,
{
}

/// A bare name is ambiguous where definitions of different qualified names share
/// it; a qualified name never is.
pub proof fn law_a_name_is_ambiguous_where_definitions_differ(name: Seq<char>, defs: Seq<Symbol>, i: int, j: int)
    requires
        0 <= i < j < defs.len(),
    ensures
        impact::qualified(name) ==> !impact::ambiguous(name, defs),
        !impact::qualified(name) && defs[i].qualified_name@ != defs[j].qualified_name@ ==> impact::ambiguous(name, defs),
        (forall|k: int| 0 <= k < defs.len() ==> (#[trigger] defs[k]).qualified_name@ == defs[0].qualified_name@)
            ==> !impact::ambiguous(name, defs),
{
    let names = impact::qualified_names(defs);
    let set = crate::order::ascending_set(names);
    crate::order::lemma_ascending_set_holds(names);
    assert(names[i] == defs[i].qualified_name@ && names[j] == defs[j].qualified_name@);
    assert(names.contains(names[i]) && names.contains(names[j]));
    assert(set.contains(names[i]) && set.contains(names[j]));
    if names[i] != names[j] {
        let a = choose|a: int| 0 <= a < set.len() && set[a] == names[i];
        let b = choose|b: int| 0 <= b < set.len() && set[b] == names[j];
        assert(a != b);
        assert(set.len() > 1);
    }
    if (forall|k: int| 0 <= k < defs.len() ==> (#[trigger] defs[k]).qualified_name@ == defs[0].qualified_name@)
        && set.len() > 1 {
        assert(set.contains(set[0]) && set.contains(set[1]));
        assert(names.contains(set[0]) && names.contains(set[1]));
        let a = choose|a: int| 0 <= a < names.len() && names[a] == set[0];
        let b = choose|b: int| 0 <= b < names.len() && names[b] == set[1];
        assert(defs[a].qualified_name@ == defs[0].qualified_name@ && defs[b].qualified_name@ == defs[0].qualified_name@);
        assert(crate::order::text_before(set[0], set[1]));
        crate::order::lemma_text_before_irreflexive(set[0]);
    }
}

/// An entry tells at most ten reasons, the first ones.
pub proof fn law_an_entry_tells_ten_reasons(r: impact::ReachedView, c: crate::model::FileCategory)
    ensures
        r.edges.len() <= 10 ==> impact::entry(r, c).reasons == r.edges,
        r.edges.len() > 10 ==> impact::entry(r, c).reasons == r.edges.take(10),
        impact::entry(r, c).path == r.path,
        impact::entry(r, c).distance == r.distance,
        impact::entry(r, c).category == c,
{
}

} // verus!
