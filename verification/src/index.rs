//! One pass of the structural index: what is stored of a file, which files a
//! pass reads and drops, and what it counts.
use vstd::prelude::*;
use vstd::string::*;
use crate::model::{Reference, ReferenceKind, Symbol};
use crate::symbols;
use crate::symbols::innermost;
use crate::text;
use crate::text::{concat3, copy_strings, same};

verus! {

// ---------------------------------------------------------------------------
// The references of a file
// ---------------------------------------------------------------------------

/// What identifies a reference within its file.
pub type ReferenceKey = (Seq<char>, ReferenceKind, u32, u32);

pub open spec fn reference_key(r: Reference) -> ReferenceKey {
    (r.to_name@, r.kind, r.line, r.col)
}

/// A reference of that key is listed.
pub open spec fn has_key(s: Seq<Reference>, k: ReferenceKey) -> bool {
    exists|i: int| 0 <= i < s.len() && reference_key(#[trigger] s[i]) == k
}

/// The first reference of each key.
pub open spec fn first_by_key(s: Seq<Reference>) -> Seq<Reference>
    decreases s.len(),
{
    if s.len() == 0 {
        s
    } else {
        let before = first_by_key(s.drop_last());
        if has_key(before, reference_key(s.last())) {
            before
        } else {
            before.push(s.last())
        }
    }
}

fn is_listed(v: &Vec<Reference>, r: &Reference) -> (found: bool)
    ensures
        found == has_key(v@, reference_key(*r)),
{
    let mut i: usize = 0;
    while i < v.len()
        invariant
            i <= v.len(),
            forall|j: int| 0 <= j < i ==> reference_key(#[trigger] v@[j]) != reference_key(*r),
        decreases v.len() - i,
    {
        let x = &v[i];
        if x.line == r.line && x.col == r.col && x.kind == r.kind && same(
            x.to_name.as_str(),
            r.to_name.as_str(),
        ) {
            assert(reference_key(v@[i as int]) == reference_key(*r));
            return true;
        }
        i += 1;
    }
    false
}

/// Collapses references that share a key to the first of them.
pub fn dedupe_refs(refs: &mut Vec<Reference>)
    ensures
        final(refs)@ == first_by_key(old(refs)@),
{
    let ghost all = refs@;
    let mut out: Vec<Reference> = Vec::new();
    let mut i: usize = 0;
    while i < refs.len()
        invariant
            i <= refs.len(),
            all == refs@,
            out@ == first_by_key(all.take(i as int)),
        decreases refs.len() - i,
    {
        assert(all.take(i + 1).drop_last() =~= all.take(i as int));
        if !is_listed(&out, &refs[i]) {
            out.push(refs[i].clone());
        }
        i += 1;
    }
    assert(all.take(refs.len() as int) =~= all);
    *refs = out;
}

/// After references are collapsed no two share a key, and every key is still
/// there.
pub proof fn law_collapsing_keeps_every_key_once(s: Seq<Reference>)
    ensures
        forall|i: int, j: int|
            0 <= i < j < first_by_key(s).len() ==> reference_key(#[trigger] first_by_key(s)[i])
                != reference_key(#[trigger] first_by_key(s)[j]),
        forall|k: ReferenceKey| #[trigger] has_key(first_by_key(s), k) <==> has_key(s, k),
    decreases s.len(),
{
    let out = first_by_key(s);
    if s.len() > 0 {
        let less = s.drop_last();
        let was = first_by_key(less);
        let n = s.len() - 1;
        law_collapsing_keeps_every_key_once(less);
        assert forall|i: int, j: int| 0 <= i < j < out.len() implies reference_key(
            #[trigger] out[i],
        ) != reference_key(#[trigger] out[j]) by {
            if j < was.len() {
                assert(out[i] == was[i] && out[j] == was[j]);
            } else {
                assert(out[i] == was[i]);
            }
        }
        assert forall|k: ReferenceKey| #[trigger] has_key(out, k) <==> has_key(s, k) by {
            if has_key(out, k) {
                let i = choose|i: int| 0 <= i < out.len() && reference_key(#[trigger] out[i]) == k;
                if i < was.len() {
                    assert(was[i] == out[i]);
                    assert(has_key(was, k));
                    let a = choose|a: int|
                        0 <= a < less.len() && reference_key(#[trigger] less[a]) == k;
                    assert(s[a] == less[a]);
                } else {
                    assert(s[n] == out[i]);
                }
            }
            if has_key(s, k) {
                let a = choose|a: int| 0 <= a < s.len() && reference_key(#[trigger] s[a]) == k;
                if a < n {
                    assert(less[a] == s[a]);
                    assert(has_key(less, k));
                }
                if has_key(was, k) {
                    let i = choose|i: int|
                        0 <= i < was.len() && reference_key(#[trigger] was[i]) == k;
                    assert(out[i] == was[i]);
                } else {
                    assert(out[out.len() - 1] == s[n]);
                }
            }
        }
    } else {
        assert(out =~= s);
    }
}

/// `after` is the reference with the innermost definition around it as its
/// origin; where none encloses its line, its origin stays.
pub open spec fn owned(defs: Seq<Symbol>, before: Reference, after: Reference) -> bool {
    &&& after.from_file == before.from_file
    &&& after.to_name == before.to_name
    &&& after.kind == before.kind
    &&& after.line == before.line
    &&& after.col == before.col
    &&& match symbols::innermost_at(defs, before.line) {
        Some(i) => after.from_symbol is Some && after.from_symbol->0@ == defs[i].qualified_name@,
        None => after.from_symbol == before.from_symbol,
    }
}

/// Gives each reference the qualified name of the innermost definition whose
/// lines enclose it.
pub fn populate_from_symbol(defs: &Vec<Symbol>, refs: &mut Vec<Reference>)
    ensures
        final(refs)@.len() == old(refs)@.len(),
        forall|i: int|
            0 <= i < old(refs)@.len() ==> owned(
                defs@,
                old(refs)@[i],
                #[trigger] final(refs)@[i],
            ),
{
    let ghost all = refs@;
    let mut i: usize = 0;
    while i < refs.len()
        invariant
            i <= refs.len(),
            refs@.len() == all.len(),
            forall|j: int| i <= j < all.len() ==> #[trigger] refs@[j] == all[j],
            forall|j: int| 0 <= j < i ==> owned(defs@, all[j], #[trigger] refs@[j]),
        decreases refs.len() - i,
    {
        if let Some(at) = innermost(defs, refs[i].line) {
            let r = Reference {
                from_file: refs[i].from_file.clone(),
                from_symbol: Some(defs[at].qualified_name.clone()),
                to_name: refs[i].to_name.clone(),
                kind: refs[i].kind,
                line: refs[i].line,
                col: refs[i].col,
            };
            refs.set(i, r);
        }
        i += 1;
    }
}

// ---------------------------------------------------------------------------
// What a pass does
// ---------------------------------------------------------------------------

/// How much a pass rewrites.
#[derive(Debug, Clone, Copy, PartialEq, Eq, Structural)]
pub enum IndexStrategy {
    Full,
    Incremental,
}

/// The files written in one transaction.
pub const STRUCTURAL_INDEX_BATCH_SIZE: usize = 50;

/// A file with the hash of its content.
#[derive(Debug)]
pub struct FileRow {
    pub path: String,
    pub content_hash: String,
}

pub open spec fn row_paths(s: Seq<FileRow>) -> Seq<Seq<char>> {
    s.map_values(|r: FileRow| r.path@)
}

/// The hash stored for a path.
pub open spec fn stored_hash(stored: Seq<FileRow>, path: Seq<char>) -> Option<Seq<char>>
    decreases stored.len(),
{
    if stored.len() == 0 {
        None
    } else if stored.last().path@ == path {
        Some(stored.last().content_hash@)
    } else {
        stored_hash(stored.drop_last(), path)
    }
}

/// A pass reads a file: a full one each, an incremental one those whose stored
/// hash is not the present one.
pub open spec fn is_read(strategy: IndexStrategy, stored: Seq<FileRow>, f: FileRow) -> bool {
    strategy == IndexStrategy::Full || stored_hash(stored, f.path@) != Some(f.content_hash@)
}

/// The positions of the files that a pass reads.
pub open spec fn read_positions(
    strategy: IndexStrategy,
    stored: Seq<FileRow>,
    files: Seq<FileRow>,
) -> Seq<usize>
    decreases files.len(),
{
    if files.len() == 0 {
        Seq::empty()
    } else {
        let before = read_positions(strategy, stored, files.drop_last());
        if is_read(strategy, stored, files.last()) {
            before.push((files.len() - 1) as usize)
        } else {
            before
        }
    }
}

/// The indexed paths that were not discovered.
pub open spec fn orphaned(existing: Seq<Seq<char>>, files: Seq<FileRow>) -> Seq<Seq<char>> {
    existing.filter(|p: Seq<char>| !row_paths(files).contains(p))
}

/// What a pass over a discovered file set begins with.
#[derive(Debug)]
pub struct IndexPlan {
    /// Indexed paths to remove.
    pub orphans: Vec<String>,
    /// The positions of the files to read.
    pub to_parse: Vec<usize>,
    /// The files that need no reading.
    pub skipped: usize,
}

fn hash_is_stored(stored: &Vec<FileRow>, f: &FileRow) -> (r: bool)
    ensures
        r == (stored_hash(stored@, f.path@) == Some(f.content_hash@)),
{
    let mut n: usize = stored.len();
    assert(stored@.take(n as int) =~= stored@);
    while n > 0
        invariant
            n <= stored.len(),
            stored_hash(stored@, f.path@) == stored_hash(stored@.take(n as int), f.path@),
        decreases n,
    {
        assert(stored@.take(n as int).drop_last() =~= stored@.take(n - 1));
        n -= 1;
        if same(stored[n].path.as_str(), f.path.as_str()) {
            return same(stored[n].content_hash.as_str(), f.content_hash.as_str());
        }
    }
    false
}

fn is_discovered(files: &Vec<FileRow>, path: &str) -> (r: bool)
    ensures
        r == row_paths(files@).contains(path@),
{
    let ghost all = row_paths(files@);
    let mut i: usize = 0;
    while i < files.len()
        invariant
            i <= files.len(),
            all == row_paths(files@),
            forall|j: int| 0 <= j < i ==> #[trigger] all[j] != path@,
        decreases files.len() - i,
    {
        assert(all[i as int] == files@[i as int].path@);
        if same(files[i].path.as_str(), path) {
            return true;
        }
        i += 1;
    }
    false
}

/// What a pass does: which paths it removes, and which files it reads.
pub open spec fn plans(
    out: IndexPlan,
    files: Seq<FileRow>,
    existing: Seq<Seq<char>>,
    stored: Seq<FileRow>,
    strategy: IndexStrategy,
) -> bool {
    &&& text::views(out.orphans@) == orphaned(existing, files)
    &&& out.to_parse@ == read_positions(strategy, stored, files)
    &&& out.skipped == files.len() - out.to_parse@.len()
}

/// Plans a pass. `files` is the complete set of a project; `existing` are the
/// paths in the index and `stored` their hashes.
pub fn plan_index(
    files: &Vec<FileRow>,
    existing: &Vec<String>,
    stored: &Vec<FileRow>,
    strategy: IndexStrategy,
) -> (out: IndexPlan)
    ensures
        plans(out, files@, text::views(existing@), stored@, strategy),
{
    broadcast use text::group_views;
    let ghost had = text::views(existing@);
    let ghost lost = |p: Seq<char>| !row_paths(files@).contains(p);
    let mut orphans: Vec<String> = Vec::new();
    let mut i: usize = 0;
    assert(had.take(0).filter(lost) =~= Seq::<Seq<char>>::empty()) by {
        reveal(Seq::filter);
    }
    while i < existing.len()
        invariant
            i <= existing.len(),
            had == text::views(existing@),
            lost == (|p: Seq<char>| !row_paths(files@).contains(p)),
            text::views(orphans@) == had.take(i as int).filter(lost),
        decreases existing.len() - i,
    {
        broadcast use text::group_views;
        reveal(Seq::filter);
        assert(had.take(i + 1).drop_last() =~= had.take(i as int));
        assert(had.take(i + 1).last() == existing@[i as int]@);
        if !is_discovered(files, existing[i].as_str()) {
            orphans.push(existing[i].clone());
        }
        i += 1;
    }
    assert(had.take(existing.len() as int) =~= had);
    let mut to_parse: Vec<usize> = Vec::new();
    let mut k: usize = 0;
    while k < files.len()
        invariant
            k <= files.len(),
            to_parse@.len() <= k,
            to_parse@ == read_positions(strategy, stored@, files@.take(k as int)),
        decreases files.len() - k,
    {
        assert(files@.take(k + 1).drop_last() =~= files@.take(k as int));
        let read = match strategy {
            IndexStrategy::Full => true,
            IndexStrategy::Incremental => !hash_is_stored(stored, &files[k]),
        };
        if read {
            to_parse.push(k);
        }
        k += 1;
    }
    assert(files@.take(files.len() as int) =~= files@);
    let skipped: usize = files.len() - to_parse.len();
    IndexPlan { orphans, to_parse, skipped }
}

/// A full pass reads every file, in order.
pub proof fn law_a_full_pass_reads_every_file(stored: Seq<FileRow>, files: Seq<FileRow>)
    requires
        files.len() <= usize::MAX,
    ensures
        read_positions(IndexStrategy::Full, stored, files) == Seq::new(
            files.len(),
            |i: int| i as usize,
        ),
    decreases files.len(),
{
    let want = Seq::new(files.len(), |i: int| i as usize);
    if files.len() > 0 {
        law_a_full_pass_reads_every_file(stored, files.drop_last());
    }
    assert(read_positions(IndexStrategy::Full, stored, files) =~= want);
}

/// A file whose stored hash is the present one is left alone by an incremental
/// pass, and every other one is read.
pub proof fn law_an_incremental_pass_reads_what_changed(
    stored: Seq<FileRow>,
    files: Seq<FileRow>,
    i: int,
)
    requires
        0 <= i < files.len() <= usize::MAX,
    ensures
        read_positions(IndexStrategy::Incremental, stored, files).contains(i as usize)
            == (stored_hash(stored, files[i].path@) != Some(files[i].content_hash@)),
    decreases files.len(),
{
    let less = files.drop_last();
    let was = read_positions(IndexStrategy::Incremental, stored, less);
    let out = read_positions(IndexStrategy::Incremental, stored, files);
    lemma_positions_are_below(IndexStrategy::Incremental, stored, less);
    if i < less.len() {
        law_an_incremental_pass_reads_what_changed(stored, less, i);
        if was.contains(i as usize) {
            let a = choose|a: int| 0 <= a < was.len() && was[a] == i as usize;
            assert(out[a] == i as usize);
        }
        if out.contains(i as usize) {
            let a = choose|a: int| 0 <= a < out.len() && out[a] == i as usize;
            assert(a < was.len());
            assert(was[a] == i as usize);
        }
    } else {
        if is_read(IndexStrategy::Incremental, stored, files[i]) {
            assert(out[out.len() - 1] == i as usize);
        }
    }
}

proof fn lemma_positions_are_below(
    strategy: IndexStrategy,
    stored: Seq<FileRow>,
    files: Seq<FileRow>,
)
    requires
        files.len() <= usize::MAX,
    ensures
        forall|a: int|
            0 <= a < read_positions(strategy, stored, files).len() ==> #[trigger] read_positions(
                strategy,
                stored,
                files,
            )[a] < files.len(),
    decreases files.len(),
{
    if files.len() > 0 {
        let was = read_positions(strategy, stored, files.drop_last());
        let out = read_positions(strategy, stored, files);
        lemma_positions_are_below(strategy, stored, files.drop_last());
        assert forall|a: int| 0 <= a < out.len() implies #[trigger] out[a] < files.len() by {
            if a < was.len() {
                assert(out[a] == was[a]);
            }
        }
    }
}

/// The batches of a list: runs of the batch size, and what is left.
pub open spec fn batched(s: Seq<usize>) -> Seq<Seq<usize>>
    decreases s.len(),
{
    if s.len() == 0 {
        Seq::empty()
    } else if s.len() <= STRUCTURAL_INDEX_BATCH_SIZE {
        seq![s]
    } else {
        seq![s.take(STRUCTURAL_INDEX_BATCH_SIZE as int)] + batched(
            s.skip(STRUCTURAL_INDEX_BATCH_SIZE as int),
        )
    }
}

/// Parts the files to read into batches.
pub fn batches(to_parse: &Vec<usize>) -> (out: Vec<Vec<usize>>)
    ensures
        out@.map_values(|b: Vec<usize>| b@) == batched(to_parse@),
{
    let ghost all = to_parse@;
    let mut out: Vec<Vec<usize>> = Vec::new();
    let ghost shown = |b: Vec<usize>| b@;
    let mut from: usize = 0;
    assert(all.skip(0) =~= all);
    assert(out@.map_values(shown) + batched(all) =~= batched(all));
    while from < to_parse.len()
        invariant
            from <= to_parse.len(),
            all == to_parse@,
            shown == (|b: Vec<usize>| b@),
            out@.map_values(shown) + batched(all.skip(from as int)) == batched(all),
        decreases to_parse.len() - from,
    {
        let left: usize = to_parse.len() - from;
        let n: usize = if left < STRUCTURAL_INDEX_BATCH_SIZE {
            left
        } else {
            STRUCTURAL_INDEX_BATCH_SIZE
        };
        let mut batch: Vec<usize> = Vec::new();
        let mut k: usize = 0;
        while k < n
            invariant
                k <= n,
                n <= to_parse.len() - from,
                all == to_parse@,
                batch@ == all.subrange(from as int, from + k),
            decreases n - k,
        {
            batch.push(to_parse[from + k]);
            k += 1;
            assert(batch@ =~= all.subrange(from as int, from + k));
        }
        proof {
            let rest = all.skip(from as int);
            let done = out@.map_values(shown);
            assert(batch@ =~= rest.take(n as int));
            assert(rest.skip(n as int) =~= all.skip(from + n));
            assert(out@.push(batch).map_values(shown) =~= done.push(batch@));
            if left <= STRUCTURAL_INDEX_BATCH_SIZE {
                assert(rest.take(n as int) =~= rest);
                assert(all.skip(from + n).len() == 0);
            }
            assert(batched(rest) =~= seq![batch@] + batched(all.skip(from + n)));
            assert(done.push(batch@) + batched(all.skip(from + n)) =~= done + batched(rest));
        }
        out.push(batch);
        from += n;
    }
    assert(out@.map_values(shown) =~= batched(all));
    out
}

/// The batches hold every file once and in order, and none is empty or over
/// size.
pub proof fn law_batches_hold_every_file(s: Seq<usize>)
    ensures
        batched(s).flatten() == s,
        forall|i: int|
            0 <= i < batched(s).len() ==> 0 < (#[trigger] batched(s)[i]).len()
                <= STRUCTURAL_INDEX_BATCH_SIZE,
    decreases s.len(),
{
    if s.len() == 0 {
        assert(batched(s).flatten() =~= s);
    } else if s.len() <= STRUCTURAL_INDEX_BATCH_SIZE {
        seq![s].lemma_flatten_one_element();
    } else {
        let n = STRUCTURAL_INDEX_BATCH_SIZE as int;
        law_batches_hold_every_file(s.skip(n));
        let out = batched(s);
        assert(out.drop_first() =~= batched(s.skip(n)));
        assert(out.first() == s.take(n));
        assert(s.take(n) + s.skip(n) =~= s);
        assert forall|i: int| 0 <= i < out.len() implies 0 < (#[trigger] out[i]).len()
            <= STRUCTURAL_INDEX_BATCH_SIZE by {
            if i > 0 {
                assert(out[i] == batched(s.skip(n))[i - 1]);
            }
        }
    }
}

// ---------------------------------------------------------------------------
// What a pass counts
// ---------------------------------------------------------------------------

/// What a pass did.
#[derive(Debug)]
pub struct IndexStats {
    pub files_indexed: usize,
    pub files_skipped: usize,
    pub files_removed: usize,
    pub files_failed: usize,
    pub files_degraded: usize,
    pub symbols_found: usize,
    pub references_found: usize,
    pub failed_paths: Vec<String>,
}

/// A file that was read, by what it holds. A degraded one had damaged parts,
/// and everything outside them was read.
#[derive(Debug)]
pub struct ParsedFile {
    pub path: String,
    pub symbols: usize,
    pub references: usize,
    pub degraded: bool,
}

/// The symbols of the files.
pub open spec fn total_symbols(s: Seq<ParsedFile>) -> nat
    decreases s.len(),
{
    if s.len() == 0 {
        0
    } else {
        total_symbols(s.drop_last()) + s.last().symbols as nat
    }
}

/// The references of the files.
pub open spec fn total_references(s: Seq<ParsedFile>) -> nat
    decreases s.len(),
{
    if s.len() == 0 {
        0
    } else {
        total_references(s.drop_last()) + s.last().references as nat
    }
}

/// The damaged files.
pub open spec fn total_degraded(s: Seq<ParsedFile>) -> nat
    decreases s.len(),
{
    if s.len() == 0 {
        0
    } else {
        total_degraded(s.drop_last()) + if s.last().degraded {
            1nat
        } else {
            0nat
        }
    }
}

proof fn lemma_totals_split(s: Seq<ParsedFile>, n: int)
    requires
        0 <= n < s.len(),
    ensures
        total_symbols(s.skip(n)) == s[n].symbols + total_symbols(s.skip(n + 1)),
        total_references(s.skip(n)) == s[n].references + total_references(s.skip(n + 1)),
    decreases s.len(),
{
    let t = s.skip(n);
    if n < s.len() - 1 {
        lemma_totals_split(s.drop_last(), n);
        assert(t.drop_last() =~= s.drop_last().skip(n));
        assert(s.skip(n + 1).drop_last() =~= s.drop_last().skip(n + 1));
        assert(t.last() == s.last());
        assert(s.skip(n + 1).last() == s.last());
    } else {
        assert(t.drop_last() =~= Seq::empty());
        assert(s.skip(n + 1) =~= Seq::empty());
        assert(t.last() == s[n]);
    }
}

/// Counts of what a pass did, with `files` written.
pub open spec fn counted(before: IndexStats, after: IndexStats, files: Seq<ParsedFile>) -> bool {
    &&& after.files_indexed == before.files_indexed + files.len()
    &&& after.files_degraded == before.files_degraded + total_degraded(files)
    &&& after.symbols_found == before.symbols_found + total_symbols(files)
    &&& after.references_found == before.references_found + total_references(files)
    &&& after.files_skipped == before.files_skipped
    &&& after.files_removed == before.files_removed
    &&& after.files_failed == before.files_failed
    &&& text::views(after.failed_paths@) == text::views(before.failed_paths@)
}

/// Counts of what a pass did, with one more file failed.
pub open spec fn failed(before: IndexStats, after: IndexStats, path: Seq<char>) -> bool {
    &&& after.files_failed == before.files_failed + 1
    &&& text::views(after.failed_paths@) == text::views(before.failed_paths@).push(path)
    &&& after.files_indexed == before.files_indexed
    &&& after.files_degraded == before.files_degraded
    &&& after.symbols_found == before.symbols_found
    &&& after.references_found == before.references_found
    &&& after.files_skipped == before.files_skipped
    &&& after.files_removed == before.files_removed
}

/// The counts leave room for these files.
pub open spec fn has_room(s: IndexStats, files: Seq<ParsedFile>) -> bool {
    &&& s.files_indexed + files.len() <= usize::MAX
    &&& s.files_degraded + files.len() <= usize::MAX
    &&& s.files_failed + files.len() <= usize::MAX
    &&& s.symbols_found + total_symbols(files) <= usize::MAX
    &&& s.references_found + total_references(files) <= usize::MAX
}

impl IndexStats {
    /// The counts of a pass that has done nothing yet.
    pub fn none() -> (out: Self)
        ensures
            out.files_indexed == 0 && out.files_skipped == 0 && out.files_removed == 0,
            out.files_failed == 0 && out.files_degraded == 0,
            out.symbols_found == 0 && out.references_found == 0,
            out.failed_paths@.len() == 0,
    {
        IndexStats {
            files_indexed: 0,
            files_skipped: 0,
            files_removed: 0,
            files_failed: 0,
            files_degraded: 0,
            symbols_found: 0,
            references_found: 0,
            failed_paths: Vec::new(),
        }
    }

    /// Counts a file that was written.
    fn count_written(&mut self, f: &ParsedFile)
        requires
            has_room(*old(self), seq![*f]),
        ensures
            counted(*old(self), *final(self), seq![*f]),
    {
        proof {
            lemma_totals_of_one(*f);
        }
        self.symbols_found += f.symbols;
        self.references_found += f.references;
        self.files_indexed += 1;
        if f.degraded {
            self.files_degraded += 1;
        }
    }

    /// Counts a file that could not be read or written.
    pub fn count_failed(&mut self, path: &str)
        requires
            old(self).files_failed < usize::MAX,
        ensures
            failed(*old(self), *final(self), path@),
    {
        broadcast use text::group_views;
        self.files_failed += 1;
        self.failed_paths.push(path.to_string());
    }

    /// Counts the files of a batch that could not be read.
    pub fn count_unread(&mut self, paths: &Vec<String>)
        requires
            old(self).files_failed + paths@.len() <= usize::MAX,
        ensures
            unread(*old(self), *final(self), text::views(paths@)),
    {
        broadcast use text::group_views;
        let ghost all = text::views(paths@);
        let mut i: usize = 0;
        assert(text::views(self.failed_paths@) + all.take(0) =~= text::views(self.failed_paths@));
        while i < paths.len()
            invariant
                i <= paths@.len(),
                all == text::views(paths@),
                old(self).files_failed + paths@.len() <= usize::MAX,
                unread(*old(self), *self, all.take(i as int)),
            decreases paths@.len() - i,
        {
            broadcast use text::group_views;
            let ghost before = text::views(self.failed_paths@);
            self.count_failed(paths[i].as_str());
            proof {
                assert(all[i as int] == paths@[i as int]@);
                assert(all.take(i + 1) =~= all.take(i as int).push(all[i as int]));
                assert(text::views(self.failed_paths@) =~= text::views(old(self).failed_paths@) + all.take(i + 1));
            }
            i += 1;
        }
        assert(all.take(paths@.len() as int) =~= all);
    }

    /// The counts that a pass begins with.
    pub fn opening(plan: &IndexPlan) -> (out: IndexStats)
        ensures
            opens(out, plan.orphans@.len(), plan.skipped as nat),
    {
        let mut out = IndexStats::none();
        out.files_removed = plan.orphans.len();
        out.files_skipped = plan.skipped;
        out
    }
}

/// Counts of what a pass did, with some files that could not be read.
pub open spec fn unread(before: IndexStats, after: IndexStats, paths: Seq<Seq<char>>) -> bool {
    &&& after.files_failed == before.files_failed + paths.len()
    &&& text::views(after.failed_paths@) == text::views(before.failed_paths@) + paths
    &&& after.files_indexed == before.files_indexed
    &&& after.files_degraded == before.files_degraded
    &&& after.symbols_found == before.symbols_found
    &&& after.references_found == before.references_found
    &&& after.files_skipped == before.files_skipped
    &&& after.files_removed == before.files_removed
}

/// The counts of a pass that removed and skipped so many files, and has read
/// none yet.
pub open spec fn opens(s: IndexStats, removed: nat, skipped: nat) -> bool {
    &&& s.files_removed == removed
    &&& s.files_skipped == skipped
    &&& s.files_indexed == 0 && s.files_failed == 0 && s.files_degraded == 0
    &&& s.symbols_found == 0 && s.references_found == 0
    &&& s.failed_paths@.len() == 0
}

proof fn lemma_totals_of_one(f: ParsedFile)
    ensures
        total_symbols(seq![f]) == f.symbols,
        total_references(seq![f]) == f.references,
        total_degraded(seq![f]) == if f.degraded {
            1nat
        } else {
            0nat
        },
{
    reveal_with_fuel(total_symbols, 2);
    reveal_with_fuel(total_references, 2);
    reveal_with_fuel(total_degraded, 2);
    assert(seq![f].drop_last() =~= Seq::empty());
}

/// What to write next.
#[derive(Debug, Clone, Copy, PartialEq, Eq, Structural)]
pub enum WriteAction {
    /// All files of the batch in one transaction.
    Batch,
    /// The file at a position in a transaction of its own.
    One(usize),
    /// Nothing more: the batch is done.
    Finished,
    /// Nothing more: the pass is to end in an error.
    Aborted,
}

/// The writing of one batch. It is tried as a whole first, and file by file
/// where that fails. Unless the pass is aborted, every file of the batch is
/// counted once, as written or as failed.
#[derive(Debug)]
pub struct BatchWrite {
    pub files: Vec<ParsedFile>,
    pub stats: IndexStats,
    pub action: WriteAction,
}

impl BatchWrite {
    /// The files that are not yet settled.
    pub open spec fn left(self) -> Seq<ParsedFile> {
        match self.action {
            WriteAction::Batch => self.files@,
            WriteAction::One(i) => self.files@.skip(i as int),
            WriteAction::Finished => Seq::empty(),
            WriteAction::Aborted => Seq::empty(),
        }
    }

    /// The files that were counted or are left to be.
    pub open spec fn accounted(self) -> int {
        self.stats.files_indexed + self.stats.files_failed + self.left().len()
    }

    /// What a step of writing keeps: every file of the batch is counted or left
    /// to be, and no other count of files changes.
    pub open spec fn steps_to(self, next: BatchWrite) -> bool {
        &&& next.accounted() == self.accounted()
        &&& next.stats.files_skipped == self.stats.files_skipped
        &&& next.stats.files_removed == self.stats.files_removed
    }

    /// A file that is to be written is there, and the counts leave room for
    /// those that are left.
    pub open spec fn wf(self) -> bool {
        &&& has_room(self.stats, self.left())
        &&& self.action is Batch ==> self.files@.len() > 0
        &&& match self.action {
            WriteAction::One(i) => i < self.files@.len(),
            _ => true,
        }
    }

    /// Begins with a batch; an empty one is done.
    pub fn begin(files: Vec<ParsedFile>, stats: IndexStats) -> (out: Self)
        requires
            has_room(stats, files@),
        ensures
            out.wf(),
            out.files == files,
            out.stats == stats,
            out.action == (if files@.len() == 0 {
                WriteAction::Finished
            } else {
                WriteAction::Batch
            }),
    {
        let action = if files.len() == 0 {
            WriteAction::Finished
        } else {
            WriteAction::Batch
        };
        BatchWrite { files, stats, action }
    }

    /// The whole batch was written.
    pub fn batch_written(&mut self)
        requires
            old(self).wf(),
            old(self).action is Batch,
        ensures
            final(self).wf(),
            final(self).files == old(self).files,
            final(self).action is Finished,
            counted(old(self).stats, final(self).stats, old(self).files@),
            old(self).steps_to(*final(self)),
    {
        let ghost start = self.stats;
        let ghost all = self.files@;
        let mut i: usize = 0;
        assert(all.skip(0) =~= all);
        assert(all.take(0) =~= Seq::empty());
        while i < self.files.len()
            invariant
                i <= self.files.len(),
                all == self.files@,
                self.files == old(self).files,
                has_room(self.stats, all.skip(i as int)),
                counted(start, self.stats, all.take(i as int)),
            decreases self.files.len() - i,
        {
            proof {
                lemma_totals_split(all, i as int);
                lemma_totals_of_one(all[i as int]);
                assert(all.take(i + 1).drop_last() =~= all.take(i as int));
                assert(all.take(i + 1).last() == all[i as int]);
            }
            self.stats.count_written(&self.files[i]);
            i += 1;
        }
        assert(all.take(i as int) =~= all);
        self.action = WriteAction::Finished;
    }

    /// The whole batch failed and was taken back.
    pub fn batch_failed(&mut self)
        requires
            old(self).wf(),
            old(self).action is Batch,
        ensures
            final(self).wf(),
            final(self).files == old(self).files,
            final(self).stats == old(self).stats,
            final(self).action == WriteAction::One(0),
            old(self).steps_to(*final(self)),
    {
        self.action = WriteAction::One(0);
        assert(self.files@.skip(0) =~= self.files@);
    }

    /// Goes on to the next file, or ends.
    fn advance(&mut self, i: usize)
        requires
            i < old(self).files@.len(),
            has_room(old(self).stats, old(self).files@.skip(i + 1)),
        ensures
            final(self).wf(),
            final(self).files == old(self).files,
            final(self).stats == old(self).stats,
            final(self).action == (if i + 1 < old(self).files@.len() {
                WriteAction::One((i + 1) as usize)
            } else {
                WriteAction::Finished
            }),
            final(self).left().len() == old(self).files@.len() - i - 1,
    {
        if i < self.files.len() - 1 {
            self.action = WriteAction::One(i + 1);
        } else {
            self.action = WriteAction::Finished;
            assert(self.files@.skip(i + 1) =~= self.left());
        }
    }

    /// One file was written.
    pub fn file_written(&mut self)
        requires
            old(self).wf(),
            old(self).action is One,
        ensures
            final(self).wf(),
            final(self).files == old(self).files,
            counted(
                old(self).stats,
                final(self).stats,
                seq![old(self).files@[old(self).action->0 as int]],
            ),
            old(self).steps_to(*final(self)),
            final(self).action == (if old(self).action->0 + 1 < old(self).files@.len() {
                WriteAction::One((old(self).action->0 + 1) as usize)
            } else {
                WriteAction::Finished
            }),
    {
        if let WriteAction::One(i) = self.action {
            proof {
                lemma_totals_split(self.files@, i as int);
                lemma_totals_of_one(self.files@[i as int]);
            }
            self.stats.count_written(&self.files[i]);
            self.advance(i);
        }
    }

    /// One file was rejected. Only a clash of keys is the file's fault: it is
    /// counted as failed and the rest goes on. Any other error ends the pass,
    /// with no file counted and nothing to be purged.
    pub fn file_rejected(&mut self, unique_violation: bool) -> (error: Option<String>)
        requires
            old(self).wf(),
            old(self).action is One,
        ensures
            final(self).wf(),
            final(self).files == old(self).files,
            unique_violation ==> old(self).steps_to(*final(self)),
            unique_violation ==> error is None && failed(
                old(self).stats,
                final(self).stats,
                old(self).files@[old(self).action->0 as int].path@,
            ) && final(self).action == (if old(self).action->0 + 1 < old(self).files@.len() {
                WriteAction::One((old(self).action->0 + 1) as usize)
            } else {
                WriteAction::Finished
            }),
            !unique_violation ==> final(self).action is Aborted && final(self).stats == old(
                self,
            ).stats && error is Some && error->0@ == "writing structural rows for "@ + old(
                self,
            ).files@[old(self).action->0 as int].path@
                + ": database error, aborting the pass"@,
    {
        if let WriteAction::One(i) = self.action {
            if unique_violation {
                proof {
                    lemma_totals_split(self.files@, i as int);
                }
                self.stats.count_failed(self.files[i].path.as_str());
                self.advance(i);
                return None;
            }
            let error = concat3(
                "writing structural rows for ",
                self.files[i].path.as_str(),
                ": database error, aborting the pass",
            );
            self.action = WriteAction::Aborted;
            return Some(error);
        }
        None
    }
}

/// The paths whose rows a finished pass removes: a full pass must not leave
/// rows of an earlier one for a file that it could not process, while an
/// incremental one, which never saw the whole table, leaves them.
pub fn purged_paths(strategy: IndexStrategy, stats: &IndexStats) -> (out: Vec<String>)
    ensures
        text::views(out@) == (if strategy == IndexStrategy::Full {
            text::views(stats.failed_paths@)
        } else {
            Seq::empty()
        }),
{
    match strategy {
        IndexStrategy::Full => copy_strings(&stats.failed_paths),
        IndexStrategy::Incremental => {
            let out: Vec<String> = Vec::new();
            assert(text::views(out@) =~= Seq::empty());
            out
        },
    }
}

/// A batch of so many files is settled: each was indexed or failed.
pub open spec fn settled(before: IndexStats, after: IndexStats, files: nat) -> bool {
    &&& after.files_indexed + after.files_failed == before.files_indexed + before.files_failed + files
    &&& after.files_skipped == before.files_skipped
    &&& after.files_removed == before.files_removed
}

/// A batch that was written to its end settles each of its files, those that
/// could not be read among them.
pub proof fn law_a_finished_batch_settles_its_files(
    before: IndexStats,
    paths: Seq<Seq<char>>,
    writes: Seq<BatchWrite>,
)
    requires
        writes.len() > 0,
        unread(before, writes[0].stats, paths),
        writes[0].action is Batch || (writes[0].action is Finished && writes[0].files@.len() == 0),
        forall|k: int| 0 <= k < writes.len() - 1 ==> (#[trigger] writes[k]).steps_to(writes[k + 1]),
        writes.last().action is Finished,
    ensures
        settled(before, writes.last().stats, paths.len() + writes[0].files@.len()),
{
    lemma_steps_add_up(writes, writes.len() - 1);
}

proof fn lemma_steps_add_up(writes: Seq<BatchWrite>, k: int)
    requires
        0 <= k < writes.len(),
        forall|k: int| 0 <= k < writes.len() - 1 ==> (#[trigger] writes[k]).steps_to(writes[k + 1]),
    ensures
        writes[0].steps_to(writes[k]),
    decreases k,
{
    if k > 0 {
        lemma_steps_add_up(writes, k - 1);
        assert(writes[k - 1].steps_to(writes[k - 1 + 1]));
    }
}

/// How many files the first `n` batches hold.
spec fn held(batches: Seq<Seq<usize>>, n: int) -> nat
    decreases n,
{
    if n <= 0 {
        0
    } else {
        held(batches, n - 1) + batches[n - 1].len()
    }
}

proof fn lemma_held_behind(first: Seq<usize>, rest: Seq<Seq<usize>>, n: int)
    requires
        0 <= n <= rest.len(),
    ensures
        held(seq![first] + rest, n + 1) == first.len() + held(rest, n),
    decreases n,
{
    let all = seq![first] + rest;
    if n > 0 {
        lemma_held_behind(first, rest, n - 1);
        assert(all[n] == rest[n - 1]);
    } else {
        assert(all[0] == first);
        assert(held(all, 0) == 0);
    }
}

proof fn lemma_batches_hold(s: Seq<usize>)
    ensures
        held(batched(s), batched(s).len() as int) == s.len(),
    decreases s.len(),
{
    if s.len() > 0 {
        let n = STRUCTURAL_INDEX_BATCH_SIZE as int;
        if s.len() <= n {
            assert(seq![s] + Seq::<Seq<usize>>::empty() =~= batched(s));
            lemma_held_behind(s, Seq::empty(), 0);
        } else {
            let rest = batched(s.skip(n));
            lemma_batches_hold(s.skip(n));
            lemma_held_behind(s.take(n), rest, rest.len() as int);
        }
    }
}

proof fn lemma_settled_so_far(stats: Seq<IndexStats>, batches: Seq<Seq<usize>>, k: int)
    requires
        0 <= k < stats.len(),
        stats.len() == batches.len() + 1,
        forall|k: int|
            0 <= k < batches.len() ==> settled(stats[k], stats[k + 1], (#[trigger] batches[k]).len()),
    ensures
        settled(stats[0], stats[k], held(batches, k)),
    decreases k,
{
    if k > 0 {
        lemma_settled_so_far(stats, batches, k - 1);
        assert(settled(stats[k - 1], stats[k - 1 + 1], batches[k - 1].len()));
    }
}

/// A pass accounts for every file that was discovered: where each of its batches
/// is settled, each file was indexed, failed or skipped. `stats` are the counts
/// before the first batch and after each.
pub proof fn law_a_pass_accounts_for_every_file(
    strategy: IndexStrategy,
    stored: Seq<FileRow>,
    files: Seq<FileRow>,
    removed: nat,
    stats: Seq<IndexStats>,
)
    requires
        ({
            let read = read_positions(strategy, stored, files);
            let parts = batched(read);
            &&& stats.len() == parts.len() + 1
            &&& opens(stats[0], removed, (files.len() - read.len()) as nat)
            &&& forall|k: int|
                0 <= k < parts.len() ==> settled(stats[k], stats[k + 1], (#[trigger] parts[k]).len())
        }),
    ensures
        stats.last().files_indexed + stats.last().files_failed + stats.last().files_skipped == files.len(),
        stats.last().files_removed == removed,
{
    let read = read_positions(strategy, stored, files);
    let parts = batched(read);
    lemma_batches_hold(read);
    lemma_settled_so_far(stats, parts, parts.len() as int);
    lemma_no_more_read(strategy, stored, files);
}

proof fn lemma_no_more_read(strategy: IndexStrategy, stored: Seq<FileRow>, files: Seq<FileRow>)
    ensures
        read_positions(strategy, stored, files).len() <= files.len(),
    decreases files.len(),
{
    if files.len() > 0 {
        lemma_no_more_read(strategy, stored, files.drop_last());
    }
}

} // verus!
