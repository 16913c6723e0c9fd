//! Which chunks and definitions a bundle shows.
use vstd::prelude::*;
use crate::bundle;
use crate::bundle::{
    AskView, BundleChunk, DefinitionsView, FeatureFile, FeatureFileRole, Offer, PickedView,
};
use crate::model::Symbol;

verus! {

/// The chunk holds the line, from its first line to its last.
pub open spec fn holds(c: BundleChunk, line: u32) -> bool {
    c.start_line <= line && line <= c.end_line
}

proof fn lemma_covering(chunks: Seq<BundleChunk>, line: u32, i: int)
    requires
        0 <= i,
    ensures
        match bundle::covering_from(chunks, line, i) {
            Some(k) => i <= k < chunks.len() && holds(chunks[k], line),
            None => forall|k: int| i <= k < chunks.len() ==> !holds(#[trigger] chunks[k], line),
        },
    decreases chunks.len() - i,
{
    if i < chunks.len() && !(chunks[i].start_line <= line <= chunks[i].end_line) {
        lemma_covering(chunks, line, i + 1);
    }
}

proof fn lemma_earliest(chunks: Seq<BundleChunk>)
    ensures
        match bundle::earliest(chunks) {
            Some(k) => 0 <= k < chunks.len() && forall|j: int|
                0 <= j < chunks.len() ==> chunks[k].start_line <= (#[trigger] chunks[j]).start_line,
            None => chunks.len() == 0,
        },
    decreases chunks.len(),
{
    if chunks.len() > 0 {
        let front = chunks.drop_last();
        lemma_earliest(front);
        if let Some(k) = bundle::earliest(front) {
            assert(front[k] == chunks[k]);
            assert forall|j: int| 0 <= j < chunks.len() - 1 implies chunks[k].start_line
                <= (#[trigger] chunks[j]).start_line by {
                assert(front[j] == chunks[j]);
            }
        }
    }
}

/// What was picked stays picked, and what was seen stays seen.
pub open spec fn grows(p: PickedView, q: PickedView) -> bool {
    &&& p.chunks.len() <= q.chunks.len()
    &&& q.chunks.take(p.chunks.len() as int) == p.chunks
    &&& forall|k: (Seq<char>, u32)| #[trigger] p.seen.contains(k) ==> q.seen.contains(k)
}

/// A key was seen before, or its chunk is among the picked.
pub open spec fn settled(p: PickedView, q: PickedView, key: (Seq<char>, u32)) -> bool {
    ||| p.seen.contains(key)
    ||| exists|i: int|
        0 <= i < q.chunks.len() && (#[trigger] q.chunks[i]).file_path@ == key.0 && q.chunks[i].start_line == key.1
}

proof fn lemma_added(p: PickedView, c: BundleChunk)
    ensures
        grows(p, bundle::added(p, c)),
        settled(p, bundle::added(p, c), (c.file_path@, c.start_line)),
        bundle::added(p, c).seen.contains((c.file_path@, c.start_line)),
        bundle::added(p, c).chunks.len() <= p.chunks.len() + 1,
        p.seen.contains((c.file_path@, c.start_line)) ==> bundle::added(p, c) == p,
        !p.seen.contains((c.file_path@, c.start_line)) ==> bundle::added(p, c).chunks == p.chunks.push(c),
{
    let q = bundle::added(p, c);
    assert(q.chunks.take(p.chunks.len() as int) =~= p.chunks);
    if !p.seen.contains(bundle::key_of(c)) {
        assert(q.chunks[p.chunks.len() as int] == c);
        assert(q.seen[p.seen.len() as int] == (c.file_path@, c.start_line));
        assert forall|k: (Seq<char>, u32)| #[trigger] p.seen.contains(k) implies q.seen.contains(k) by {
            let i = choose|i: int| 0 <= i < p.seen.len() && p.seen[i] == k;
            assert(q.seen[i] == k);
        }
    }
}

proof fn lemma_grows_on(p: PickedView, q: PickedView, r: PickedView)
    requires
        grows(p, q),
        grows(q, r),
    ensures
        grows(p, r),
{
    assert(r.chunks.take(p.chunks.len() as int) =~= r.chunks.take(q.chunks.len() as int).take(p.chunks.len() as int));
}

/// One chunk is picked for a line where some chunk holds it: afterwards a chunk
/// of that file that holds the line is among the picked or was seen before. What
/// is picked for a line holds it, and where no chunk holds it nothing changes.
pub proof fn law_a_line_is_shown_with_a_chunk_that_holds_it(p: PickedView, chunks: Seq<BundleChunk>, line: u32)
    ensures
        ({
            let q = bundle::with_covering(p, chunks, line);
            &&& grows(p, q)
            &&& (exists|k: int| 0 <= k < chunks.len() && holds(#[trigger] chunks[k], line)) ==> exists|k: int|
                0 <= k < chunks.len() && holds(#[trigger] chunks[k], line) && settled(
                    p,
                    q,
                    (chunks[k].file_path@, chunks[k].start_line),
                )
            &&& (forall|k: int| 0 <= k < chunks.len() ==> !holds(#[trigger] chunks[k], line)) ==> q == p
            &&& q.chunks.len() <= p.chunks.len() + 1
            &&& q.chunks.len() > p.chunks.len() ==> holds(q.chunks.last(), line) && chunks.contains(q.chunks.last())
                && !p.seen.contains((q.chunks.last().file_path@, q.chunks.last().start_line))
        }),
{
    lemma_covering(chunks, line, 0);
    if let Some(k) = bundle::covering_from(chunks, line, 0) {
        lemma_added(p, chunks[k]);
        assert(holds(chunks[k], line));
    } else {
        assert(p.chunks.take(p.chunks.len() as int) =~= p.chunks);
    }
}

/// The first chunk of a file is picked, unless it was seen: no chunk of the file
/// begins before it.
pub proof fn law_a_file_is_shown_with_its_first_chunk(p: PickedView, chunks: Seq<BundleChunk>)
    ensures
        ({
            let q = bundle::with_earliest(p, chunks);
            &&& grows(p, q)
            &&& chunks.len() > 0 ==> exists|k: int|
                #![trigger chunks[k]]
                0 <= k < chunks.len() && settled(p, q, (chunks[k].file_path@, chunks[k].start_line)) && forall|j: int|
                    0 <= j < chunks.len() ==> chunks[k].start_line <= (#[trigger] chunks[j]).start_line
            &&& q.chunks.len() <= p.chunks.len() + 1
            &&& q.chunks.len() > p.chunks.len() ==> chunks.contains(q.chunks.last()) && forall|j: int|
                0 <= j < chunks.len() ==> q.chunks.last().start_line <= (#[trigger] chunks[j]).start_line
            &&& chunks.len() == 0 ==> q == p
        }),
{
    lemma_earliest(chunks);
    if let Some(k) = bundle::earliest(chunks) {
        lemma_added(p, chunks[k]);
        assert(chunks.contains(chunks[k]));
    } else {
        assert(p.chunks.take(p.chunks.len() as int) =~= p.chunks);
    }
}

/// Of the chunks that hold a line the first listed is meant; where none holds it,
/// none is.
pub proof fn law_the_first_chunk_that_holds_a_line_is_meant(chunks: Seq<BundleChunk>, line: u32, from: int)
    requires
        0 <= from,
    ensures
        match bundle::covering_from(chunks, line, from) {
            Some(i) => from <= i < chunks.len() && chunks[i].start_line <= line && line <= chunks[i].end_line && forall|j: int|
                from <= j < i ==> line < (#[trigger] chunks[j]).start_line || chunks[j].end_line < line,
            None => forall|j: int|
                from <= j < chunks.len() ==> line < (#[trigger] chunks[j]).start_line || chunks[j].end_line < line,
        },
    decreases chunks.len() - from,
{
    if from < chunks.len() {
        law_the_first_chunk_that_holds_a_line_is_meant(chunks, line, from + 1);
    }
}

/// Of the chunks that begin earliest the first listed is meant.
pub proof fn law_the_first_of_the_earliest_chunks_is_meant(chunks: Seq<BundleChunk>)
    ensures
        match bundle::earliest(chunks) {
            Some(k) => 0 <= k < chunks.len() && forall|j: int|
                0 <= j < chunks.len() ==> chunks[k].start_line < (#[trigger] chunks[j]).start_line || (
                chunks[k].start_line == chunks[j].start_line && k <= j),
            None => chunks.len() == 0,
        },
    decreases chunks.len(),
{
    if chunks.len() > 0 {
        let less = chunks.drop_last();
        law_the_first_of_the_earliest_chunks_is_meant(less);
        let k = bundle::earliest(chunks)->0;
        assert forall|j: int| 0 <= j < chunks.len() implies chunks[k].start_line < (#[trigger] chunks[j]).start_line || (
        chunks[k].start_line == chunks[j].start_line && k <= j) by {
            if j < less.len() {
                assert(less[j] == chunks[j]);
            }
            if let Some(b) = bundle::earliest(less) {
                assert(less[b] == chunks[b]);
            }
        }
    }
}

/// A chunk was offered, and holds the line of its offer.
pub open spec fn was_offered(c: BundleChunk, offers: Seq<Offer>) -> bool {
    exists|n: int|
        0 <= n < offers.len() && (#[trigger] offers[n]).chunks@.contains(c) && c.start_line <= offers[n].line
            && offers[n].line <= c.end_line
}

/// An offer is answered: a chunk of it that holds its line is among the picked,
/// or was seen before.
pub open spec fn is_answered(p: PickedView, q: PickedView, o: Offer) -> bool {
    exists|k: int|
        0 <= k < o.chunks@.len() && o.chunks@[k].start_line <= o.line && o.line <= (#[trigger] o.chunks@[k]).end_line
            && settled(p, q, (o.chunks@[k].file_path@, o.chunks@[k].start_line))
}

/// While there is room below the limit every offer with a chunk that holds its
/// line is answered with one, and nothing else is added: what was picked before
/// stays, and each chunk that is added holds the line of an offer.
pub proof fn law_offers_are_answered_while_there_is_room(p: PickedView, offers: Seq<Offer>, limit: nat)
    ensures
        grows(p, bundle::gathered(p, offers, limit)),
        forall|i: int|
            p.chunks.len() <= i < bundle::gathered(p, offers, limit).chunks.len() ==> #[trigger] was_offered(
                bundle::gathered(p, offers, limit).chunks[i],
                offers,
            ),
        bundle::gathered(p, offers, limit).chunks.len() < limit ==> forall|n: int, k: int|
            #![trigger offers[n].chunks@[k]]
            0 <= n < offers.len() && 0 <= k < offers[n].chunks@.len() && offers[n].chunks@[k].start_line
                <= offers[n].line && offers[n].line <= offers[n].chunks@[k].end_line ==> is_answered(
                p,
                bundle::gathered(p, offers, limit),
                offers[n],
            ),
    decreases offers.len(),
{
    let r = bundle::gathered(p, offers, limit);
    if offers.len() == 0 {
        assert(p.chunks.take(p.chunks.len() as int) =~= p.chunks);
    } else {
        let front = offers.drop_last();
        let last = offers.last();
        let q = bundle::gathered(p, front, limit);
        law_offers_are_answered_while_there_is_room(p, front, limit);
        if q.chunks.len() < limit {
            law_a_line_is_shown_with_a_chunk_that_holds_it(q, last.chunks@, last.line);
            lemma_grows_on(p, q, r);
        }
        assert forall|i: int| p.chunks.len() <= i < r.chunks.len() implies #[trigger] was_offered(
            r.chunks[i],
            offers,
        ) by {
            if i < q.chunks.len() {
                assert(r.chunks[i] == r.chunks.take(q.chunks.len() as int)[i]);
                assert(was_offered(q.chunks[i], front));
                let n = choose|n: int|
                    0 <= n < front.len() && (#[trigger] front[n]).chunks@.contains(q.chunks[i]) && q.chunks[i].start_line
                        <= front[n].line && front[n].line <= q.chunks[i].end_line;
                assert(offers[n] == front[n]);
            } else {
                assert(r.chunks[i] == r.chunks.last());
                assert(offers[offers.len() - 1] == last);
            }
        }
        if r.chunks.len() < limit {
            assert forall|n: int, k: int|
                #![trigger offers[n].chunks@[k]]
                0 <= n < offers.len() && 0 <= k < offers[n].chunks@.len() && offers[n].chunks@[k].start_line
                    <= offers[n].line && offers[n].line <= offers[n].chunks@[k].end_line implies is_answered(
                p,
                r,
                offers[n],
            ) by {
                let o = offers[n];
                if n < front.len() {
                    assert(front[n] == o);
                    assert(front[n].chunks@[k] == o.chunks@[k]);
                    assert(is_answered(p, q, o));
                    let j = choose|j: int|
                        0 <= j < o.chunks@.len() && o.chunks@[j].start_line <= o.line && o.line
                            <= (#[trigger] o.chunks@[j]).end_line && settled(
                            p,
                            q,
                            (o.chunks@[j].file_path@, o.chunks@[j].start_line),
                        );
                    lemma_settled_on(p, q, q, r, (o.chunks@[j].file_path@, o.chunks@[j].start_line));
                } else {
                    assert(o == last);
                    assert(holds(last.chunks@[k], last.line));
                    let j = choose|j: int|
                        0 <= j < last.chunks@.len() && holds(#[trigger] last.chunks@[j], last.line) && settled(
                            q,
                            r,
                            (last.chunks@[j].file_path@, last.chunks@[j].start_line),
                        );
                    lemma_seen_was_settled(p, offers.drop_last(), limit);
                    lemma_settled_on(p, q, q, r, (last.chunks@[j].file_path@, last.chunks@[j].start_line));
                }
            }
        }
    }
}

proof fn lemma_settled_on(p: PickedView, q: PickedView, q2: PickedView, r: PickedView, key: (Seq<char>, u32))
    requires
        grows(q, r),
        q2 == q,
        settled(p, q, key) || (settled(q2, r, key) && forall|k: (Seq<char>, u32)| #[trigger]
            q.seen.contains(k) ==> settled(p, q, k)),
    ensures
        settled(p, r, key),
{
    if settled(p, q, key) || q.seen.contains(key) {
        assert(settled(p, q, key));
        if !p.seen.contains(key) {
            let i = choose|i: int|
                0 <= i < q.chunks.len() && (#[trigger] q.chunks[i]).file_path@ == key.0 && q.chunks[i].start_line
                    == key.1;
            assert(r.chunks.take(q.chunks.len() as int)[i] == r.chunks[i]);
        }
    }
}

proof fn lemma_seen_was_settled(p: PickedView, offers: Seq<Offer>, limit: nat)
    ensures
        forall|k: (Seq<char>, u32)| #[trigger]
            bundle::gathered(p, offers, limit).seen.contains(k) ==> settled(
                p,
                bundle::gathered(p, offers, limit),
                k,
            ),
    decreases offers.len(),
{
    if offers.len() > 0 {
        let q = bundle::gathered(p, offers.drop_last(), limit);
        let r = bundle::gathered(p, offers, limit);
        lemma_seen_was_settled(p, offers.drop_last(), limit);
        law_a_line_is_shown_with_a_chunk_that_holds_it(q, offers.last().chunks@, offers.last().line);
        assert forall|k: (Seq<char>, u32)| #[trigger] r.seen.contains(k) implies settled(p, r, k) by {
            if r != q {
                let i = choose|i: int| 0 <= i < r.seen.len() && r.seen[i] == k;
                if i < q.seen.len() {
                    assert(q.seen[i] == k);
                    assert(q.seen.contains(k));
                    lemma_settled_on(p, q, q, r, k);
                } else {
                    assert(r.chunks.last().file_path@ == k.0);
                    assert(r.chunks[r.chunks.len() - 1].file_path@ == k.0);
                }
            }
        }
    }
}

// ---------------------------------------------------------------------------
// Features
// ---------------------------------------------------------------------------

/// A file of a feature is shown where its role calls for it: an entry file by
/// the chunk of its entry point, or by its first chunk where the line is not
/// known; an owned file by its first chunk; a test or a context file not at all.
/// Nothing is added once the limit is reached.
pub proof fn law_the_role_of_a_file_decides_what_is_shown(
    p: PickedView,
    f: FeatureFile,
    entry_line: Option<u32>,
    limit: nat,
)
    ensures
        ({
            let q = bundle::primary_of(p, seq![f], entry_line, limit);
            &&& p.chunks.len() >= limit ==> q == p
            &&& f.role == FeatureFileRole::Test || f.role == FeatureFileRole::Context ==> q == p
            &&& p.chunks.len() < limit && f.role == FeatureFileRole::Owned ==> q == bundle::with_earliest(p, f.chunks@)
            &&& p.chunks.len() < limit && f.role == FeatureFileRole::Entry && entry_line is None ==> q
                == bundle::with_earliest(p, f.chunks@)
            &&& p.chunks.len() < limit && f.role == FeatureFileRole::Entry ==> (entry_line matches Some(line) ==> {
                &&& p.chunks.len() > 0 ==> q == bundle::with_covering(p, f.chunks@, line)
                &&& (exists|k: int|
                    0 <= k < f.chunks@.len() && holds(#[trigger] f.chunks@[k], line) && !p.seen.contains(
                        (f.chunks@[k].file_path@, f.chunks@[k].start_line),
                    )) && p.seen.len() == 0 ==> q.chunks.len() == p.chunks.len() + 1 && holds(q.chunks.last(), line)
                &&& p.seen.len() == 0 && f.chunks@.len() > 0 && p.chunks.len() == 0 ==> q.chunks.len() == 1
            })
        }),
{
    assert(seq![f].drop_last() =~= Seq::<FeatureFile>::empty());
    assert(bundle::primary_of(p, Seq::empty(), entry_line, limit) == p);
    if let Some(line) = entry_line {
        law_a_line_is_shown_with_a_chunk_that_holds_it(p, f.chunks@, line);
        lemma_covering(f.chunks@, line, 0);
        let q = bundle::with_covering(p, f.chunks@, line);
        lemma_earliest(f.chunks@);
        if let Some(k) = bundle::earliest(f.chunks@) {
            lemma_added(q, f.chunks@[k]);
        }
        if let Some(k) = bundle::covering_from(f.chunks@, line, 0) {
            lemma_added(p, f.chunks@[k]);
        }
    }
}

/// The files of a role are shown by their first chunks while there is room, and
/// files of other roles are passed over.
pub proof fn law_only_files_of_the_role_are_shown(
    p: PickedView,
    files: Seq<FeatureFile>,
    f: FeatureFile,
    role: FeatureFileRole,
    limit: nat,
)
    ensures
        ({
            let q = bundle::with_role(p, files, role, limit);
            let r = bundle::with_role(p, files.push(f), role, limit);
            &&& f.role != role ==> r == q
            &&& q.chunks.len() >= limit ==> r == q
            &&& f.role == role && q.chunks.len() < limit ==> r == bundle::with_earliest(q, f.chunks@)
        }),
{
    assert(files.push(f).drop_last() =~= files);
}

/// A limit of zero stands for five; any other limit stands for itself.
pub proof fn law_no_limit_means_five(limit: nat)
    ensures
        bundle::effective(0) == 5,
        limit > 0 ==> bundle::effective(limit) == limit,
{
}

// ---------------------------------------------------------------------------
// Definitions
// ---------------------------------------------------------------------------

/// The definition that a summary means has its qualified name, and lies in its
/// file where any candidate of that name does; none is found only where no
/// candidate has the name.
pub proof fn law_a_summary_means_a_definition_of_its_name(
    candidates: Seq<Symbol>,
    qualified: Seq<char>,
    file: Seq<char>,
)
    ensures
        match bundle::best_definition(candidates, qualified, file) {
            Some(d) => candidates.contains(d) && d.qualified_name@ == qualified && ((exists|k: int|
                0 <= k < candidates.len() && (#[trigger] candidates[k]).qualified_name@ == qualified
                    && candidates[k].file_path@ == file) ==> d.file_path@ == file),
            None => forall|k: int| 0 <= k < candidates.len() ==> (#[trigger] candidates[k]).qualified_name@ != qualified,
        },
{
    let named = bundle::of_name(candidates, qualified);
    let local = bundle::in_file_of(named, file);
    assert forall|k: int| 0 <= k < candidates.len() implies named.contains(candidates[k]) == (
    (#[trigger] candidates[k]).qualified_name@ == qualified) by {
        lemma_of_name(candidates, qualified, candidates[k]);
    }
    if exists|k: int|
        0 <= k < candidates.len() && (#[trigger] candidates[k]).qualified_name@ == qualified
            && candidates[k].file_path@ == file {
        let k = choose|k: int|
            0 <= k < candidates.len() && (#[trigger] candidates[k]).qualified_name@ == qualified
                && candidates[k].file_path@ == file;
        lemma_in_file(named, file, candidates[k]);
        assert(local.contains(candidates[k]));
    }
    if local.len() > 0 {
        assert(local.contains(local[0]));
        lemma_in_file(named, file, local[0]);
        lemma_of_name(candidates, qualified, local[0]);
    } else if named.len() > 0 {
        assert(named.contains(named[0]));
        lemma_of_name(candidates, qualified, named[0]);
    }
}

proof fn lemma_of_name(candidates: Seq<Symbol>, qualified: Seq<char>, x: Symbol)
    ensures
        bundle::of_name(candidates, qualified).contains(x) <==> candidates.contains(x) && x.qualified_name@ == qualified,
{
    broadcast use {vstd::seq_lib::group_filter_ensures, vstd::seq::Seq::lemma_filter_contains_rev};

    let named = bundle::of_name(candidates, qualified);
    if named.contains(x) {
        let i = choose|i: int| 0 <= i < named.len() && named[i] == x;
        assert(named[i].qualified_name@ == qualified);
    }
    if candidates.contains(x) && x.qualified_name@ == qualified {
        let i = choose|i: int| 0 <= i < candidates.len() && candidates[i] == x;
        assert(named.contains(candidates[i]));
    }
}

proof fn lemma_in_file(defs: Seq<Symbol>, file: Seq<char>, x: Symbol)
    ensures
        bundle::in_file_of(defs, file).contains(x) <==> defs.contains(x) && x.file_path@ == file,
{
    broadcast use {vstd::seq_lib::group_filter_ensures, vstd::seq::Seq::lemma_filter_contains_rev};

    let local = bundle::in_file_of(defs, file);
    if local.contains(x) {
        let i = choose|i: int| 0 <= i < local.len() && local[i] == x;
        assert(local[i].file_path@ == file);
    }
    if defs.contains(x) && x.file_path@ == file {
        let i = choose|i: int| 0 <= i < defs.len() && defs[i] == x;
        assert(local.contains(defs[i]));
    }
}

/// Every name is asked for once: its first answer is kept, found or not, and a
/// later one changes nothing.
pub proof fn law_a_name_is_asked_for_once(d: DefinitionsView, asks: Seq<AskView>, candidates: Seq<Vec<Symbol>>, n: int)
    requires
        0 < n <= asks.len(),
    ensures
        ({
            let before = bundle::looked_up(d, asks, candidates, n - 1);
            let after = bundle::looked_up(d, asks, candidates, n);
            let best = bundle::best_definition(candidates[n - 1]@, asks[n - 1].qualified, asks[n - 1].file);
            &&& before.asked.contains(asks[n - 1].qualified) ==> after == before
            &&& !before.asked.contains(asks[n - 1].qualified) ==> after.asked == before.asked.push(
                asks[n - 1].qualified,
            )
            &&& !before.asked.contains(asks[n - 1].qualified) && best is Some ==> after.found == before.found.push(
                best->0,
            )
            &&& best is None ==> after.found == before.found
            &&& after.asked.contains(asks[n - 1].qualified)
        }),
{
    let before = bundle::looked_up(d, asks, candidates, n - 1);
    let after = bundle::looked_up(d, asks, candidates, n);
    if !before.asked.contains(asks[n - 1].qualified) {
        assert(after.asked[before.asked.len() as int] == asks[n - 1].qualified);
    }
}

/// The definitions of an entry point are those in its file, or all of them where
/// its file has none.
pub proof fn law_an_entry_point_is_looked_up_in_its_file(defs: Seq<Symbol>, entry: Seq<char>, x: Symbol)
    ensures
        (exists|k: int| 0 <= k < defs.len() && (#[trigger] defs[k]).file_path@ == entry) ==> (
        bundle::entry_definitions(defs, entry).contains(x) <==> defs.contains(x) && x.file_path@ == entry),
        (forall|k: int| 0 <= k < defs.len() ==> (#[trigger] defs[k]).file_path@ != entry) ==> bundle::entry_definitions(
            defs,
            entry,
        ) == defs,
{
    let local = bundle::in_file_of(defs, entry);
    lemma_in_file(defs, entry, x);
    if exists|k: int| 0 <= k < defs.len() && (#[trigger] defs[k]).file_path@ == entry {
        let k = choose|k: int| 0 <= k < defs.len() && (#[trigger] defs[k]).file_path@ == entry;
        lemma_in_file(defs, entry, defs[k]);
        assert(local.contains(defs[k]));
    } else if local.len() > 0 {
        assert(local.contains(local[0]));
        lemma_in_file(defs, entry, local[0]);
        let k = choose|k: int| 0 <= k < defs.len() && defs[k] == local[0];
        assert(defs[k].file_path@ == entry);
    }
}

} // verus!
