//! Whole bundles: the context of a query, of a symbol and of a feature.
use vstd::prelude::*;
use vstd::string::*;
use crate::bundle;
use crate::bundle::{
    effective_limit, feature_description, finalize_bundle, symbol_not_found, BundleChunk,
    ChunkKey, ContextBundle, Definitions, DefinitionsView, FeatureFile, FeatureFileRole, Offer,
    Picked, PickedView,
};
use crate::model::Symbol;
use crate::text;
use crate::text::concat2;

verus! {

// ---------------------------------------------------------------------------
// Limits and keys
// ---------------------------------------------------------------------------

/// The first items, at most `limit` of them.
pub open spec fn at_most<T>(items: Seq<T>, limit: nat) -> Seq<T> {
    if items.len() <= limit {
        items
    } else {
        items.take(limit as int)
    }
}

fn first_symbols(symbols: &Vec<Symbol>, limit: usize) -> (out: Vec<Symbol>)
    ensures
        out@ == at_most(symbols@, limit as nat),
{
    let mut out: Vec<Symbol> = Vec::new();
    while out.len() < symbols.len() && out.len() < limit
        invariant
            out@.len() <= symbols@.len(),
            out@.len() <= limit,
            out@ == symbols@.take(out@.len() as int),
        decreases symbols@.len() - out@.len(),
    {
        let next = symbols[out.len()].clone();
        proof {
            let n = out@.len() as int;
            assert(symbols@.take(n + 1) =~= symbols@.take(n).push(symbols@[n]));
        }
        out.push(next);
    }
    assert(symbols@.take(symbols@.len() as int) =~= symbols@);
    out
}

/// The definitions of a symbol that are shown.
pub fn shown_definitions(defs: &Vec<Symbol>, limit: usize) -> (out: Vec<Symbol>)
    ensures
        out@ == at_most(defs@, bundle::effective(limit as nat)),
{
    first_symbols(defs, effective_limit(limit))
}

/// No picks yet, where nothing of `p` is picked again.
pub open spec fn beside(p: PickedView) -> PickedView {
    PickedView { chunks: Seq::empty(), seen: p.seen }
}

/// The chunks of an answer that was found as a whole.
pub open spec fn given(chunks: Seq<BundleChunk>) -> PickedView {
    PickedView { chunks, seen: chunks.map_values(|c: BundleChunk| bundle::key_of(c)) }
}

fn pick_beside(p: &Picked) -> (out: Picked)
    ensures
        out@ == beside(p@),
        out.wf(),
{
    broadcast use text::group_views;
    let mut seen: Vec<ChunkKey> = Vec::new();
    let mut i: usize = 0;
    while i < p.seen.len()
        invariant
            i <= p.seen@.len(),
            text::views(seen@) == text::views(p.seen@).take(i as int),
        decreases p.seen@.len() - i,
    {
        broadcast use text::group_views;
        let ghost keys = text::views(p.seen@);
        assert(keys.take(i + 1) =~= keys.take(i as int).push(keys[i as int]));
        seen.push(ChunkKey { file_path: p.seen[i].file_path.clone(), start_line: p.seen[i].start_line });
        i += 1;
    }
    assert(text::views(p.seen@).take(p.seen@.len() as int) =~= text::views(p.seen@));
    Picked { chunks: Vec::new(), seen }
}

fn take_given(chunks: Vec<BundleChunk>) -> (out: Picked)
    ensures
        out@ == given(chunks@),
{
    broadcast use text::group_views;
    let ghost keys = given(chunks@).seen;
    let mut seen: Vec<ChunkKey> = Vec::new();
    let mut i: usize = 0;
    while i < chunks.len()
        invariant
            i <= chunks@.len(),
            keys == given(chunks@).seen,
            text::views(seen@) == keys.take(i as int),
        decreases chunks@.len() - i,
    {
        broadcast use text::group_views;
        assert(keys.take(i + 1) =~= keys.take(i as int).push(keys[i as int]));
        seen.push(ChunkKey { file_path: chunks[i].file_path.clone(), start_line: chunks[i].start_line });
        i += 1;
    }
    assert(keys.take(keys.len() as int) =~= keys);
    Picked { chunks, seen }
}

// ---------------------------------------------------------------------------
// Numbers that fit
// ---------------------------------------------------------------------------

/// Whatever is picked of these offers can be numbered.
pub open spec fn offers_fit(offers: Seq<Offer>) -> bool {
    forall|i: int| 0 <= i < offers.len() ==> bundle::chunks_fit((#[trigger] offers[i]).chunks@)
}

/// Whatever is picked of these files can be numbered.
pub open spec fn files_fit(files: Seq<FeatureFile>) -> bool {
    forall|i: int| 0 <= i < files.len() ==> bundle::chunks_fit((#[trigger] files[i]).chunks@)
}

proof fn lemma_covering_bounds(chunks: Seq<BundleChunk>, line: u32, i: int)
    requires
        0 <= i,
    ensures
        bundle::covering_from(chunks, line, i) matches Some(k) ==> 0 <= k < chunks.len(),
    decreases chunks.len() - i,
{
    if i < chunks.len() {
        lemma_covering_bounds(chunks, line, i + 1);
    }
}

proof fn lemma_earliest_bounds(chunks: Seq<BundleChunk>)
    ensures
        bundle::earliest(chunks) matches Some(k) ==> 0 <= k < chunks.len(),
    decreases chunks.len(),
{
    if chunks.len() > 0 {
        lemma_earliest_bounds(chunks.drop_last());
    }
}

proof fn lemma_one_more_fits(p: PickedView, chunks: Seq<BundleChunk>, line: u32)
    requires
        bundle::chunks_fit(p.chunks),
        bundle::chunks_fit(chunks),
    ensures
        bundle::chunks_fit(bundle::with_covering(p, chunks, line).chunks),
        bundle::chunks_fit(bundle::with_earliest(p, chunks).chunks),
{
    lemma_covering_bounds(chunks, line, 0);
    lemma_earliest_bounds(chunks);
}

proof fn lemma_gathered_fits(p: PickedView, offers: Seq<Offer>, limit: nat)
    requires
        bundle::chunks_fit(p.chunks),
        offers_fit(offers),
    ensures
        bundle::chunks_fit(bundle::gathered(p, offers, limit).chunks),
    decreases offers.len(),
{
    if offers.len() > 0 {
        let rest = offers.drop_last();
        assert forall|i: int| 0 <= i < rest.len() implies bundle::chunks_fit((#[trigger] rest[i]).chunks@) by {
            assert(rest[i] == offers[i]);
        }
        lemma_gathered_fits(p, rest, limit);
        assert(bundle::chunks_fit(offers[offers.len() - 1].chunks@));
        lemma_one_more_fits(bundle::gathered(p, rest, limit), offers.last().chunks@, offers.last().line);
    }
}

proof fn lemma_role_fits(p: PickedView, files: Seq<FeatureFile>, role: FeatureFileRole, limit: nat)
    requires
        bundle::chunks_fit(p.chunks),
        files_fit(files),
    ensures
        bundle::chunks_fit(bundle::with_role(p, files, role, limit).chunks),
    decreases files.len(),
{
    if files.len() > 0 {
        let rest = files.drop_last();
        assert forall|i: int| 0 <= i < rest.len() implies bundle::chunks_fit((#[trigger] rest[i]).chunks@) by {
            assert(rest[i] == files[i]);
        }
        lemma_role_fits(p, rest, role, limit);
        assert(bundle::chunks_fit(files[files.len() - 1].chunks@));
        lemma_one_more_fits(bundle::with_role(p, rest, role, limit), files.last().chunks@, 0);
    }
}

proof fn lemma_primary_fits(p: PickedView, files: Seq<FeatureFile>, entry_line: Option<u32>, limit: nat)
    requires
        bundle::chunks_fit(p.chunks),
        files_fit(files),
    ensures
        bundle::chunks_fit(bundle::primary_of(p, files, entry_line, limit).chunks),
    decreases files.len(),
{
    if files.len() > 0 {
        let rest = files.drop_last();
        assert forall|i: int| 0 <= i < rest.len() implies bundle::chunks_fit((#[trigger] rest[i]).chunks@) by {
            assert(rest[i] == files[i]);
        }
        lemma_primary_fits(p, rest, entry_line, limit);
        let chunks = files.last().chunks@;
        assert(bundle::chunks_fit(files[files.len() - 1].chunks@));
        let q = bundle::primary_of(p, rest, entry_line, limit);
        let line = match entry_line {
            Some(l) => l,
            None => 0,
        };
        lemma_one_more_fits(q, chunks, line);
        lemma_one_more_fits(bundle::with_covering(q, chunks, line), chunks, line);
    }
}

/// Chunks as a bundle shows them: numbered, where that is wanted.
pub open spec fn shown(out: Seq<BundleChunk>, chunks: Seq<BundleChunk>, line_numbers: bool) -> bool {
    if line_numbers {
        bundle::all_numbered(out, chunks)
    } else {
        out == chunks
    }
}

// ---------------------------------------------------------------------------
// Bundles
// ---------------------------------------------------------------------------

/// The bundle of a symbol: chunks of its definitions, chunks around them, and the
/// definitions themselves.
pub open spec fn shows_symbol(
    out: ContextBundle,
    name: Seq<char>,
    defs: Seq<Symbol>,
    places: Seq<Offer>,
    around: Seq<Offer>,
    limit: usize,
    line_numbers: bool,
) -> bool {
    &&& defs.len() == 0 ==> {
        &&& !out.found
        &&& out.target_description@ == "symbol: "@ + name + " (not found)"@
        &&& out.primary@.len() == 0
        &&& out.related@.len() == 0
        &&& out.symbol_definitions@.len() == 0
    }
    &&& defs.len() > 0 ==> {
        let most = bundle::effective(limit as nat);
        let primary = bundle::gathered(given(Seq::empty()), places, most);
        let related = bundle::gathered(beside(primary), around, most);
        &&& out.found
        &&& out.target_description@ == "symbol: "@ + name
        &&& shown(out.primary@, primary.chunks, line_numbers)
        &&& shown(out.related@, related.chunks, line_numbers)
        &&& out.symbol_definitions@ == at_most(defs, most)
    }
}

/// The bundle of a symbol. `places` are where its shown definitions stand, and
/// `around` is where its callers and callees stand, in order.
pub fn export_context_for_symbol(
    name: &str,
    defs: &Vec<Symbol>,
    places: Vec<Offer>,
    around: Vec<Offer>,
    limit: usize,
    line_numbers: bool,
) -> (out: ContextBundle)
    requires
        line_numbers ==> offers_fit(places@) && offers_fit(around@),
    ensures
        shows_symbol(out, name@, defs@, places@, around@, limit, line_numbers),
{
    if defs.len() == 0 {
        return symbol_not_found(name);
    }
    let limit = effective_limit(limit);
    let mut primary = Picked::none();
    assert(primary@.chunks =~= given(Seq::empty()).chunks);
    assert(primary@.seen =~= given(Seq::empty()).seen);
    proof {
        if line_numbers {
            lemma_gathered_fits(primary@, places@, limit as nat);
        }
    }
    primary.take_offers(places, limit);
    let mut related = pick_beside(&primary);
    proof {
        if line_numbers {
            lemma_gathered_fits(related@, around@, limit as nat);
        }
    }
    related.take_offers(around, limit);
    finalize_bundle(
        ContextBundle {
            found: true,
            target_description: concat2("symbol: ", name),
            primary: primary.chunks,
            related: related.chunks,
            symbol_definitions: first_symbols(defs, limit),
        },
        line_numbers,
    )
}

/// How many definitions of a query's answer have their callers and callees
/// shown.
pub const QUERY_ANCHORS: usize = 5;

/// What a query's answer defines.
pub open spec fn query_definitions_of(chunks: Seq<BundleChunk>, candidates: Seq<Vec<Symbol>>) -> Seq<Symbol> {
    bundle::looked_up(
        DefinitionsView { found: Seq::empty(), asked: Seq::empty() },
        bundle::asks_of(chunks),
        candidates,
        candidates.len() as int,
    ).found
}

/// The definitions that the chunks of a query's answer mean.
pub fn query_definitions(chunks: &Vec<BundleChunk>, candidates: &Vec<Vec<Symbol>>) -> (out: Vec<Symbol>)
    requires
        candidates@.len() == bundle::asks_of(chunks@).len(),
    ensures
        out@ == query_definitions_of(chunks@, candidates@),
{
    let mut definitions = Definitions::none();
    assert(definitions@.found =~= Seq::empty());
    assert(definitions@.asked =~= Seq::empty());
    definitions.look_up(chunks, candidates);
    definitions.found
}

/// The definitions of a query's answer whose callers and callees are shown.
pub fn query_anchors(definitions: &Vec<Symbol>) -> (out: Vec<Symbol>)
    ensures
        out@ == at_most(definitions@, QUERY_ANCHORS as nat),
{
    first_symbols(definitions, QUERY_ANCHORS)
}

/// The bundle of a query. `found` is what the search gave, and `around` is where
/// the callers and callees of its definitions stand, in order.
pub fn export_context(
    query: &str,
    found: Vec<BundleChunk>,
    definitions: Vec<Symbol>,
    around: Vec<Offer>,
    limit: usize,
    line_numbers: bool,
) -> (out: ContextBundle)
    requires
        line_numbers ==> bundle::chunks_fit(found@) && offers_fit(around@),
    ensures
        out.found,
        out.target_description@ == "query: "@ + query@,
        shown(out.primary@, found@, line_numbers),
        shown(
            out.related@,
            bundle::gathered(beside(given(found@)), around@, limit as nat).chunks,
            line_numbers,
        ),
        out.symbol_definitions == definitions,
{
    let primary = take_given(found);
    let mut related = pick_beside(&primary);
    proof {
        if line_numbers {
            lemma_gathered_fits(related@, around@, limit as nat);
        }
    }
    related.take_offers(around, limit);
    finalize_bundle(
        ContextBundle {
            found: true,
            target_description: concat2("query: ", query),
            primary: primary.chunks,
            related: related.chunks,
            symbol_definitions: definitions,
        },
        line_numbers,
    )
}

// ---------------------------------------------------------------------------
// Features
// ---------------------------------------------------------------------------

/// How many definitions of a feature have their callers and callees shown.
pub const FEATURE_ANCHORS: usize = 3;

/// How many chunks the callers and callees of a feature may fill.
pub const FEATURE_AROUND: usize = 2;

/// A feature's bundle before what lies around it is known.
#[derive(Debug)]
pub struct FeatureDraft {
    pub limit: usize,
    pub primary: Picked,
    pub definitions: Definitions,
}

/// The primary chunks of a feature.
pub open spec fn feature_primary(files: Seq<FeatureFile>, entry_line: Option<u32>, limit: nat) -> PickedView {
    bundle::primary_of(given(Seq::empty()), files, entry_line, bundle::effective(limit))
}

/// The chunks beside the primary ones: a few from callers and callees, and
/// then tests and context until there are enough.
pub open spec fn feature_related(
    primary: PickedView,
    around: Seq<Offer>,
    tests: Seq<FeatureFile>,
    context: Seq<FeatureFile>,
    limit: nat,
) -> PickedView {
    let first: nat = if limit < FEATURE_AROUND {
        limit
    } else {
        FEATURE_AROUND as nat
    };
    let near = bundle::gathered(beside(primary), around, first);
    bundle::with_role(
        bundle::with_role(near, tests, FeatureFileRole::Test, limit),
        context,
        FeatureFileRole::Context,
        limit,
    )
}

impl FeatureDraft {
    /// Begins with the entry and owned files of a feature.
    pub fn begin(files: Vec<FeatureFile>, entry_line: Option<u32>, limit: usize) -> (out: FeatureDraft)
        ensures
            out.limit == bundle::effective(limit as nat),
            out.primary@ == feature_primary(files@, entry_line, limit as nat),
            out.definitions@ == (DefinitionsView { found: Seq::empty(), asked: Seq::empty() }),
            files_fit(files@) ==> bundle::chunks_fit(out.primary.chunks@),
    {
        let limit = effective_limit(limit);
        let mut primary = Picked::none();
        assert(primary@.chunks =~= given(Seq::empty()).chunks);
        assert(primary@.seen =~= given(Seq::empty()).seen);
        proof {
            if files_fit(files@) {
                lemma_primary_fits(primary@, files@, entry_line, limit as nat);
            }
        }
        primary.take_primary(files, entry_line, limit);
        let definitions = Definitions::none();
        assert(definitions@.found =~= Seq::empty());
        assert(definitions@.asked =~= Seq::empty());
        FeatureDraft { limit, primary, definitions }
    }

    /// Takes the definitions of the entry point, and those that the summaries
    /// of the primary chunks mean.
    pub fn define(&mut self, entry: Vec<Symbol>, entry_path: &str, candidates: &Vec<Vec<Symbol>>)
        requires
            candidates@.len() == bundle::asks_of(old(self).primary.chunks@).len(),
        ensures
            *final(self) == (FeatureDraft { definitions: final(self).definitions, ..*old(self) }),
            final(self).definitions@ == bundle::looked_up(
                bundle::all_taken(old(self).definitions@, bundle::entry_definitions(entry@, entry_path@)),
                bundle::asks_of(old(self).primary.chunks@),
                candidates@,
                candidates@.len() as int,
            ),
    {
        self.definitions.take_entry(entry, entry_path);
        self.definitions.look_up(&self.primary.chunks, candidates);
    }

    /// The definitions whose callers and callees are shown.
    pub fn anchors(&self) -> (out: Vec<Symbol>)
        ensures
            out@ == at_most(self.definitions@.found, FEATURE_ANCHORS as nat),
    {
        first_symbols(&self.definitions.found, FEATURE_ANCHORS)
    }
}

/// The bundle of a feature. `around` is where the callers and callees of its
/// anchors stand, in order.
pub fn feature_bundle(
    title: &str,
    id: &str,
    draft: FeatureDraft,
    around: Vec<Offer>,
    tests: Vec<FeatureFile>,
    context: Vec<FeatureFile>,
    line_numbers: bool,
) -> (out: ContextBundle)
    requires
        line_numbers ==> {
            &&& bundle::chunks_fit(draft.primary.chunks@)
            &&& offers_fit(around@)
            &&& files_fit(tests@)
            &&& files_fit(context@)
        },
    ensures
        out.found,
        out.target_description@ == "feature: "@ + title@ + " ("@ + id@ + ")"@,
        shown(out.primary@, draft.primary.chunks@, line_numbers),
        shown(
            out.related@,
            feature_related(draft.primary@, around@, tests@, context@, draft.limit as nat).chunks,
            line_numbers,
        ),
        out.symbol_definitions == draft.definitions.found,
{
    let mut related = pick_beside(&draft.primary);
    let first: usize = if draft.limit < FEATURE_AROUND {
        draft.limit
    } else {
        FEATURE_AROUND
    };
    proof {
        if line_numbers {
            lemma_gathered_fits(related@, around@, first as nat);
        }
    }
    related.take_offers(around, first);
    proof {
        if line_numbers {
            lemma_role_fits(related@, tests@, FeatureFileRole::Test, draft.limit as nat);
        }
    }
    related.take_role(tests, FeatureFileRole::Test, draft.limit);
    proof {
        if line_numbers {
            lemma_role_fits(related@, context@, FeatureFileRole::Context, draft.limit as nat);
        }
    }
    related.take_role(context, FeatureFileRole::Context, draft.limit);
    finalize_bundle(
        ContextBundle {
            found: true,
            target_description: feature_description(title, id),
            primary: draft.primary.chunks,
            related: related.chunks,
            symbol_definitions: draft.definitions.found,
        },
        line_numbers,
    )
}

// ---------------------------------------------------------------------------
// Laws
// ---------------------------------------------------------------------------

/// `q` holds what `p` has seen, and picked nothing of it.
pub open spec fn apart(p: PickedView, q: PickedView) -> bool {
    &&& forall|k: (Seq<char>, u32)| #[trigger] p.seen.contains(k) ==> q.seen.contains(k)
    &&& forall|i: int| 0 <= i < q.chunks.len() ==> !p.seen.contains(bundle::key_of(#[trigger] q.chunks[i]))
}

proof fn lemma_adding_stays_apart(p: PickedView, q: PickedView, c: BundleChunk)
    requires
        apart(p, q),
    ensures
        apart(p, bundle::added(q, c)),
{
    let r = bundle::added(q, c);
    if !q.seen.contains(bundle::key_of(c)) {
        assert forall|k: (Seq<char>, u32)| #[trigger] p.seen.contains(k) implies r.seen.contains(k) by {
            assert(q.seen.contains(k));
            let j = choose|j: int| 0 <= j < q.seen.len() && q.seen[j] == k;
            assert(r.seen[j] == k);
        }
    }
}

proof fn lemma_gathering_stays_apart(p: PickedView, q: PickedView, offers: Seq<Offer>, limit: nat)
    requires
        apart(p, q),
    ensures
        apart(p, bundle::gathered(q, offers, limit)),
    decreases offers.len(),
{
    if offers.len() > 0 {
        lemma_gathering_stays_apart(p, q, offers.drop_last(), limit);
        let r = bundle::gathered(q, offers.drop_last(), limit);
        let chunks = offers.last().chunks@;
        match bundle::covering_from(chunks, offers.last().line, 0) {
            Some(i) => lemma_adding_stays_apart(p, r, chunks[i]),
            None => {},
        }
    }
}

proof fn lemma_role_stays_apart(p: PickedView, q: PickedView, files: Seq<FeatureFile>, role: FeatureFileRole, limit: nat)
    requires
        apart(p, q),
    ensures
        apart(p, bundle::with_role(q, files, role, limit)),
    decreases files.len(),
{
    if files.len() > 0 {
        lemma_role_stays_apart(p, q, files.drop_last(), role, limit);
        let r = bundle::with_role(q, files.drop_last(), role, limit);
        let chunks = files.last().chunks@;
        match bundle::earliest(chunks) {
            Some(i) => lemma_adding_stays_apart(p, r, chunks[i]),
            None => {},
        }
    }
}

/// What is shown beside the answer never repeats a chunk of the answer.
pub proof fn law_related_chunks_are_new(
    primary: PickedView,
    around: Seq<Offer>,
    tests: Seq<FeatureFile>,
    context: Seq<FeatureFile>,
    limit: nat,
)
    ensures
        apart(primary, bundle::gathered(beside(primary), around, limit)),
        apart(primary, feature_related(primary, around, tests, context, limit)),
{
    let start = beside(primary);
    let first: nat = if limit < FEATURE_AROUND {
        limit
    } else {
        FEATURE_AROUND as nat
    };
    lemma_gathering_stays_apart(primary, start, around, limit);
    lemma_gathering_stays_apart(primary, start, around, first);
    let near = bundle::gathered(start, around, first);
    lemma_role_stays_apart(primary, near, tests, FeatureFileRole::Test, limit);
    let tested = bundle::with_role(near, tests, FeatureFileRole::Test, limit);
    lemma_role_stays_apart(primary, tested, context, FeatureFileRole::Context, limit);
}

proof fn lemma_role_respects_the_limit(p: PickedView, files: Seq<FeatureFile>, role: FeatureFileRole, limit: nat)
    requires
        p.chunks.len() <= limit,
    ensures
        bundle::with_role(p, files, role, limit).chunks.len() <= limit,
    decreases files.len(),
{
    if files.len() > 0 {
        lemma_role_respects_the_limit(p, files.drop_last(), role, limit);
    }
}

/// Neither list of a feature's bundle is longer than its limit.
pub proof fn law_feature_lists_respect_the_limit(
    files: Seq<FeatureFile>,
    entry_line: Option<u32>,
    around: Seq<Offer>,
    tests: Seq<FeatureFile>,
    context: Seq<FeatureFile>,
    limit: nat,
)
    ensures
        feature_primary(files, entry_line, limit).chunks.len() <= bundle::effective(limit),
        feature_related(
            feature_primary(files, entry_line, limit),
            around,
            tests,
            context,
            bundle::effective(limit),
        ).chunks.len() <= bundle::effective(limit),
{
    let most = bundle::effective(limit);
    bundle::law_primary_chunks_respect_the_limit(given(Seq::empty()), files, entry_line, most);
    let first: nat = if most < FEATURE_AROUND {
        most
    } else {
        FEATURE_AROUND as nat
    };
    let start = beside(feature_primary(files, entry_line, limit));
    bundle::law_offers_respect_the_limit(start, around, first);
    let near = bundle::gathered(start, around, first);
    lemma_role_respects_the_limit(near, tests, FeatureFileRole::Test, most);
    let tested = bundle::with_role(near, tests, FeatureFileRole::Test, most);
    lemma_role_respects_the_limit(tested, context, FeatureFileRole::Context, most);
}

} // verus!
