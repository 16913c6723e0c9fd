//! What a context shows.
use vstd::prelude::*;
use crate::bundle;
use crate::bundle::{BundleChunk, ContextBundle, FeatureFile, FeatureFileRole, Offer, PickedView};
use crate::context;
use crate::laws::bundles;
use crate::model::Symbol;

verus! {

proof fn lemma_shown(out: Seq<BundleChunk>, chunks: Seq<BundleChunk>, line_numbers: bool)
    requires
        context::shown(out, chunks, line_numbers),
    ensures
        out.len() == chunks.len(),
        forall|i: int|
            0 <= i < out.len() ==> (#[trigger] out[i]).file_path == chunks[i].file_path && out[i].start_line
                == chunks[i].start_line && out[i].end_line == chunks[i].end_line,
{
    if line_numbers {
        assert forall|i: int| 0 <= i < out.len() implies (#[trigger] out[i]).file_path == chunks[i].file_path
            && out[i].start_line == chunks[i].start_line && out[i].end_line == chunks[i].end_line by {
            assert(bundle::is_numbered(out[i], chunks[i]));
        }
    }
}

/// A symbol without definitions is not found; any other is shown with chunks that
/// hold the lines of its places and chunks around them, each list within the
/// limit, and five where none is given.
pub proof fn law_a_symbol_is_shown_within_the_limit(
    out: ContextBundle,
    name: Seq<char>,
    defs: Seq<Symbol>,
    places: Seq<Offer>,
    around: Seq<Offer>,
    limit: usize,
    line_numbers: bool,
)
    requires
        context::shows_symbol(out, name, defs, places, around, limit, line_numbers),
    ensures
        out.found <==> defs.len() > 0,
        ({
            let most: int = if limit == 0 {
                5
            } else {
                limit as int
            };
            &&& out.primary@.len() <= most
            &&& out.related@.len() <= most
            &&& out.symbol_definitions@.len() == (if defs.len() <= most {
                defs.len() as int
            } else {
                most
            })
            &&& forall|i: int|
                0 <= i < out.symbol_definitions@.len() ==> #[trigger] out.symbol_definitions@[i] == defs[i]
        }),
{
    if defs.len() > 0 {
        let most = bundle::effective(limit as nat);
        let start = context::given(Seq::empty());
        let primary = bundle::gathered(start, places, most);
        let beside = context::beside(primary);
        bundle::law_offers_respect_the_limit(start, places, most);
        bundle::law_offers_respect_the_limit(beside, around, most);
        lemma_shown(out.primary@, primary.chunks, line_numbers);
        lemma_shown(out.related@, bundle::gathered(beside, around, most).chunks, line_numbers);
    }
}

/// Beside the chunks of a feature at most two chunks around it are shown before
/// its tests, and its context files come last.
pub proof fn law_a_feature_shows_two_chunks_around_it_first(
    primary: PickedView,
    around: Seq<Offer>,
    tests: Seq<FeatureFile>,
    context_files: Seq<FeatureFile>,
    limit: nat,
)
    ensures
        ({
            let near = bundle::gathered(context::beside(primary), around, if limit < 2 {
                limit
            } else {
                2
            });
            let tested = bundle::with_role(near, tests, FeatureFileRole::Test, limit);
            let all = context::feature_related(primary, around, tests, context_files, limit);
            &&& near.chunks.len() <= 2
            &&& bundles::grows(near, tested)
            &&& bundles::grows(tested, all)
            &&& all == bundle::with_role(tested, context_files, FeatureFileRole::Context, limit)
        }),
{
    let first: nat = if limit < 2 {
        limit
    } else {
        2
    };
    let near = bundle::gathered(context::beside(primary), around, first);
    bundle::law_offers_respect_the_limit(context::beside(primary), around, first);
    lemma_role_grows(near, tests, FeatureFileRole::Test, limit);
    let tested = bundle::with_role(near, tests, FeatureFileRole::Test, limit);
    lemma_role_grows(tested, context_files, FeatureFileRole::Context, limit);
}

proof fn lemma_role_grows(p: PickedView, files: Seq<FeatureFile>, role: FeatureFileRole, limit: nat)
    ensures
        bundles::grows(p, bundle::with_role(p, files, role, limit)),
    decreases files.len(),
{
    if files.len() == 0 {
        assert(p.chunks.take(p.chunks.len() as int) =~= p.chunks);
    } else {
        let q = bundle::with_role(p, files.drop_last(), role, limit);
        lemma_role_grows(p, files.drop_last(), role, limit);
        bundles::law_a_file_is_shown_with_its_first_chunk(q, files.last().chunks@);
        let r = bundle::with_earliest(q, files.last().chunks@);
        assert(r.chunks.take(p.chunks.len() as int) =~= r.chunks.take(q.chunks.len() as int).take(
            p.chunks.len() as int,
        ));
    }
}

/// A list is cut at its limit and keeps its beginning.
pub proof fn law_a_list_is_cut_at_its_limit<T>(items: Seq<T>, limit: nat)
    ensures
        items.len() <= limit ==> context::at_most(items, limit) == items,
        items.len() > limit ==> context::at_most(items, limit) == items.take(limit as int),
{
}

} // verus!
