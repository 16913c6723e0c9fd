//! What reports and briefs show.
use vstd::prelude::*;
use crate::brief;
use crate::brief::{BriefHistory, EditBrief};
use crate::impact::{EntryView, ImpactEntry};
use crate::impact_report;
use crate::impact_report::{ImpactOptions, ImpactReport, SiblingSymbol};
use crate::laws::{sorting, words};
use crate::model::{FileCategory, Symbol};
use crate::order;
use crate::text;

verus! {

// ---------------------------------------------------------------------------
// Impact reports
// ---------------------------------------------------------------------------

/// A report keeps the order of the entries and shows each with its path, its
/// distance and its category. It is cut at the limit, and says so; a summary
/// counts every entry, whatever was cut.
pub proof fn law_a_report_is_cut_at_its_limit_and_says_so(
    out: ImpactReport,
    entries: Vec<ImpactEntry>,
    opts: ImpactOptions,
    target: Option<Seq<char>>,
    target_files: Vec<String>,
    imported: Vec<String>,
    beside: Vec<Symbol>,
)
    requires
        impact_report::reports_impact(out, entries, opts, target, target_files, imported, beside),
    ensures
        opts.limit is None ==> out.results@.len() == entries@.len() && !out.truncated,
        opts.limit matches Some(n) ==> out.results@.len() == (if entries@.len() <= n {
            entries@.len() as int
        } else {
            n as int
        }),
        out.truncated <==> out.results@.len() < entries@.len(),
        forall|i: int|
            0 <= i < out.results@.len() ==> i < entries@.len() && (#[trigger] out.results@[i]).file_path@
                == entries@[i].file_path@ && out.results@[i].distance == entries@[i].distance
                && out.results@[i].category == entries@[i].category,
        !opts.summary_only ==> out.summary is None && forall|i: int|
            0 <= i < out.results@.len() ==> (#[trigger] out.results@[i])@.reasons == entries@[i]@.reasons,
        opts.summary_only ==> forall|i: int|
            0 <= i < out.results@.len() ==> (#[trigger] out.results@[i])@.reasons.len() <= 1 && (
            entries@[i]@.reasons.len() > 0 ==> out.results@[i]@.reasons.len() == 1 && out.results@[i]@.reasons[0]
                == entries@[i]@.reasons[0]),
        opts.summary_only ==> (out.summary matches Some(s) && s.total_affected == entries@.len()),
        out.counts_floor,
{
    broadcast use text::group_views;

    let all = text::views(entries@);
    let list = text::views(out.results@);
    assert(list.len() == out.results@.len());
    assert(all.len() == entries@.len());
    assert forall|i: int| 0 <= i < out.results@.len() implies list[i] == out.results@[i]@ && all[i] == entries@[i]@ && (
    list[i] == all[i] || list[i] == impact_report::shortened(all[i])) && (#[trigger] out.results@[i]) == out.results@[i] by {
        assert(list[i] == out.results@[i]@);
        assert(all[i] == entries@[i]@);
    }
}

/// The files that the target's files import are shown where they are asked for,
/// without the target's own files; each once and ascending.
pub proof fn law_forward_dependencies_leave_the_target_out(
    imported: Seq<Seq<char>>,
    targets: Seq<Seq<char>>,
    x: Seq<char>,
)
    ensures
        impact_report::forward(imported, targets).contains(x) <==> imported.contains(x) && !targets.contains(x),
{
    let all = order::ascending_set(imported);
    order::lemma_ascending_set_holds(imported);
    assert(all.contains(x) <==> imported.contains(x));
    let keep = |p: Seq<char>| !targets.contains(p);
    let kept = all.filter(keep);
    if kept.contains(x) {
        let i = choose|i: int| 0 <= i < kept.len() && kept[i] == x;
        all.lemma_filter_pred(keep, i);
        all.lemma_filter_contains_rev(keep, x);
    }
    if imported.contains(x) && !targets.contains(x) {
        let i = choose|i: int| 0 <= i < all.len() && all[i] == x;
        all.lemma_filter_contains(keep, i);
    }
}

/// What is not asked for is not shown.
pub proof fn law_a_report_shows_what_was_asked_for(
    out: ImpactReport,
    entries: Vec<ImpactEntry>,
    opts: ImpactOptions,
    target: Option<Seq<char>>,
    target_files: Vec<String>,
    imported: Vec<String>,
    beside: Vec<Symbol>,
)
    requires
        impact_report::reports_impact(out, entries, opts, target, target_files, imported, beside),
    ensures
        !opts.include_forward ==> out.forward_dependencies@.len() == 0,
        !opts.include_siblings ==> out.sibling_symbols@.len() == 0,
        out.sibling_symbols@.len() <= 60,
        opts.include_forward ==> forall|x: Seq<char>| #[trigger]
            text::views(out.forward_dependencies@).contains(x) <==> text::views(imported@).contains(x) && !text::views(
                target_files@,
            ).contains(x),
{
    broadcast use text::group_views;

    assert(text::views(out.forward_dependencies@).len() == out.forward_dependencies@.len());
    assert(text::views(out.sibling_symbols@).len() == out.sibling_symbols@.len());
    let rows = crate::impact::at_most(
        impact_report::siblings(beside@, target).1,
        impact_report::SIBLING_SYMBOL_CAP,
    );
    sorting::law_sorting_keeps_what_is_listed::<SiblingSymbol>(rows);
    if opts.include_forward {
        assert forall|x: Seq<char>| #[trigger]
            text::views(out.forward_dependencies@).contains(x) <==> text::views(imported@).contains(x) && !text::views(
                target_files@,
            ).contains(x) by {
            law_forward_dependencies_leave_the_target_out(text::views(imported@), text::views(target_files@), x);
        }
    }
}

/// A symbol beside the target is listed by its name, its kind and its line,
/// unless it is the target itself or one of that kind and name was listed.
pub proof fn law_symbols_beside_the_target_are_listed_once(symbols: Seq<Symbol>, s: Symbol, target: Option<Seq<char>>)
    ensures
        ({
            let (labels, rows) = impact_report::siblings(symbols, target);
            let (more, all) = impact_report::siblings(symbols.push(s), target);
            &&& target == Some(s.name@) || target == Some(s.qualified_name@) ==> all == rows
            &&& target != Some(s.name@) && target != Some(s.qualified_name@) && !labels.contains(
                s.kind@ + "::"@ + s.name@,
            ) ==> all == rows.push((s.name@, s.kind@, s.line_start)) && more == labels.push(s.kind@ + "::"@ + s.name@)
            &&& labels.contains(s.kind@ + "::"@ + s.name@) ==> all == rows && more == labels
        }),
{
    assert(symbols.push(s).drop_last() =~= symbols);
}

/// A summary counts each entry once: one more entry of a distance or a category
/// raises that count alone.
pub proof fn law_a_summary_counts_each_entry_once(s: Seq<EntryView>, e: EntryView, d: u32, c: FileCategory)
    ensures
        impact_report::at_distance(Seq::empty(), d) == 0,
        impact_report::of_category(Seq::empty(), c) == 0,
        impact_report::at_distance(s.push(e), d) == impact_report::at_distance(s, d) + (if e.distance == d {
            1nat
        } else {
            0
        }),
        impact_report::of_category(s.push(e), c) == impact_report::of_category(s, c) + (if e.category == c {
            1nat
        } else {
            0
        }),
{
    reveal(Seq::filter);
    assert(s.push(e).drop_last() =~= s);
}

/// The rows of a summary by category name only categories that occur, with their
/// counts, and every category that occurs.
pub proof fn law_every_category_that_occurs_has_a_row(s: Seq<EntryView>, k: int)
    requires
        0 <= k < s.len(),
        s.len() <= usize::MAX,
    ensures
        impact_report::category_rows(s).contains(
            (s[k].category, impact_report::of_category(s, s[k].category) as usize),
        ),
        forall|i: int|
            0 <= i < impact_report::category_rows(s).len() ==> (#[trigger] impact_report::category_rows(s)[i]).1 > 0,
{
    let all = seq![
        (FileCategory::Source, impact_report::of_category(s, FileCategory::Source) as usize),
        (FileCategory::Test, impact_report::of_category(s, FileCategory::Test) as usize),
        (FileCategory::Config, impact_report::of_category(s, FileCategory::Config) as usize),
    ];
    let p = |c: (FileCategory, usize)| c.1 > 0;
    assert(impact_report::category_rows(s) == all.filter(p));
    let c = s[k].category;
    lemma_counted(s, k);
    let j: int = match c {
        FileCategory::Source => 0,
        FileCategory::Test => 1,
        FileCategory::Config => 2,
    };
    assert(all[j] == (c, impact_report::of_category(s, c) as usize));
    all.lemma_filter_contains(p, j);
    assert forall|i: int| 0 <= i < all.filter(p).len() implies (#[trigger] all.filter(p)[i]).1 > 0 by {
        all.lemma_filter_pred(p, i);
    }
}

proof fn lemma_counted(s: Seq<EntryView>, k: int)
    requires
        0 <= k < s.len(),
    ensures
        0 < impact_report::of_category(s, s[k].category) <= s.len(),
{
    broadcast use vstd::seq_lib::group_filter_ensures;

    let c = s[k].category;
    let p = |e: EntryView| e.category == c;
    s.lemma_filter_contains(p, k);
    s.lemma_filter_len(p);
    assert(impact_report::of_category(s, c) == s.filter(p).len());
}

// ---------------------------------------------------------------------------
// Briefs
// ---------------------------------------------------------------------------

/// A stem of at least three characters is named by itself and by itself with one
/// test affix; no shorter stem is named by anything.
pub proof fn law_a_test_affix_names_the_source(source: Seq<char>)
    ensures
        source.len() >= 3 ==> {
            &&& brief::stem_names(source, source)
            &&& brief::stem_names("test_"@ + source, source)
            &&& brief::stem_names("test-"@ + source, source)
        },
        source.len() < 3 ==> forall|test: Seq<char>| !#[trigger] brief::stem_names(test, source),
{
    reveal_strlit("test_");
    reveal_strlit("test-");
    words::law_a_text_begins_and_ends_with_its_parts("test_"@, source, Seq::empty());
    words::law_a_text_begins_and_ends_with_its_parts("test-"@, source, Seq::empty());
    let t = "test-"@ + source;
    assert(!text::starts_with(t, "test_"@)) by {
        if text::starts_with(t, "test_"@) {
            assert(t.subrange(0, 5)[4] == "test_"@[4]);
        }
    }
}

/// A stem that neither begins with a test prefix nor ends in another test suffix
/// is named by itself with such a suffix.
pub proof fn law_a_test_suffix_names_the_source(source: Seq<char>, suffix: Seq<char>)
    requires
        source.len() >= 3,
        suffix == "_test"@ || suffix == "-test"@ || suffix == "_spec"@ || suffix == "-spec"@,
        !text::starts_with(source + suffix, "test_"@),
        !text::starts_with(source + suffix, "test-"@),
    ensures
        brief::stem_names(source + suffix, source),
{
    let t = source + suffix;
    words::law_a_text_begins_and_ends_with_its_parts(source, suffix, Seq::empty());
    lemma_five(t, suffix, "_test"@);
    lemma_five(t, suffix, "-test"@);
    lemma_five(t, suffix, "_spec"@);
    reveal_strlit("_test");
    reveal_strlit("-test");
    reveal_strlit("_spec");
    reveal_strlit("-spec");
    assert("_test"@[0] == '_' && "-test"@[0] == '-' && "_spec"@[0] == '_' && "_test"@[1] == 't' && "_spec"@[1] == 's'
        && "-spec"@[0] == '-' && "-spec"@[1] == 's' && "-test"@[1] == 't');
}

proof fn lemma_last_of_suffix(t: Seq<char>, p: Seq<char>)
    requires
        p.len() > 0,
        text::ends_with(t, p),
    ensures
        t.len() >= p.len(),
        t.last() == p.last(),
        t[t.len() - p.len()] == p[0],
{
    let e = t.subrange(t.len() - p.len(), t.len() as int);
    assert(e == p);
    assert(e[p.len() - 1] == t.last());
    assert(e[0] == t[t.len() - p.len()]);
}

proof fn lemma_no_other_suffix(source: Seq<char>, suffix: Seq<char>, other: Seq<char>)
    requires
        source.len() >= 3,
        suffix == "tests"@ || suffix == "test"@ || suffix == "spec"@,
        other == "_test"@ || other == "-test"@ || other == "_spec"@ || other == "-spec"@,
        source.last() != '_',
        source.last() != '-',
    ensures
        !text::ends_with(source + suffix, other),
{
    reveal_strlit("tests");
    reveal_strlit("test");
    reveal_strlit("spec");
    reveal_strlit("_test");
    reveal_strlit("-test");
    reveal_strlit("_spec");
    reveal_strlit("-spec");
    let t = source + suffix;
    assert(t.last() == suffix.last());
    if text::ends_with(t, other) {
        lemma_last_of_suffix(t, other);
        if suffix.len() == 4 {
            assert(t[t.len() - 5] == source.last());
        }
    }
}

/// A stem with one of these endings, without a separator before it, names what
/// precedes the ending.
pub proof fn law_a_plain_test_ending_names_the_source(source: Seq<char>, suffix: Seq<char>)
    requires
        source.len() >= 3,
        suffix == "tests"@ || suffix == "test"@ || suffix == "spec"@,
        source.last() != '_',
        source.last() != '-',
        !text::starts_with(source + suffix, "test_"@),
        !text::starts_with(source + suffix, "test-"@),
    ensures
        brief::stem_names(source + suffix, source),
{
    let t = source + suffix;
    words::law_a_text_begins_and_ends_with_its_parts(source, suffix, Seq::empty());
    lemma_no_other_suffix(source, suffix, "_test"@);
    lemma_no_other_suffix(source, suffix, "-test"@);
    lemma_no_other_suffix(source, suffix, "_spec"@);
    lemma_no_other_suffix(source, suffix, "-spec"@);
    assert(suffix != "tests"@ ==> !text::ends_with(t, "tests"@)) by {
        reveal_strlit("tests");
        reveal_strlit("test");
        reveal_strlit("spec");
        assert(t.last() == suffix.last());
        if text::ends_with(t, "tests"@) {
            lemma_last_of_suffix(t, "tests"@);
        }
    }
    assert(suffix == "spec"@ ==> !text::ends_with(t, "test"@)) by {
        reveal_strlit("test");
        reveal_strlit("spec");
        if suffix == "spec"@ && text::ends_with(t, "test"@) {
            assert(t.last() == suffix.last());
            lemma_last_of_suffix(t, "test"@);
        }
    }
}

proof fn lemma_five(t: Seq<char>, a: Seq<char>, b: Seq<char>)
    requires
        text::ends_with(t, a),
        a == "_test"@ || a == "-test"@ || a == "_spec"@ || a == "-spec"@,
        b == "_test"@ || b == "-test"@ || b == "_spec"@ || b == "-spec"@,
    ensures
        text::ends_with(t, b) <==> a == b,
{
    reveal_strlit("_test");
    reveal_strlit("-test");
    reveal_strlit("_spec");
    reveal_strlit("-spec");
    assert(a.len() == 5 && b.len() == 5);
}

proof fn lemma_own_tests(recommended: Seq<Seq<char>>, file: Seq<char>, max: nat)
    ensures
        ({
            let own = brief::own_tests(recommended, file, max);
            &&& own.len() <= max
            &&& forall|i: int|
                0 <= i < own.len() ==> recommended.contains(#[trigger] own[i]) && brief::names_source(own[i], file)
            &&& own.len() < max ==> forall|k: int|
                0 <= k < recommended.len() && brief::names_source(#[trigger] recommended[k], file) ==> own.contains(
                    recommended[k],
                )
        }),
    decreases recommended.len(),
{
    if recommended.len() > 0 {
        let less = recommended.drop_last();
        let before = brief::own_tests(less, file, max);
        let own = brief::own_tests(recommended, file, max);
        lemma_own_tests(less, file, max);
        assert forall|i: int| 0 <= i < own.len() implies recommended.contains(#[trigger] own[i]) && brief::names_source(
            own[i],
            file,
        ) by {
            if i < before.len() {
                assert(own[i] == before[i]);
                let k = choose|k: int| 0 <= k < less.len() && less[k] == before[i];
                assert(recommended[k] == own[i]);
            } else {
                assert(recommended[recommended.len() - 1] == own[i]);
            }
        }
        if own.len() < max {
            assert forall|k: int|
                0 <= k < recommended.len() && brief::names_source(#[trigger] recommended[k], file) implies own.contains(
                recommended[k],
            ) by {
                if k < less.len() {
                    assert(less[k] == recommended[k]);
                    let i = choose|i: int| 0 <= i < before.len() && before[i] == less[k];
                    assert(own[i] == recommended[k]);
                } else {
                    assert(own[own.len() - 1] == recommended[k]);
                }
            }
        }
    }
}

/// A brief names up to five of the recommended tests, only such as are named
/// after the file, and all of those where there are fewer than five; up to five
/// coupled files, the first ones; a file whose text on disk differs from the
/// indexed one is stale; churn counts from five commits on; and a brief with
/// neither tests nor coupled files nor churn is empty.
pub proof fn law_a_brief_says_what_is_known_of_the_file(
    out: EditBrief,
    file: Seq<char>,
    history: Option<BriefHistory>,
    coupled: Vec<String>,
    recommended: Vec<String>,
    on_disk: Option<String>,
    indexed: Option<String>,
)
    requires
        brief::briefs(out, file, history, coupled, recommended, on_disk, indexed),
    ensures
        out.tests@.len() <= 5,
        forall|i: int|
            0 <= i < out.tests@.len() ==> text::views(recommended@).contains((#[trigger] out.tests@[i])@)
                && brief::names_source(out.tests@[i]@, file),
        out.tests@.len() < 5 ==> forall|k: int|
            0 <= k < recommended@.len() && brief::names_source((#[trigger] recommended@[k])@, file) ==> text::views(
                out.tests@,
            ).contains(recommended@[k]@),
        out.coupled@.len() == (if coupled@.len() < 5 {
            coupled@.len() as int
        } else {
            5
        }),
        forall|i: int| 0 <= i < out.coupled@.len() ==> #[trigger] out.coupled@[i] == coupled@[i],
        out.stale <==> (on_disk matches Some(a) && (indexed matches Some(b) && a@ != b@)),
        out.hotspot <==> (history matches Some(h) && h.churn_notable && h.commits >= 5),
        history matches Some(h) ==> out.fix_count == Some(h.fix_count) && out.commits == Some(h.commits),
        history is None ==> out.fix_count is None && out.commits is None,
        out.empty <==> out.tests@.len() == 0 && out.coupled@.len() == 0 && !out.hotspot,
{
    broadcast use text::group_views;

    let all = text::views(recommended@);
    let shown = text::views(out.tests@);
    lemma_own_tests(all, file, 5);
    assert(shown.len() == out.tests@.len());
    assert(all.len() == recommended@.len());
    assert(out.tests.len() == out.tests@.len());
    assert(out.coupled.len() == out.coupled@.len());
    assert forall|i: int| 0 <= i < out.tests@.len() implies all.contains((#[trigger] out.tests@[i])@)
        && brief::names_source(out.tests@[i]@, file) by {
        assert(shown[i] == out.tests@[i]@);
    }
    if out.tests@.len() < 5 {
        assert forall|k: int|
            0 <= k < recommended@.len() && brief::names_source((#[trigger] recommended@[k])@, file) implies shown.contains(
            recommended@[k]@,
        ) by {
            assert(all[k] == recommended@[k]@);
        }
    }
}

} // verus!
