//! What an impact answer shows beside the dependents: a rollup, a limit, the
//! files the target itself depends on, and the definitions beside it.
use vstd::prelude::*;
use vstd::string::*;
use crate::impact;
use crate::impact::{EntryView, ImpactEntry};
use crate::model::{FileCategory, Symbol};
use crate::order;
use crate::order::{among, ascending_list, sort, Ranked};
use crate::text;
use crate::text::{concat3, same};

verus! {

/// Most sibling symbols that an answer lists.
pub const SIBLING_SYMBOL_CAP: usize = 60;

#[derive(Debug)]
pub struct ImpactOptions {
    pub include_forward: bool,
    pub include_siblings: bool,
    pub limit: Option<usize>,
    pub summary_only: bool,
}

#[derive(Debug)]
pub struct DistanceCount {
    pub distance: u32,
    pub count: usize,
}

#[derive(Debug)]
pub struct CategoryCount {
    pub category: FileCategory,
    pub count: usize,
}

impl View for DistanceCount {
    type V = (u32, usize);

    open spec fn view(&self) -> (u32, usize) {
        (self.distance, self.count)
    }
}

impl View for CategoryCount {
    type V = (FileCategory, usize);

    open spec fn view(&self) -> (FileCategory, usize) {
        (self.category, self.count)
    }
}

#[derive(Debug)]
pub struct ImpactSummary {
    pub total_affected: usize,
    pub by_distance: Vec<DistanceCount>,
    pub by_category: Vec<CategoryCount>,
}

/// How many entries stand at a distance.
pub open spec fn at_distance(s: Seq<EntryView>, d: u32) -> nat {
    s.filter(|e: EntryView| e.distance == d).len()
}

/// How many entries are of a category.
pub open spec fn of_category(s: Seq<EntryView>, c: FileCategory) -> nat {
    s.filter(|e: EntryView| e.category == c).len()
}

/// `rows` counts `s` by distance: ascending, each distance that occurs once.
pub open spec fn counts_distances(rows: Seq<(u32, usize)>, s: Seq<EntryView>) -> bool {
    &&& forall|i: int, j: int|
        0 <= i < j < rows.len() ==> (#[trigger] rows[i]).0 < (#[trigger] rows[j]).0
    &&& forall|i: int|
        0 <= i < rows.len() ==> (#[trigger] rows[i]).1 > 0 && rows[i].1 == at_distance(s, rows[i].0)
    &&& forall|k: int| 0 <= k < s.len() ==> counted(rows, (#[trigger] s[k]).distance)
}

/// A distance has a row.
pub open spec fn counted(rows: Seq<(u32, usize)>, d: u32) -> bool {
    exists|i: int| 0 <= i < rows.len() && (#[trigger] rows[i]).0 == d
}

/// The categories that occur, with how often, in a fixed order.
pub open spec fn category_rows(s: Seq<EntryView>) -> Seq<(FileCategory, usize)> {
    let all = seq![
        (FileCategory::Source, of_category(s, FileCategory::Source) as usize),
        (FileCategory::Test, of_category(s, FileCategory::Test) as usize),
        (FileCategory::Config, of_category(s, FileCategory::Config) as usize),
    ];
    all.filter(|c: (FileCategory, usize)| c.1 > 0)
}

fn add_distance(rows: &mut Vec<DistanceCount>, d: u32, Ghost(s): Ghost<Seq<EntryView>>, Ghost(e): Ghost<EntryView>)
    requires
        counts_distances(text::views(old(rows)@), s),
        e.distance == d,
        s.len() < usize::MAX,
    ensures
        counts_distances(text::views(final(rows)@), s.push(e)),
{
    broadcast use text::group_views;
    let ghost was = text::views(rows@);
    let mut i: usize = 0;
    while i < rows.len() && rows[i].distance < d
        invariant
            i <= rows.len(),
            was == text::views(rows@),
            forall|j: int| 0 <= j < i ==> (#[trigger] was[j]).0 < d,
        decreases rows.len() - i,
    {
        broadcast use text::group_views;
        assert(was[i as int].0 == rows@[i as int].distance);
        i += 1;
    }
    proof {
        lemma_count_push(s, e);
    }
    if i < rows.len() && rows[i].distance == d {
        assert(was[i as int].0 == d);
        let ghost n = rows@[i as int].count;
        proof {
            lemma_count_bound(s, d);
        }
        let c: usize = rows[i].count;
        rows[i].count = c + 1;
        proof {
            let now = text::views(rows@);
            assert(now =~= was.update(i as int, (d, (n + 1) as usize)));
            assert forall|a: int| 0 <= a < now.len() implies (#[trigger] now[a]).1 > 0 && now[a].1
                == at_distance(s.push(e), now[a].0) by {
                assert(was[a].1 == at_distance(s, was[a].0));
                if a != i {
                    if a < i {
                        assert(was[a].0 < was[i as int].0);
                    } else {
                        assert(was[i as int].0 < was[a].0);
                    }
                }
            }
            assert forall|a: int, b: int| 0 <= a < b < now.len() implies (#[trigger] now[a]).0 < (
            #[trigger] now[b]).0 by {
                assert(was[a].0 < was[b].0);
            }
            assert forall|k: int| 0 <= k < s.push(e).len() implies counted(
                now,
                (#[trigger] s.push(e)[k]).distance,
            ) by {
                if k < s.len() {
                    assert(s[k] == s.push(e)[k]);
                    assert(counted(was, s[k].distance));
                    let a = choose|a: int| 0 <= a < was.len() && (#[trigger] was[a]).0 == s[k].distance;
                    assert(now[a].0 == s[k].distance);
                } else {
                    assert(now[i as int].0 == d);
                }
            }
        }
    } else {
        proof {
            if i < was.len() {
                assert(was[i as int].0 == rows@[i as int].distance);
            }
            assert forall|j: int| i <= j < was.len() implies d < (#[trigger] was[j]).0 by {
                if j > i {
                    assert(was[i as int].0 < was[j].0);
                }
            }
            assert(at_distance(s, d) == 0) by {
                assert forall|k: int| 0 <= k < s.len() implies (#[trigger] s[k]).distance != d by {
                    assert(counted(was, s[k].distance));
                }
                lemma_absent(s, d);
            }
        }
        rows.insert(i, DistanceCount { distance: d, count: 1 });
        proof {
            let now = text::views(rows@);
            assert(now =~= was.insert(i as int, (d, 1usize)));
            assert forall|a: int| 0 <= a < now.len() implies (#[trigger] now[a]).1 > 0 && now[a].1
                == at_distance(s.push(e), now[a].0) by {
                if a < i {
                    assert(now[a] == was[a]);
                    assert(was[a].1 == at_distance(s, was[a].0));
                } else if a > i {
                    assert(now[a] == was[a - 1]);
                    assert(was[a - 1].1 == at_distance(s, was[a - 1].0));
                }
            }
            assert forall|a: int, b: int| 0 <= a < b < now.len() implies (#[trigger] now[a]).0 < (
            #[trigger] now[b]).0 by {
                if a < i && b < i {
                    assert(was[a].0 < was[b].0);
                } else if a < i && b > i {
                    assert(was[a].0 < was[b - 1].0);
                } else if a > i {
                    assert(was[a - 1].0 < was[b - 1].0);
                } else if a == i && b > i {
                    assert(now[b] == was[b - 1]);
                } else if b == i {
                    assert(now[a] == was[a]);
                }
            }
            assert forall|k: int| 0 <= k < s.push(e).len() implies counted(
                now,
                (#[trigger] s.push(e)[k]).distance,
            ) by {
                if k < s.len() {
                    assert(s[k] == s.push(e)[k]);
                    assert(counted(was, s[k].distance));
                    let a = choose|a: int| 0 <= a < was.len() && (#[trigger] was[a]).0 == s[k].distance;
                    if a < i {
                        assert(now[a].0 == s[k].distance);
                    } else {
                        assert(now[a + 1].0 == s[k].distance);
                    }
                } else {
                    assert(now[i as int].0 == d);
                }
            }
        }
    }
}

proof fn lemma_count_push(s: Seq<EntryView>, e: EntryView)
    ensures
        forall|d: u32| #[trigger] at_distance(s.push(e), d) == at_distance(s, d) + if e.distance == d {
            1nat
        } else {
            0nat
        },
        forall|c: FileCategory| #[trigger] of_category(s.push(e), c) == of_category(s, c) + if e.category == c {
            1nat
        } else {
            0nat
        },
{
    reveal(Seq::filter);
    assert(s.push(e).drop_last() =~= s);
}

proof fn lemma_count_bound(s: Seq<EntryView>, d: u32)
    ensures
        at_distance(s, d) <= s.len(),
        forall|c: FileCategory| #[trigger] of_category(s, c) <= s.len(),
    decreases s.len(),
{
    reveal(Seq::filter);
    if s.len() > 0 {
        lemma_count_bound(s.drop_last(), d);
        assert forall|c: FileCategory| #[trigger] of_category(s, c) <= s.len() by {
            assert(of_category(s.drop_last(), c) <= s.len() - 1);
        }
    }
}

proof fn lemma_absent(s: Seq<EntryView>, d: u32)
    requires
        forall|k: int| 0 <= k < s.len() ==> (#[trigger] s[k]).distance != d,
    ensures
        at_distance(s, d) == 0,
    decreases s.len(),
{
    reveal(Seq::filter);
    if s.len() > 0 {
        assert forall|k: int| 0 <= k < s.len() - 1 implies (#[trigger] s.drop_last()[k]).distance
            != d by {
            assert(s[k].distance != d);
        }
        lemma_absent(s.drop_last(), d);
    }
}

/// Counts entries by distance and by category.
pub fn build_impact_summary(entries: &Vec<ImpactEntry>) -> (out: ImpactSummary)
    ensures
        out.total_affected == entries@.len(),
        counts_distances(text::views(out.by_distance@), text::views(entries@)),
        text::views(out.by_category@) == category_rows(text::views(entries@)),
{
    broadcast use text::group_views;
    let ghost all = text::views(entries@);
    let mut by_distance: Vec<DistanceCount> = Vec::new();
    let mut source: usize = 0;
    let mut test: usize = 0;
    let mut config: usize = 0;
    let mut i: usize = 0;
    proof {
        assert(all.take(0) =~= Seq::empty());
        reveal(Seq::filter);
    }
    while i < entries.len()
        invariant
            i <= entries.len(),
            all == text::views(entries@),
            counts_distances(text::views(by_distance@), all.take(i as int)),
            source == of_category(all.take(i as int), FileCategory::Source),
            test == of_category(all.take(i as int), FileCategory::Test),
            config == of_category(all.take(i as int), FileCategory::Config),
        decreases entries.len() - i,
    {
        broadcast use text::group_views;
        let ghost e = entries@[i as int]@;
        proof {
            assert(all.take(i + 1) =~= all.take(i as int).push(e));
            lemma_count_push(all.take(i as int), e);
            lemma_count_bound(all.take(i as int), 0);
        }
        add_distance(&mut by_distance, entries[i].distance, Ghost(all.take(i as int)), Ghost(e));
        match entries[i].category {
            FileCategory::Source => {
                source += 1;
            },
            FileCategory::Test => {
                test += 1;
            },
            FileCategory::Config => {
                config += 1;
            },
        }
        i += 1;
    }
    assert(all.take(entries@.len() as int) =~= all);
    let mut by_category: Vec<CategoryCount> = Vec::new();
    if source > 0 {
        by_category.push(CategoryCount { category: FileCategory::Source, count: source });
    }
    if test > 0 {
        by_category.push(CategoryCount { category: FileCategory::Test, count: test });
    }
    if config > 0 {
        by_category.push(CategoryCount { category: FileCategory::Config, count: config });
    }
    proof {
        let p = |c: (FileCategory, usize)| c.1 > 0;
        let a = (FileCategory::Source, source);
        let b = (FileCategory::Test, test);
        let c = (FileCategory::Config, config);
        let rows = seq![a, b, c];
        reveal_with_fuel(Seq::filter, 4);
        assert(rows.drop_last() =~= seq![a, b]);
        assert(seq![a, b].drop_last() =~= seq![a]);
        assert(seq![a].drop_last() =~= Seq::empty());
        assert(text::views(by_category@) =~= rows.filter(p));
    }
    ImpactSummary { total_affected: entries.len(), by_distance, by_category }
}

// ---------------------------------------------------------------------------
// Siblings
// ---------------------------------------------------------------------------

/// A definition beside the target.
#[derive(Debug)]
pub struct SiblingSymbol {
    pub name: String,
    pub kind: String,
    pub line: u32,
}

impl View for SiblingSymbol {
    type V = (Seq<char>, Seq<char>, u32);

    open spec fn view(&self) -> (Seq<char>, Seq<char>, u32) {
        (self.name@, self.kind@, self.line)
    }
}

/// By line; equal lines keep their order.
impl Ranked for SiblingSymbol {
    open spec fn ahead(a: (Seq<char>, Seq<char>, u32), b: (Seq<char>, Seq<char>, u32)) -> bool {
        a.2 < b.2
    }

    fn is_ahead(&self, other: &SiblingSymbol) -> (r: bool) {
        self.line < other.line
    }

    proof fn ahead_is_asymmetric(a: (Seq<char>, Seq<char>, u32), b: (Seq<char>, Seq<char>, u32)) {
    }

    proof fn ahead_is_negatively_transitive(
        a: (Seq<char>, Seq<char>, u32),
        b: (Seq<char>, Seq<char>, u32),
        c: (Seq<char>, Seq<char>, u32),
    ) {
    }
}

/// The definition is the target itself.
pub open spec fn is_target(s: Symbol, target: Option<Seq<char>>) -> bool {
    match target {
        Some(n) => s.name@ == n || s.qualified_name@ == n,
        None => false,
    }
}

/// Definitions with one label count as one.
pub open spec fn sibling_label(s: Symbol) -> Seq<char> {
    s.kind@ + "::"@ + s.name@
}

/// The labels and the rows of the definitions beside the target, the first of
/// each label.
pub open spec fn siblings(symbols: Seq<Symbol>, target: Option<Seq<char>>) -> (
    Seq<Seq<char>>,
    Seq<(Seq<char>, Seq<char>, u32)>,
)
    decreases symbols.len(),
{
    if symbols.len() == 0 {
        (Seq::empty(), Seq::empty())
    } else {
        let (labels, rows) = siblings(symbols.drop_last(), target);
        let s = symbols.last();
        if is_target(s, target) || labels.contains(sibling_label(s)) {
            (labels, rows)
        } else {
            (labels.push(sibling_label(s)), rows.push((s.name@, s.kind@, s.line_start)))
        }
    }
}

proof fn lemma_siblings_grow(symbols: Seq<Symbol>, target: Option<Seq<char>>, n: int)
    requires
        0 <= n <= symbols.len(),
    ensures
        siblings(symbols.take(n), target).1.is_prefix_of(siblings(symbols, target).1),
    decreases symbols.len() - n,
{
    let a = siblings(symbols.take(n), target).1;
    if n < symbols.len() {
        lemma_siblings_grow(symbols, target, n + 1);
        assert(symbols.take(n + 1).drop_last() =~= symbols.take(n));
        let b = siblings(symbols.take(n + 1), target).1;
        let c = siblings(symbols, target).1;
        assert(a =~= b.subrange(0, a.len() as int));
        assert(a =~= c.subrange(0, a.len() as int));
    } else {
        assert(symbols.take(n) =~= symbols);
        assert(a =~= a.subrange(0, a.len() as int));
    }
}

/// The definitions in the target's files beside the target: the first of each
/// kind and name, at most sixty, by line.
pub fn collect_sibling_symbols(symbols: &Vec<Symbol>, target: Option<&str>) -> (out: Vec<
    SiblingSymbol,
>)
    ensures
        text::views(out@) == order::sorted::<SiblingSymbol>(
            impact::at_most(
                siblings(
                    symbols@,
                    match target {
                        Some(n) => Some(n@),
                        None => None,
                    },
                ).1,
                SIBLING_SYMBOL_CAP,
            ),
        ),
{
    broadcast use text::group_views;
    let ghost goal = match target {
        Some(n) => Some(n@),
        None => None,
    };
    let mut labels: Vec<String> = Vec::new();
    let mut out: Vec<SiblingSymbol> = Vec::new();
    let mut i: usize = 0;
    assert(symbols@.take(0) =~= Seq::empty());
    while i < symbols.len() && out.len() < SIBLING_SYMBOL_CAP
        invariant
            i <= symbols.len(),
            goal == (match target {
                Some(n) => Some(n@),
                None => None,
            }),
            out.len() <= SIBLING_SYMBOL_CAP,
            text::views(labels@) == siblings(symbols@.take(i as int), goal).0,
            text::views(out@) == siblings(symbols@.take(i as int), goal).1,
        decreases symbols.len() - i,
    {
        broadcast use text::group_views;
        let s = &symbols[i];
        assert(symbols@.take(i + 1).drop_last() =~= symbols@.take(i as int));
        assert(symbols@.take(i + 1).last() == s);
        let targeted = match target {
            Some(n) => same(s.name.as_str(), n) || same(s.qualified_name.as_str(), n),
            None => false,
        };
        if !targeted {
            let label = concat3(s.kind.as_str(), "::", s.name.as_str());
            if !among(&labels, label.as_str()) {
                labels.push(label);
                out.push(
                    SiblingSymbol { name: s.name.clone(), kind: s.kind.clone(), line: s.line_start },
                );
            }
        }
        i += 1;
    }
    proof {
        lemma_siblings_grow(symbols@, goal, i as int);
        let all = siblings(symbols@, goal).1;
        if i < symbols.len() {
            assert(impact::at_most(all, SIBLING_SYMBOL_CAP) =~= text::views(out@));
        } else {
            assert(symbols@.take(i as int) =~= symbols@);
        }
    }
    sort(out)
}

// ---------------------------------------------------------------------------
// The report
// ---------------------------------------------------------------------------

#[derive(Debug)]
pub struct ImpactReport {
    pub results: Vec<ImpactEntry>,
    pub forward_dependencies: Vec<String>,
    pub sibling_symbols: Vec<SiblingSymbol>,
    pub truncated: bool,
    pub summary: Option<ImpactSummary>,
    /// Counts come from resolved names and are lower bounds.
    pub counts_floor: bool,
}

/// The entry with its first reason alone.
pub open spec fn shortened(e: EntryView) -> EntryView {
    EntryView {
        reasons: if e.reasons.len() > 1 {
            e.reasons.take(1)
        } else {
            e.reasons
        },
        ..e
    }
}

/// The entries that an answer shows: the first `limit`, each with one reason
/// in a summary.
pub open spec fn shown(s: Seq<EntryView>, opts: ImpactOptions) -> Seq<EntryView> {
    let kept = match opts.limit {
        Some(limit) => impact::at_most(s, limit),
        None => s,
    };
    if opts.summary_only {
        kept.map_values(|e: EntryView| shortened(e))
    } else {
        kept
    }
}

/// The files that the target's files import, ascending, without the target's
/// files themselves.
pub open spec fn forward(imported: Seq<Seq<char>>, targets: Seq<Seq<char>>) -> Seq<Seq<char>> {
    order::ascending_set(imported).filter(|p: Seq<char>| !targets.contains(p))
}

/// The files of a symbol target: those its definitions stand in, ascending.
pub fn impact_target_files(symbols: &Vec<Symbol>) -> (out: Vec<String>)
    ensures
        text::views(out@) == order::ascending_set(impact::files_of(symbols@)),
{
    broadcast use text::group_views;
    let mut files: Vec<String> = Vec::new();
    let mut i: usize = 0;
    while i < symbols.len()
        invariant
            i <= symbols.len(),
            text::views(files@) == impact::files_of(symbols@).take(i as int),
        decreases symbols.len() - i,
    {
        broadcast use text::group_views;
        assert(impact::files_of(symbols@).take(i + 1) =~= impact::files_of(symbols@).take(
            i as int,
        ).push(symbols@[i as int].file_path@));
        files.push(symbols[i].file_path.clone());
        i += 1;
    }
    assert(impact::files_of(symbols@).take(symbols@.len() as int) =~= impact::files_of(symbols@));
    ascending_list(&files)
}

fn forward_dependencies(imported: &Vec<String>, targets: &Vec<String>) -> (out: Vec<String>)
    ensures
        text::views(out@) == forward(text::views(imported@), text::views(targets@)),
{
    broadcast use text::group_views;
    let all = ascending_list(imported);
    let ghost seen = text::views(all@);
    let ghost keep = |p: Seq<char>| !text::views(targets@).contains(p);
    let mut out: Vec<String> = Vec::new();
    let mut i: usize = 0;
    proof {
        assert(seen.take(0) =~= Seq::empty());
        reveal(Seq::filter);
    }
    while i < all.len()
        invariant
            i <= all.len(),
            seen == text::views(all@),
            keep == (|p: Seq<char>| !text::views(targets@).contains(p)),
            text::views(out@) == seen.take(i as int).filter(keep),
        decreases all.len() - i,
    {
        broadcast use text::group_views;
        proof {
            assert(seen.take(i + 1).drop_last() =~= seen.take(i as int));
            assert(seen.take(i + 1).last() == all@[i as int]@);
            reveal(Seq::filter);
        }
        if !among(targets, all[i].as_str()) {
            out.push(all[i].clone());
        }
        i += 1;
    }
    assert(seen.take(all@.len() as int) =~= seen);
    out
}

/// What a report shows of the affected files and of what lies around the target.
pub open spec fn reports_impact(
    out: ImpactReport,
    entries: Vec<ImpactEntry>,
    opts: ImpactOptions,
    target: Option<Seq<char>>,
    target_files: Vec<String>,
    imported: Vec<String>,
    beside: Vec<Symbol>,
) -> bool {
    &&& text::views(out.results@) == shown(text::views(entries@), opts)
    &&& out.truncated == (opts.limit matches Some(limit) && entries@.len() > limit)
    &&& out.summary is Some == opts.summary_only
    &&& out.summary matches Some(s) ==> {
        &&& s.total_affected == entries@.len()
        &&& counts_distances(text::views(s.by_distance@), text::views(entries@))
        &&& text::views(s.by_category@) == category_rows(text::views(entries@))
    }
    &&& text::views(out.forward_dependencies@) == (if opts.include_forward {
        forward(text::views(imported@), text::views(target_files@))
    } else {
        Seq::empty()
    })
    &&& text::views(out.sibling_symbols@) == (if opts.include_siblings {
        order::sorted::<SiblingSymbol>(
            impact::at_most(
                siblings(
                    beside@,
                    target,
                ).1,
                SIBLING_SYMBOL_CAP,
            ),
        )
    } else {
        Seq::empty()
    })
    &&& out.counts_floor
}

/// Puts an impact answer together. The summary counts every entry, before the
/// limit cuts the list. `imported` holds what the target's files import and
/// `beside` the definitions in them.
pub fn impact_analysis_report(
    entries: Vec<ImpactEntry>,
    opts: &ImpactOptions,
    target: Option<&str>,
    target_files: &Vec<String>,
    imported: &Vec<String>,
    beside: &Vec<Symbol>,
) -> (out: ImpactReport)
    ensures
        reports_impact(
            out,
            entries,
            *opts,
            match target {
                Some(n) => Some(n@),
                None => None,
            },
            *target_files,
            *imported,
            *beside,
        ),
{
    broadcast use text::group_views;
    let summary = if opts.summary_only {
        Some(build_impact_summary(&entries))
    } else {
        None
    };
    let mut results = entries;
    let ghost all = text::views(results@);
    let mut truncated = false;
    if let Some(limit) = opts.limit {
        if results.len() > limit {
            results.truncate(limit);
            truncated = true;
            assert(text::views(results@) =~= all.take(limit as int));
        }
    }
    let ghost kept = text::views(results@);
    if opts.summary_only {
        let ghost want = kept.map_values(|e: EntryView| shortened(e));
        let mut i: usize = 0;
        while i < results.len()
            invariant
                i <= results.len(),
                results@.len() == kept.len(),
                want == kept.map_values(|e: EntryView| shortened(e)),
                forall|j: int| 0 <= j < i ==> (#[trigger] results@[j])@ == want[j],
                forall|j: int| i <= j < results@.len() ==> (#[trigger] results@[j])@ == kept[j],
            decreases results.len() - i,
        {
            let ghost was = results@[i as int]@;
            let ghost list = results@;
            if results[i].reasons.len() > 1 {
                results[i].reasons.truncate(1);
                assert(text::views(results@[i as int].reasons@) =~= was.reasons.take(1));
            }
            assert(results@[i as int]@ == shortened(was));
            assert(forall|j: int| 0 <= j < results@.len() && j != i ==> results@[j] == list[j]);
            i += 1;
        }
        assert(text::views(results@) =~= want);
    }
    let forward_list = if opts.include_forward {
        forward_dependencies(imported, target_files)
    } else {
        Vec::new()
    };
    let sibling_symbols = if opts.include_siblings {
        collect_sibling_symbols(beside, target)
    } else {
        Vec::new()
    };
    ImpactReport {
        results,
        forward_dependencies: forward_list,
        sibling_symbols,
        truncated,
        summary,
        counts_floor: true,
    }
}

} // verus!
