//! The definitions of a file that weigh most in its risk.
//!
//! How hot a definition is comes as a float from the caller; here it is the
//! rank of that value, greater for hotter and equal for equal.
use vstd::prelude::*;
use vstd::string::*;
use crate::impact;
use crate::model::Symbol;
use crate::order;
use crate::order::{sort, Ranked};
use crate::text;
use crate::text::{concat2, concat3, concat4, decimal_of, same};

verus! {

/// How many definitions are named.
pub const TOP_SYMBOLS_CAP: usize = 5;

/// A hot definition and why it is one.
#[derive(Debug)]
pub struct TopSymbol {
    pub name: String,
    pub line: u32,
    pub kind: String,
    pub why: String,
}

/// A definition as it is ranked: its rank, its line, its name, its kind and
/// its reason.
pub type RankedView = (nat, u32, Seq<char>, Seq<char>, Seq<char>);

/// A definition with its rank.
#[derive(Debug)]
pub struct RankedSymbol {
    pub rank: u64,
    pub top: TopSymbol,
}

impl View for RankedSymbol {
    type V = RankedView;

    open spec fn view(&self) -> RankedView {
        (self.rank as nat, self.top.line, self.top.name@, self.top.kind@, self.top.why@)
    }
}

/// Hottest first, equals by line.
pub open spec fn hotter(a: RankedView, b: RankedView) -> bool {
    a.0 > b.0 || (a.0 == b.0 && a.1 < b.1)
}

impl Ranked for RankedSymbol {
    open spec fn ahead(a: RankedView, b: RankedView) -> bool {
        hotter(a, b)
    }

    fn is_ahead(&self, other: &RankedSymbol) -> (r: bool) {
        self.rank > other.rank || (self.rank == other.rank && self.top.line < other.top.line)
    }

    proof fn ahead_is_asymmetric(a: RankedView, b: RankedView) {
    }

    proof fn ahead_is_negatively_transitive(a: RankedView, b: RankedView, c: RankedView) {
    }
}

/// The lines of a definition.
pub open spec fn line_count(s: Symbol) -> int {
    if s.line_end < s.line_start {
        1
    } else if s.line_end - s.line_start == u32::MAX {
        u32::MAX as int
    } else {
        s.line_end - s.line_start + 1
    }
}

/// Another definition of the file has the name too.
pub open spec fn shares_name(symbols: Seq<Symbol>, i: int) -> bool {
    exists|j: int| 0 <= j < symbols.len() && j != i && (#[trigger] symbols[j]).name@ == symbols[i].name@
}

/// Why a definition is hot: its length, its references, and the cycle that its
/// file is in.
pub open spec fn why_hot(symbols: Seq<Symbol>, i: int, refs: u32, cycle: Option<u32>) -> Seq<char> {
    let clause = if shares_name(symbols, i) {
        text::decimal(refs as nat) + " refs (shared across same-named symbols in this file)"@
    } else {
        text::decimal(refs as nat) + " refs"@
    };
    let ring = match cycle {
        Some(n) => ", in "@ + text::decimal(n as nat) + "-file cycle"@,
        None => Seq::empty(),
    };
    "hot: "@ + text::decimal(line_count(symbols[i]) as nat) + " lines, "@ + clause + ring
}

/// One definition, ranked.
pub open spec fn ranked_at(
    symbols: Seq<Symbol>,
    refs: Seq<u32>,
    ranks: Seq<u64>,
    cycle: Option<u32>,
    i: int,
) -> RankedView {
    (
        ranks[i] as nat,
        symbols[i].line_start,
        symbols[i].name@,
        symbols[i].kind@,
        why_hot(symbols, i, refs[i], cycle),
    )
}

/// The definitions of a file, ranked, in their order there.
pub open spec fn ranked_all(
    symbols: Seq<Symbol>,
    refs: Seq<u32>,
    ranks: Seq<u64>,
    cycle: Option<u32>,
) -> Seq<RankedView> {
    Seq::new(symbols.len(), |i: int| ranked_at(symbols, refs, ranks, cycle, i))
}

/// No later definition is hotter than an earlier one, and those of one heat
/// keep their order: what a stable sort of `all` gives.
pub open spec fn by_heat(all: Seq<RankedView>) -> Seq<RankedView> {
    order::sorted::<RankedSymbol>(all)
}

/// The definitions by heat are those of the file, hottest first.
pub proof fn law_by_heat_only_reorders(all: Seq<RankedView>)
    ensures
        by_heat(all).to_multiset() == all.to_multiset(),
        forall|i: int, j: int|
            0 <= i < j < by_heat(all).len() ==> !hotter(
                #[trigger] by_heat(all)[j],
                #[trigger] by_heat(all)[i],
            ),
{
    order::lemma_sorted::<RankedSymbol>(all);
    assert forall|i: int, j: int| 0 <= i < j < by_heat(all).len() implies !hotter(
        #[trigger] by_heat(all)[j],
        #[trigger] by_heat(all)[i],
    ) by {
        assert(!<RankedSymbol as Ranked>::ahead(by_heat(all)[j], by_heat(all)[i]));
    }
}

fn is_shared(symbols: &Vec<Symbol>, at: usize) -> (r: bool)
    requires
        at < symbols.len(),
    ensures
        r == shares_name(symbols@, at as int),
{
    let mut j: usize = 0;
    while j < symbols.len()
        invariant
            j <= symbols.len(),
            at < symbols.len(),
            forall|k: int|
                0 <= k < j && k != at ==> (#[trigger] symbols@[k]).name@ != symbols@[at as int].name@,
        decreases symbols.len() - j,
    {
        if j != at && same(symbols[j].name.as_str(), symbols[at].name.as_str()) {
            return true;
        }
        j += 1;
    }
    false
}

fn reason(symbols: &Vec<Symbol>, at: usize, refs: u32, cycle: Option<u32>) -> (out: String)
    requires
        at < symbols.len(),
    ensures
        out@ == why_hot(symbols@, at as int, refs, cycle),
{
    let s = &symbols[at];
    let lines: u32 = if s.line_end < s.line_start {
        1
    } else if s.line_end - s.line_start == u32::MAX {
        u32::MAX
    } else {
        s.line_end - s.line_start + 1
    };
    let count = decimal_of(refs as u64);
    let clause = if is_shared(symbols, at) {
        concat2(count.as_str(), " refs (shared across same-named symbols in this file)")
    } else {
        concat2(count.as_str(), " refs")
    };
    let long = decimal_of(lines as u64);
    let base = concat4("hot: ", long.as_str(), " lines, ", clause.as_str());
    match cycle {
        Some(n) => {
            let size = decimal_of(n as u64);
            let ring = concat3(", in ", size.as_str(), "-file cycle");
            concat2(base.as_str(), ring.as_str())
        },
        None => {
            assert(base@ + Seq::<char>::empty() =~= base@);
            base
        },
    }
}

/// The view of what is named.
pub open spec fn shown(t: TopSymbol) -> (u32, Seq<char>, Seq<char>, Seq<char>) {
    (t.line, t.name@, t.kind@, t.why@)
}

/// The hottest definitions of a file: the references and the rank of each
/// definition are handed in beside it, and the number of files in the import
/// cycle that the file is in.
pub fn top_symbols(symbols: &Vec<Symbol>, refs: &Vec<u32>, ranks: &Vec<u64>, cycle: Option<u32>) -> (out:
    Vec<TopSymbol>)
    requires
        refs.len() == symbols.len(),
        ranks.len() == symbols.len(),
    ensures
        out@.map_values(|t: TopSymbol| shown(t)) == impact::at_most(
            by_heat(ranked_all(symbols@, refs@, ranks@, cycle)),
            TOP_SYMBOLS_CAP,
        ).map_values(|v: RankedView| (v.1, v.2, v.3, v.4)),
{
    broadcast use text::group_views;
    let ghost all = ranked_all(symbols@, refs@, ranks@, cycle);
    let mut rows: Vec<RankedSymbol> = Vec::new();
    let mut i: usize = 0;
    assert(text::views(rows@) =~= all.take(0));
    while i < symbols.len()
        invariant
            i <= symbols.len(),
            refs.len() == symbols.len(),
            ranks.len() == symbols.len(),
            all == ranked_all(symbols@, refs@, ranks@, cycle),
            text::views(rows@) == all.take(i as int),
        decreases symbols.len() - i,
    {
        broadcast use text::group_views;
        let top = TopSymbol {
            name: symbols[i].name.clone(),
            line: symbols[i].line_start,
            kind: symbols[i].kind.clone(),
            why: reason(symbols, i, refs[i], cycle),
        };
        let row = RankedSymbol { rank: ranks[i], top };
        assert(row@ == all[i as int]);
        assert(all.take(i + 1) =~= all.take(i as int).push(row@));
        rows.push(row);
        i += 1;
    }
    assert(all.take(symbols.len() as int) =~= all);
    let mut ordered = sort(rows);
    let ghost best = by_heat(all);
    assert(text::views(ordered@) == best);
    assert(text::views(ordered@).len() == ordered@.len());
    let ghost whole = ordered@;
    ordered.truncate(TOP_SYMBOLS_CAP);
    let ghost want = impact::at_most(best, TOP_SYMBOLS_CAP);
    assert(text::views(ordered@) =~= want) by {
        assert(forall|k: int| 0 <= k < ordered@.len() ==> #[trigger] ordered@[k]@ == best[k]);
    }
    let ghost f = |t: TopSymbol| shown(t);
    let ghost g = |v: RankedView| (v.1, v.2, v.3, v.4);
    let ghost rest = ordered@;
    let mut out: Vec<TopSymbol> = Vec::new();
    assert(out@.map_values(f) =~= want.take(0).map_values(g));
    for row in it: ordered
        invariant
            it.seq() == rest,
            text::views(rest) == want,
            f == (|t: TopSymbol| shown(t)),
            g == (|v: RankedView| (v.1, v.2, v.3, v.4)),
            out@.map_values(f) == want.take(it.index()).map_values(g),
    {
        assert(want[it.index()] == row@);
        assert(want.take(it.index() + 1) =~= want.take(it.index()).push(row@));
        assert(out@.push(row.top).map_values(f) =~= out@.map_values(f).push(f(row.top)));
        assert(want.take(it.index() + 1).map_values(g) =~= want.take(it.index()).map_values(g).push(
            g(row@),
        ));
        out.push(row.top);
    }
    assert(want.take(want.len() as int) =~= want);
    out
}

} // verus!
