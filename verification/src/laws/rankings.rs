//! In which order lists come.
use vstd::prelude::*;
use crate::drift_scan::{Candidate, CandidateView};
use crate::history::inline_tests::{TestModule, TestModuleView};
use crate::history::recommend::{CoupledTestEntry, CoupledView, ReachableTestEntry, ReachableView};
use crate::history::risk::{CycleEntry, Hub, RiskAssessment};
use crate::history::risk_diff::CycleView;
use crate::history::top_symbols::{RankedSymbol, RankedView};
use crate::impact::{EntryView, ImpactEntry};
use crate::impact_report::SiblingSymbol;
use crate::order;
use crate::order::Ranked;

verus! {

/// Affected files come by distance, then by the number of reasons, then by path.
pub proof fn law_affected_files_come_nearest_first(s: Seq<EntryView>, i: int, j: int)
    requires
        0 <= i < j < s.len(),
    ensures
        ({
            let a = order::sorted::<ImpactEntry>(s)[i];
            let b = order::sorted::<ImpactEntry>(s)[j];
            &&& a.distance <= b.distance
            &&& a.distance == b.distance ==> a.reasons.len() >= b.reasons.len()
            &&& a.distance == b.distance && a.reasons.len() == b.reasons.len() ==> !order::text_before(b.path, a.path)
        }),
{
    order::lemma_sorted::<ImpactEntry>(s);
    let r = order::sorted::<ImpactEntry>(s);
    assert(!ImpactEntry::ahead(r[j], r[i]));
}

/// Reachable tests come by distance, then by the number of edges, then by path.
pub proof fn law_reachable_tests_come_nearest_first(s: Seq<ReachableView>, i: int, j: int)
    requires
        0 <= i < j < s.len(),
    ensures
        ({
            let a = order::sorted::<ReachableTestEntry>(s)[i];
            let b = order::sorted::<ReachableTestEntry>(s)[j];
            &&& a.distance <= b.distance
            &&& a.distance == b.distance ==> a.edge_count >= b.edge_count
            &&& a.distance == b.distance && a.edge_count == b.edge_count ==> !order::text_before(b.path, a.path)
        }),
{
    order::lemma_sorted::<ReachableTestEntry>(s);
    let r = order::sorted::<ReachableTestEntry>(s);
    assert(!ReachableTestEntry::ahead(r[j], r[i]));
}

/// Coupled tests come with the strongest pair first.
pub proof fn law_coupled_tests_come_strongest_first(s: Seq<CoupledView>, i: int, j: int)
    requires
        0 <= i < j < s.len(),
    ensures
        order::sorted::<CoupledTestEntry>(s)[i].rank >= order::sorted::<CoupledTestEntry>(s)[j].rank,
{
    order::lemma_sorted::<CoupledTestEntry>(s);
    let r = order::sorted::<CoupledTestEntry>(s);
    assert(!CoupledTestEntry::ahead(r[j], r[i]));
}

/// Assessments come with the riskiest first.
pub proof fn law_assessments_come_riskiest_first(s: Seq<RiskAssessment>, i: int, j: int)
    requires
        0 <= i < j < s.len(),
    ensures
        order::sorted::<RiskAssessment>(s)[i].rank >= order::sorted::<RiskAssessment>(s)[j].rank,
{
    order::lemma_sorted::<RiskAssessment>(s);
    let r = order::sorted::<RiskAssessment>(s);
    assert(!RiskAssessment::ahead(r[j], r[i]));
}

/// Symbols come with the hottest first, and among equals by line.
pub proof fn law_symbols_come_hottest_first(s: Seq<RankedView>, i: int, j: int)
    requires
        0 <= i < j < s.len(),
    ensures
        ({
            let a = order::sorted::<RankedSymbol>(s)[i];
            let b = order::sorted::<RankedSymbol>(s)[j];
            &&& a.0 >= b.0
            &&& a.0 == b.0 ==> a.1 <= b.1
        }),
{
    order::lemma_sorted::<RankedSymbol>(s);
    let r = order::sorted::<RankedSymbol>(s);
    assert(!RankedSymbol::ahead(r[j], r[i]));
}

/// Hubs come with the most-imported file first.
pub proof fn law_hubs_come_most_imported_first(s: Seq<(Seq<char>, nat)>, i: int, j: int)
    requires
        0 <= i < j < s.len(),
    ensures
        order::sorted::<Hub>(s)[i].1 >= order::sorted::<Hub>(s)[j].1,
{
    order::lemma_sorted::<Hub>(s);
    let r = order::sorted::<Hub>(s);
    assert(!Hub::ahead(r[j], r[i]));
}

/// Cycles come with the largest first.
pub proof fn law_cycles_come_largest_first(s: Seq<CycleView>, i: int, j: int)
    requires
        0 <= i < j < s.len(),
    ensures
        order::sorted::<CycleEntry>(s)[i].size >= order::sorted::<CycleEntry>(s)[j].size,
{
    order::lemma_sorted::<CycleEntry>(s);
    let r = order::sorted::<CycleEntry>(s);
    assert(!CycleEntry::ahead(r[j], r[i]));
}

/// The symbols of a file come by line.
pub proof fn law_sibling_symbols_come_by_line(s: Seq<(Seq<char>, Seq<char>, u32)>, i: int, j: int)
    requires
        0 <= i < j < s.len(),
    ensures
        order::sorted::<SiblingSymbol>(s)[i].2 <= order::sorted::<SiblingSymbol>(s)[j].2,
{
    order::lemma_sorted::<SiblingSymbol>(s);
    let r = order::sorted::<SiblingSymbol>(s);
    assert(!SiblingSymbol::ahead(r[j], r[i]));
}

/// Test modules come by their start, an outer one before those inside it.
pub proof fn law_test_modules_come_outermost_first(s: Seq<TestModuleView>, i: int, j: int)
    requires
        0 <= i < j < s.len(),
    ensures
        ({
            let a = order::sorted::<TestModule>(s)[i];
            let b = order::sorted::<TestModule>(s)[j];
            &&& a.start <= b.start
            &&& a.start == b.start ==> a.end >= b.end
        }),
{
    order::lemma_sorted::<TestModule>(s);
    let r = order::sorted::<TestModule>(s);
    assert(!TestModule::ahead(r[j], r[i]));
}

/// Candidates come by path, and for one path the one without a hash first.
pub proof fn law_candidates_come_by_path(s: Seq<CandidateView>, i: int, j: int)
    requires
        0 <= i < j < s.len(),
    ensures
        ({
            let a = order::sorted::<Candidate>(s)[i];
            let b = order::sorted::<Candidate>(s)[j];
            &&& !order::text_before(b.path, a.path)
            &&& a.path == b.path && b.hash is None ==> a.hash is None
        }),
{
    order::lemma_sorted::<Candidate>(s);
    let r = order::sorted::<Candidate>(s);
    assert(!Candidate::ahead(r[j], r[i]));
}

} // verus!
