//! How risky a patch is as a whole.
use vstd::prelude::*;
use crate::history::patch;
use crate::history::patch::RiskDiffAssessment;
use crate::history::risk;
use crate::history::risk::RiskAssessment;
use crate::history::risk_diff;
use crate::history::risk_diff::{Component, CycleView, Finding};
use crate::laws::sorting;
use crate::order;
use crate::text;

verus! {

/// A file of the patch shows a finding.
pub open spec fn some_file(files: Seq<RiskAssessment>, x: Seq<char>, p: spec_fn(RiskAssessment) -> bool) -> bool {
    exists|k: int| 0 <= k < files.len() && (#[trigger] files[k]).file@ == x && p(files[k])
}

proof fn lemma_found(files: Seq<RiskAssessment>, finding: Finding, x: Seq<char>)
    ensures
        risk_diff::found(files, finding).contains(x) <==> exists|k: int|
            0 <= k < files.len() && (#[trigger] files[k]).file@ == x && risk_diff::shows(files[k], finding),
    decreases files.len(),
{
    reveal(Seq::filter);
    if files.len() > 0 {
        let less = files.drop_last();
        lemma_found(less, finding, x);
        let front = risk_diff::found(less, finding);
        let all = risk_diff::found(files, finding);
        let f = files.last();
        assert(files[files.len() - 1] == f);
        assert(all =~= if risk_diff::shows(f, finding) {
            front.push(f.file@)
        } else {
            front
        });
        if front.contains(x) {
            let i = choose|i: int| 0 <= i < front.len() && front[i] == x;
            assert(all[i] == x);
            let k = choose|k: int|
                0 <= k < less.len() && (#[trigger] less[k]).file@ == x && risk_diff::shows(less[k], finding);
            assert(files[k] == less[k]);
        }
        if all.contains(x) && !front.contains(x) {
            let i = choose|i: int| 0 <= i < all.len() && all[i] == x;
            if i < front.len() {
                assert(front[i] == x);
            }
        }
        if exists|k: int|
            0 <= k < files.len() && (#[trigger] files[k]).file@ == x && risk_diff::shows(files[k], finding) {
            let k = choose|k: int|
                0 <= k < files.len() && (#[trigger] files[k]).file@ == x && risk_diff::shows(files[k], finding);
            if k < less.len() {
                assert(less[k] == files[k]);
            } else {
                assert(all[all.len() - 1] == x);
            }
        }
    }
}

/// The lists of a patch hold the files of their finding, and only these: those
/// without a test, those with ten dependents or more, those heavy in fixes, and
/// the hotspots.
pub proof fn law_a_patch_lists_the_files_of_each_finding(
    out: RiskDiffAssessment,
    files: Seq<RiskAssessment>,
    cycles: Seq<CycleView>,
    failed: bool,
    high: Option<Seq<char>>,
    x: Seq<char>,
)
    requires
        patch::rolls_up(out, files, cycles, failed, high),
    ensures
        text::views(out.test_gap_files@).contains(x) <==> some_file(files, x, |f: RiskAssessment| f.test_gap),
        text::views(out.wide_blast_files@).contains(x) <==> some_file(
            files,
            x,
            |f: RiskAssessment| f.dependent_files >= 10,
        ),
        text::views(out.fix_heavy_files@).contains(x) <==> some_file(files, x, |f: RiskAssessment| f.fix_heavy),
        text::views(out.hotspot_files@).contains(x) <==> some_file(files, x, |f: RiskAssessment| f.hotspot),
        text::views(out.cycles_touching_patch@) == cycles,
        !out.empty_input,
{
    lemma_found(files, Finding::TestGap, x);
    lemma_found(files, Finding::WideBlast, x);
    lemma_found(files, Finding::FixHeavy, x);
    lemma_found(files, Finding::Hotspot, x);
    assert forall|k: int| 0 <= k < files.len() implies #[trigger] files[k] == files[k] && (risk_diff::shows(
        files[k],
        Finding::WideBlast,
    ) <==> files[k].dependent_files >= 10) by {
    }
    lemma_same(files, x, Finding::TestGap, |f: RiskAssessment| f.test_gap);
    lemma_same(files, x, Finding::WideBlast, |f: RiskAssessment| f.dependent_files >= 10);
    lemma_same(files, x, Finding::FixHeavy, |f: RiskAssessment| f.fix_heavy);
    lemma_same(files, x, Finding::Hotspot, |f: RiskAssessment| f.hotspot);
}

proof fn lemma_same(files: Seq<RiskAssessment>, x: Seq<char>, finding: Finding, p: spec_fn(RiskAssessment) -> bool)
    requires
        forall|f: RiskAssessment| #[trigger] risk_diff::shows(f, finding) <==> p(f),
    ensures
        some_file(files, x, p) <==> exists|k: int|
            0 <= k < files.len() && (#[trigger] files[k]).file@ == x && risk_diff::shows(files[k], finding),
{
    if some_file(files, x, p) {
        let k = choose|k: int| 0 <= k < files.len() && (#[trigger] files[k]).file@ == x && p(files[k]);
        assert(risk_diff::shows(files[k], finding));
    }
    if exists|k: int| 0 <= k < files.len() && (#[trigger] files[k]).file@ == x && risk_diff::shows(files[k], finding) {
        let k = choose|k: int|
            0 <= k < files.len() && (#[trigger] files[k]).file@ == x && risk_diff::shows(files[k], finding);
        assert(p(files[k]));
    }
}

/// The riskiest file has the highest rank of all.
pub proof fn law_the_riskiest_file_has_the_highest_rank(
    out: RiskDiffAssessment,
    files: Seq<RiskAssessment>,
    cycles: Seq<CycleView>,
    failed: bool,
    high: Option<Seq<char>>,
)
    requires
        patch::rolls_up(out, files, cycles, failed, high),
    ensures
        exists|i: int| {
            &&& 0 <= i < files.len()
            &&& out.max_risk_file matches Some(n) && n@ == (#[trigger] files[i]).file@
            &&& forall|j: int|
                0 <= j < files.len() ==> (#[trigger] files[j]).rank < files[i].rank || (files[j].rank == files[i].rank
                    && j <= i)
        },
{
    let i = choose|i: int| #[trigger]
        risk_diff::is_riskiest(files, i) && text::view_opt(out.max_risk_file) == Some(files[i].file@);
    assert(files[i].file@ == files[i].file@);
}

/// A directory of five files or more is condensed: its three riskiest files are
/// shown and the others named. A smaller one is shown whole.
pub proof fn law_a_crowded_directory_is_condensed(files: Seq<RiskAssessment>, dirs: Seq<Seq<char>>, dir: Seq<char>)
    ensures
        ({
            let here = patch::in_dir(files, dir);
            let flat = patch::kept(files, dirs, patch::DIR_CLUSTER_THRESHOLD);
            let more = patch::kept(files, dirs.push(dir), patch::DIR_CLUSTER_THRESHOLD);
            let condensed = patch::clusters(files, dirs, patch::DIR_CLUSTER_THRESHOLD);
            let further = patch::clusters(files, dirs.push(dir), patch::DIR_CLUSTER_THRESHOLD);
            &&& here.len() < 5 ==> more == flat + here && further == condensed
            &&& here.len() >= 5 ==> more == flat && further == condensed.push(patch::cluster(files, dir))
        }),
{
    assert(dirs.push(dir).drop_last() =~= dirs);
}

/// A condensed directory shows its three riskiest files and names the rest; none
/// that is named is riskier than one that is shown.
pub proof fn law_a_condensed_directory_shows_its_riskiest_files(files: Seq<RiskAssessment>, dir: Seq<char>)
    requires
        patch::in_dir(files, dir).len() <= u32::MAX,
    ensures
        ({
            let c = patch::cluster(files, dir);
            let n = patch::in_dir(files, dir).len();
            &&& c.directory == dir
            &&& c.count == n
            &&& n >= 3 ==> c.top_files.len() == 3
            &&& n < 3 ==> c.top_files.len() == n
            &&& c.top_files.len() + c.omitted_files.len() == n
            &&& forall|i: int, j: int|
                0 <= i < j < c.top_files.len() ==> (#[trigger] c.top_files[i]).rank >= (#[trigger] c.top_files[j]).rank
            &&& forall|i: int| 0 <= i < c.top_files.len() ==> patch::in_dir(files, dir).contains(#[trigger] c.top_files[i])
            &&& forall|i: int, k: int|
                0 <= i < c.top_files.len() && 0 <= k < n && !c.top_files.contains(
                    #[trigger] patch::in_dir(files, dir)[k],
                ) ==> (#[trigger] c.top_files[i]).rank >= patch::in_dir(files, dir)[k].rank
        }),
{
    let here = patch::in_dir(files, dir);
    let ranked = order::sorted::<RiskAssessment>(here);
    let c = patch::cluster(files, dir);
    sorting::law_sorting_keeps_what_is_listed::<RiskAssessment>(here);
    assert forall|i: int, j: int| 0 <= i < j < c.top_files.len() implies (#[trigger] c.top_files[i]).rank >= (
    #[trigger] c.top_files[j]).rank by {
        crate::laws::rankings::law_assessments_come_riskiest_first(here, i, j);
    }
    assert forall|i: int| 0 <= i < c.top_files.len() implies here.contains(#[trigger] c.top_files[i]) by {
        assert(ranked[i] == c.top_files[i]);
        assert(ranked.contains(ranked[i]));
    }
    assert forall|i: int, k: int|
        0 <= i < c.top_files.len() && 0 <= k < here.len() && !c.top_files.contains(#[trigger] here[k]) implies (
    #[trigger] c.top_files[i]).rank >= here[k].rank by {
        assert(here.contains(here[k]));
        assert(ranked.contains(here[k]));
        let m = choose|m: int| 0 <= m < ranked.len() && ranked[m] == here[k];
        if m < c.top_files.len() {
            assert(c.top_files[m] == here[k]);
        }
        crate::laws::rankings::law_assessments_come_riskiest_first(here, i, m);
    }
}

/// A file lies in the directory that its path names.
pub proof fn law_a_file_is_clustered_in_its_directory(files: Seq<RiskAssessment>, f: RiskAssessment, dir: Seq<char>)
    ensures
        crate::paths::parent(f.file@) == Some(dir) ==> patch::in_dir(files.push(f), dir) == patch::in_dir(
            files,
            dir,
        ).push(f),
        (crate::paths::parent(f.file@) matches Some(d) && d != dir) ==> patch::in_dir(files.push(f), dir)
            == patch::in_dir(files, dir),
{
    reveal(Seq::filter);
    assert(files.push(f).drop_last() =~= files);
}

/// A note gets a code where at least three files carry it and it is one of the
/// five that have codes.
pub proof fn law_a_note_of_three_files_gets_its_code(lists: Seq<Seq<Seq<char>>>, e: (Seq<char>, Seq<char>))
    ensures
        patch::legend(lists).contains(e) <==> patch::holders(lists, e.1) >= 3 && (e == (
            "CF"@,
            risk::CYCLE_SIGNAL_FAILED_NOTE@,
        ) || e == ("NG"@, risk::NO_HISTORY_NOTE@) || e == ("NS"@, risk::NO_STRUCTURAL_SIGNALS_NOTE@) || e == (
            "T"@,
            risk::TEST_GAP_NOTE@,
        ) || e == ("TU"@, risk::TEST_GAP_UNMEASURED_NOTE@)),
{
    let all = patch::aliasable();
    let p = |e: (Seq<char>, Seq<char>)| patch::holders(lists, e.1) >= patch::ALIAS_FLOOR;
    let kept = all.filter(p);
    assert(patch::legend(lists) == kept);
    assert(all.len() == 5);
    if kept.contains(e) {
        let i = choose|i: int| 0 <= i < kept.len() && kept[i] == e;
        all.lemma_filter_pred(p, i);
        all.lemma_filter_contains_rev(p, e);
        let k = choose|k: int| 0 <= k < all.len() && all[k] == e;
        assert(k == 0 || k == 1 || k == 2 || k == 3 || k == 4);
    }
    if all.contains(e) && p(e) {
        let k = choose|k: int| 0 <= k < all.len() && all[k] == e;
        all.lemma_filter_contains(p, k);
    }
    assert(all[0] == ("CF"@, risk::CYCLE_SIGNAL_FAILED_NOTE@));
    assert(all[1] == ("NG"@, risk::NO_HISTORY_NOTE@));
    assert(all[2] == ("NS"@, risk::NO_STRUCTURAL_SIGNALS_NOTE@));
    assert(all[3] == ("T"@, risk::TEST_GAP_NOTE@));
    assert(all[4] == ("TU"@, risk::TEST_GAP_UNMEASURED_NOTE@));
}

/// A file carries a note once, however often.
pub proof fn law_each_file_counts_once_for_a_note(lists: Seq<Seq<Seq<char>>>, l: Seq<Seq<char>>, note: Seq<char>)
    ensures
        patch::holders(Seq::empty(), note) == 0,
        l.contains(note) ==> patch::holders(lists.push(l), note) == patch::holders(lists, note) + 1,
        !l.contains(note) ==> patch::holders(lists.push(l), note) == patch::holders(lists, note),
{
    reveal(Seq::filter);
    assert(lists.push(l).drop_last() =~= lists);
}

// ---------------------------------------------------------------------------
// Cycles
// ---------------------------------------------------------------------------

/// A component of two files or more is a cycle of the patch where it shares a
/// file with it; its size and its members are told.
pub proof fn law_cycles_of_a_patch_share_a_file_with_it(components: Seq<Component>, c: Component, files: Seq<Seq<char>>)
    requires
        c.files@.len() <= u32::MAX,
    ensures
        ({
            let a = risk_diff::cycles_of(components, files);
            let b = risk_diff::cycles_of(components.push(c), files);
            let shared = exists|i: int| 0 <= i < c.files@.len() && files.contains((#[trigger] c.files@[i])@);
            &&& c.files@.len() >= 2 && shared ==> b.len() == a.len() + 1 && b.drop_last() == a && b.last().size
                == c.files@.len() && b.last().members.to_multiset() == text::views(c.files@).to_multiset()
            &&& c.files@.len() < 2 || !shared ==> b == a
        }),
{
    broadcast use text::group_views;

    assert(components.push(c).drop_last() =~= components);
    let names = text::views(c.files@);
    order::lemma_sorted::<String>(names);
    let a = risk_diff::cycles_of(components, files);
    assert(a.push(risk_diff::cycle_of(c)).drop_last() =~= a);
    if exists|i: int| 0 <= i < c.files@.len() && files.contains((#[trigger] c.files@[i])@) {
        let i = choose|i: int| 0 <= i < c.files@.len() && files.contains((#[trigger] c.files@[i])@);
        assert(names[i] == c.files@[i]@);
        assert(risk_diff::meet(names, files));
    }
    if risk_diff::meet(names, files) {
        let i = choose|i: int| 0 <= i < names.len() && files.contains(#[trigger] names[i]);
        assert(c.files@[i]@ == names[i]);
    }
}

/// The largest cycle is no smaller than any other, and one of them.
pub proof fn law_the_largest_cycle_is_one_of_them(cycles: Seq<CycleView>)
    ensures
        forall|k: int| 0 <= k < cycles.len() ==> (#[trigger] cycles[k]).size <= risk_diff::largest(cycles),
        cycles.len() == 0 ==> risk_diff::largest(cycles) == 0,
        risk_diff::largest(cycles) > 0 ==> exists|k: int|
            0 <= k < cycles.len() && (#[trigger] cycles[k]).size == risk_diff::largest(cycles),
    decreases cycles.len(),
{
    if cycles.len() > 0 {
        let less = cycles.drop_last();
        law_the_largest_cycle_is_one_of_them(less);
        assert(cycles[cycles.len() - 1] == cycles.last());
        assert forall|k: int| 0 <= k < cycles.len() implies (#[trigger] cycles[k]).size <= risk_diff::largest(cycles) by {
            if k < less.len() {
                assert(less[k] == cycles[k]);
            }
        }
        if risk_diff::largest(cycles) > 0 && risk_diff::largest(cycles) == risk_diff::largest(less) {
            let k = choose|k: int| 0 <= k < less.len() && (#[trigger] less[k]).size == risk_diff::largest(less);
            assert(cycles[k] == less[k]);
        }
    }
}

/// A patch without a finding has nothing to sum up.
pub proof fn law_a_patch_without_findings_has_no_summary(files: Seq<RiskAssessment>)
    requires
        forall|k: int|
            0 <= k < files.len() ==> !(#[trigger] files[k]).test_gap && files[k].dependent_files < 10
                && !files[k].fix_heavy && !files[k].hotspot,
    ensures
        risk_diff::summary(files, Seq::empty(), false, None) == Seq::<Seq<char>>::empty(),
{
    lemma_nothing_found(files, Finding::TestGap);
    lemma_nothing_found(files, Finding::WideBlast);
    lemma_nothing_found(files, Finding::FixHeavy);
    lemma_nothing_found(files, Finding::Hotspot);
    assert(risk_diff::summary(files, Seq::empty(), false, None) =~= Seq::<Seq<char>>::empty());
}

proof fn lemma_nothing_found(files: Seq<RiskAssessment>, finding: Finding)
    requires
        forall|k: int|
            0 <= k < files.len() ==> !(#[trigger] files[k]).test_gap && files[k].dependent_files < 10
                && !files[k].fix_heavy && !files[k].hotspot,
    ensures
        risk_diff::found(files, finding).len() == 0,
{
    let all = risk_diff::found(files, finding);
    if all.len() > 0 {
        lemma_found(files, finding, all[0]);
        assert(all.contains(all[0]));
        let k = choose|k: int|
            0 <= k < files.len() && (#[trigger] files[k]).file@ == all[0] && risk_diff::shows(files[k], finding);
        assert(!risk_diff::shows(files[k], finding));
    }
}

/// A summary counts the files of a finding, once each.
pub proof fn law_a_summary_counts_the_files_of_a_finding(files: Seq<RiskAssessment>, f: RiskAssessment)
    ensures
        risk_diff::found(files.push(f), Finding::TestGap).len() == risk_diff::found(files, Finding::TestGap).len() + (
        if f.test_gap {
            1nat
        } else {
            0
        }),
        risk_diff::found(files.push(f), Finding::WideBlast).len() == risk_diff::found(files, Finding::WideBlast).len()
            + (if f.dependent_files >= 10 {
            1nat
        } else {
            0
        }),
        risk_diff::found(files.push(f), Finding::FixHeavy).len() == risk_diff::found(files, Finding::FixHeavy).len() + (
        if f.fix_heavy {
            1nat
        } else {
            0
        }),
        risk_diff::found(files.push(f), Finding::Hotspot).len() == risk_diff::found(files, Finding::Hotspot).len() + (
        if f.hotspot {
            1nat
        } else {
            0
        }),
        risk_diff::partial_gaps(files.push(f)) == risk_diff::partial_gaps(files) + (if f.gap_check_partial {
            1nat
        } else {
            0
        }),
{
    reveal(Seq::filter);
    assert(files.push(f).drop_last() =~= files);
}

/// The note on test gaps says what was checked: all of it, nothing of it, or for
/// how many files each.
pub proof fn law_the_gap_note_says_what_was_checked(total: nat, partial: nat)
    requires
        partial <= total,
    ensures
        partial == 0 ==> risk_diff::gap_summary(total, partial) == text::decimal(total)
            + " file(s) with no test found by sibling convention, co-change history, or within 2 dependency hops"@,
        0 < partial == total ==> risk_diff::gap_summary(total, partial) == text::decimal(total)
            + " file(s) with no test found by sibling convention or co-change history; the 2-hop dependency check could not be completed for these files"@,
        0 < partial < total ==> risk_diff::gap_summary(total, partial) == text::decimal(total)
            + " file(s) with no test found by sibling convention or co-change history; the 2-hop dependency check ran clean for "@
            + text::decimal((total - partial) as nat) + " of them and could not be completed for "@ + text::decimal(
            partial,
        ),
{
}

} // verus!
