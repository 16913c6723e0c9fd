//! Risk across the files of a patch: rollups, clusters, cycles and the legend
//! of repeated notes.
use vstd::prelude::*;
use vstd::string::*;
use crate::history::risk;
use crate::history::risk::{CycleEntry, RiskAssessment};
use crate::order;
use crate::order::{among, before, sort, Ranked};
use crate::text;
use crate::text::{concat2, concat3, concat4, concat5, decimal_of, same};

verus! {

// ---------------------------------------------------------------------------
// The files of a patch by what was found
// ---------------------------------------------------------------------------

/// A finding that a patch is rolled up by.
#[derive(Debug, Clone, Copy, PartialEq, Eq, Structural)]
pub enum Finding {
    TestGap,
    WideBlast,
    FixHeavy,
    Hotspot,
}

/// The file shows the finding.
pub open spec fn shows(f: RiskAssessment, finding: Finding) -> bool {
    match finding {
        Finding::TestGap => f.test_gap,
        Finding::WideBlast => f.dependent_files >= 10,
        Finding::FixHeavy => f.fix_heavy,
        Finding::Hotspot => f.hotspot,
    }
}

/// The names of files.
pub open spec fn names(files: Seq<RiskAssessment>) -> Seq<Seq<char>> {
    files.map_values(|f: RiskAssessment| f.file@)
}

/// The names of the files that show the finding, in order.
pub open spec fn found(files: Seq<RiskAssessment>, finding: Finding) -> Seq<Seq<char>> {
    names(files.filter(|f: RiskAssessment| shows(f, finding)))
}

/// The names of the files that show the finding.
pub fn files_with(files: &Vec<RiskAssessment>, finding: Finding) -> (out: Vec<String>)
    ensures
        text::views(out@) == found(files@, finding),
{
    broadcast use text::group_views;
    let ghost p = |f: RiskAssessment| shows(f, finding);
    let mut out: Vec<String> = Vec::new();
    let mut i: usize = 0;
    proof {
        assert(files@.take(0) =~= Seq::empty());
        reveal(Seq::filter);
        assert(names(Seq::empty()) =~= Seq::empty());
    }
    while i < files.len()
        invariant
            i <= files.len(),
            p == (|f: RiskAssessment| shows(f, finding)),
            text::views(out@) == names(files@.take(i as int).filter(p)),
        decreases files.len() - i,
    {
        broadcast use text::group_views;
        let f = &files[i];
        proof {
            let t = files@.take(i + 1);
            assert(t.drop_last() =~= files@.take(i as int));
            assert(t.last() == f);
            reveal(Seq::filter);
            let head = files@.take(i as int).filter(p);
            assert(names(head.push(*f)) =~= names(head).push(f.file@));
        }
        let hit = match finding {
            Finding::TestGap => f.test_gap,
            Finding::WideBlast => f.dependent_files >= 10,
            Finding::FixHeavy => f.fix_heavy,
            Finding::Hotspot => f.hotspot,
        };
        if hit {
            out.push(f.file.clone());
        }
        i += 1;
    }
    assert(files@.take(files@.len() as int) =~= files@);
    out
}

/// The file at `i` is the riskiest, and the last of the riskiest.
pub open spec fn is_riskiest(files: Seq<RiskAssessment>, i: int) -> bool {
    &&& 0 <= i < files.len()
    &&& forall|j: int|
        0 <= j < files.len() ==> (#[trigger] files[j]).rank < files[i].rank || (files[j].rank
            == files[i].rank && j <= i)
}

/// The riskiest file; none of no files.
pub fn riskiest(files: &Vec<RiskAssessment>) -> (r: Option<usize>)
    ensures
        match r {
            Some(i) => is_riskiest(files@, i as int),
            None => files@.len() == 0,
        },
{
    if files.len() == 0 {
        return None;
    }
    let mut best: usize = 0;
    let mut i: usize = 1;
    while i < files.len()
        invariant
            best < i <= files.len(),
            forall|j: int|
                0 <= j < i ==> (#[trigger] files@[j]).rank < files@[best as int].rank || (
                files@[j].rank == files@[best as int].rank && j <= best),
        decreases files.len() - i,
    {
        if files[i].rank >= files[best].rank {
            best = i;
        }
        i += 1;
    }
    Some(best)
}

// ---------------------------------------------------------------------------
// Import cycles
// ---------------------------------------------------------------------------

/// `a` stands before `b`, text by text.
pub open spec fn list_before(a: Seq<Seq<char>>, b: Seq<Seq<char>>) -> bool
    decreases a.len(),
{
    if b.len() == 0 {
        false
    } else if a.len() == 0 {
        true
    } else if a[0] == b[0] {
        list_before(a.skip(1), b.skip(1))
    } else {
        order::text_before(a[0], b[0])
    }
}

proof fn lemma_list_before(a: Seq<Seq<char>>, b: Seq<Seq<char>>)
    ensures
        list_before(a, b) ==> !list_before(b, a),
        a == b || list_before(a, b) || list_before(b, a),
    decreases a.len(),
{
    if a.len() > 0 && b.len() > 0 {
        if a[0] == b[0] {
            lemma_list_before(a.skip(1), b.skip(1));
            if a.skip(1) == b.skip(1) {
                assert(a =~= seq![a[0]] + a.skip(1));
                assert(b =~= seq![b[0]] + b.skip(1));
            }
        } else {
            order::lemma_text_before_total(a[0], b[0]);
            if order::text_before(a[0], b[0]) {
                String::ahead_is_asymmetric(a[0], b[0]);
            }
        }
    } else if a.len() == 0 && b.len() == 0 {
        assert(a =~= b);
    }
}

proof fn lemma_list_before_transitive(a: Seq<Seq<char>>, b: Seq<Seq<char>>, c: Seq<Seq<char>>)
    requires
        list_before(a, b),
        list_before(b, c),
    ensures
        list_before(a, c),
    decreases a.len(),
{
    if a.len() > 0 && b.len() > 0 && c.len() > 0 {
        if a[0] == b[0] && b[0] == c[0] {
            lemma_list_before_transitive(a.skip(1), b.skip(1), c.skip(1));
        } else if a[0] != b[0] && b[0] != c[0] {
            order::lemma_text_before_transitive(a[0], b[0], c[0]);
            order::lemma_text_before_irreflexive(a[0]);
        }
    }
}

/// Whether `a` stands before `b`, text by text.
pub fn list_is_before(a: &Vec<String>, b: &Vec<String>) -> (r: bool)
    ensures
        r == list_before(text::views(a@), text::views(b@)),
{
    broadcast use text::group_views;
    let ghost x = text::views(a@);
    let ghost y = text::views(b@);
    let mut i: usize = 0;
    assert(x.skip(0) =~= x);
    assert(y.skip(0) =~= y);
    while i < a.len() && i < b.len()
        invariant
            x == text::views(a@),
            y == text::views(b@),
            i <= a.len(),
            i <= b.len(),
            list_before(x, y) == list_before(x.skip(i as int), y.skip(i as int)),
        decreases a.len() - i,
    {
        broadcast use text::group_views;
        assert(x.skip(i as int).skip(1) =~= x.skip(i + 1));
        assert(y.skip(i as int).skip(1) =~= y.skip(i + 1));
        assert(x.skip(i as int)[0] == a@[i as int]@);
        assert(y.skip(i as int)[0] == b@[i as int]@);
        if !same(a[i].as_str(), b[i].as_str()) {
            return order::before(a[i].as_str(), b[i].as_str());
        }
        i += 1;
    }
    i < b.len()
}

#[verifier::ext_equal]
pub struct CycleView {
    pub members: Seq<Seq<char>>,
    pub size: u32,
    pub max_churn_file: Option<Seq<char>>,
}

impl View for CycleEntry {
    type V = CycleView;

    open spec fn view(&self) -> CycleView {
        CycleView {
            members: text::views(self.members@),
            size: self.size,
            max_churn_file: text::view_opt(self.max_churn_file),
        }
    }
}

/// Larger cycles first, then by their members.
impl Ranked for CycleEntry {
    open spec fn ahead(a: CycleView, b: CycleView) -> bool {
        a.size > b.size || (a.size == b.size && list_before(a.members, b.members))
    }

    fn is_ahead(&self, other: &CycleEntry) -> (r: bool) {
        if self.size != other.size {
            self.size > other.size
        } else {
            list_is_before(&self.members, &other.members)
        }
    }

    proof fn ahead_is_asymmetric(a: CycleView, b: CycleView) {
        lemma_list_before(a.members, b.members);
    }

    proof fn ahead_is_negatively_transitive(a: CycleView, b: CycleView, c: CycleView) {
        lemma_list_before(a.members, b.members);
        lemma_list_before(b.members, c.members);
        lemma_list_before(a.members, c.members);
        if list_before(b.members, a.members) && list_before(a.members, c.members) {
            lemma_list_before_transitive(b.members, a.members, c.members);
        }
        if list_before(a.members, c.members) && list_before(c.members, b.members) {
            lemma_list_before_transitive(a.members, c.members, b.members);
        }
    }
}

/// Files that import each other. `churn` orders each file by its churn; it is
/// `None` for a file without history.
#[derive(Debug)]
pub struct Component {
    pub files: Vec<String>,
    pub churn: Vec<Option<u64>>,
}

/// The file at `i` has the most churn, and is the first that has.
pub open spec fn is_most_churned(churn: Seq<Option<u64>>, i: int) -> bool {
    &&& 0 <= i < churn.len()
    &&& churn[i] is Some
    &&& forall|j: int|
        0 <= j < churn.len() && (#[trigger] churn[j]) is Some ==> churn[j]->0 < churn[i]->0 || (
        churn[j]->0 == churn[i]->0 && i <= j)
}

/// The member with the most churn: a candidate to refactor first.
pub open spec fn most_churned(c: Component) -> Option<Seq<char>> {
    if exists|i: int| is_most_churned(c.churn@, i) {
        Some(c.files@[choose|i: int| is_most_churned(c.churn@, i)]@)
    } else {
        None
    }
}

pub fn pick_max_churn(c: &Component) -> (out: Option<String>)
    requires
        c.files@.len() == c.churn@.len(),
    ensures
        text::view_opt(out) == most_churned(*c),
{
    let ghost churn = c.churn@;
    let mut best: Option<usize> = None;
    let mut i: usize = 0;
    while i < c.churn.len()
        invariant
            i <= c.churn.len(),
            churn == c.churn@,
            match best {
                Some(b) => b < i && churn[b as int] is Some && forall|j: int|
                    0 <= j < i && (#[trigger] churn[j]) is Some ==> churn[j]->0
                        < churn[b as int]->0 || (churn[j]->0 == churn[b as int]->0 && b <= j),
                None => forall|j: int| 0 <= j < i ==> (#[trigger] churn[j]) is None,
            },
        decreases c.churn.len() - i,
    {
        if let Some(x) = c.churn[i] {
            match best {
                Some(b) => {
                    if let Some(y) = c.churn[b] {
                        if x > y {
                            best = Some(i);
                        }
                    }
                },
                None => {
                    best = Some(i);
                },
            }
        }
        i += 1;
    }
    match best {
        Some(b) => {
            proof {
                assert(is_most_churned(churn, b as int));
                let k = choose|k: int| is_most_churned(churn, k);
                assert(is_most_churned(churn, k));
                assert(churn[k] is Some && churn[b as int] is Some);
            }
            Some(c.files[b].clone())
        },
        None => None,
    }
}

/// The file at `i` has the most churn, and no file that has as much comes
/// before it by name.
pub open spec fn leads_by_name(c: Component, i: int) -> bool {
    &&& 0 <= i < c.churn@.len()
    &&& c.churn@[i] is Some
    &&& forall|j: int|
        0 <= j < c.churn@.len() && (#[trigger] c.churn@[j]) is Some ==> c.churn@[j]->0 < c.churn@[i]->0 || (
        c.churn@[j]->0 == c.churn@[i]->0 && !order::text_before(c.files@[j]@, c.files@[i]@))
}

/// The member with the most churn, the first by name where several have it.
pub open spec fn most_churned_by_name(c: Component) -> Option<Seq<char>> {
    if exists|i: int| leads_by_name(c, i) {
        Some(c.files@[choose|i: int| leads_by_name(c, i)]@)
    } else {
        None
    }
}

fn pick_max_churn_by_name(c: &Component) -> (out: Option<String>)
    requires
        c.files@.len() == c.churn@.len(),
    ensures
        text::view_opt(out) == most_churned_by_name(*c),
{
    let ghost churn = c.churn@;
    let ghost files = c.files@;
    let mut best: Option<usize> = None;
    let mut i: usize = 0;
    while i < c.churn.len()
        invariant
            i <= c.churn.len(),
            c.files@.len() == c.churn@.len(),
            churn == c.churn@,
            files == c.files@,
            match best {
                Some(b) => b < i && churn[b as int] is Some && forall|j: int|
                    0 <= j < i && (#[trigger] churn[j]) is Some ==> churn[j]->0
                        < churn[b as int]->0 || (churn[j]->0 == churn[b as int]->0 && !order::text_before(
                        files[j]@,
                        files[b as int]@,
                    )),
                None => forall|j: int| 0 <= j < i ==> (#[trigger] churn[j]) is None,
            },
        decreases c.churn.len() - i,
    {
        if let Some(x) = c.churn[i] {
            match best {
                Some(b) => {
                    proof {
                        order::lemma_text_before_irreflexive(files[i as int]@);
                        assert forall|j: int|
                            0 <= j < i && !order::text_before(files[j]@, files[b as int]@)
                                && order::text_before(files[i as int]@, files[b as int]@) implies !(
                        #[trigger] order::text_before(files[j]@, files[i as int]@)) by {
                            if order::text_before(files[j]@, files[i as int]@) {
                                order::lemma_text_before_transitive(
                                    files[j]@,
                                    files[i as int]@,
                                    files[b as int]@,
                                );
                            }
                        }
                        if order::text_before(files[i as int]@, files[b as int]@) && order::text_before(
                            files[b as int]@,
                            files[i as int]@,
                        ) {
                            order::lemma_text_before_transitive(
                                files[i as int]@,
                                files[b as int]@,
                                files[i as int]@,
                            );
                        }
                    }
                    if let Some(y) = c.churn[b] {
                        if x > y || (x == y && before(c.files[i].as_str(), c.files[b].as_str())) {
                            best = Some(i);
                        }
                    }
                },
                None => {
                    proof {
                        order::lemma_text_before_irreflexive(files[i as int]@);
                    }
                    best = Some(i);
                },
            }
        }
        i += 1;
    }
    match best {
        Some(b) => {
            proof {
                assert(leads_by_name(*c, b as int));
                let k = choose|k: int| leads_by_name(*c, k);
                assert(leads_by_name(*c, k));
                assert(churn[k] is Some && churn[b as int] is Some);
                order::lemma_text_before_total(files[k]@, files[b as int]@);
            }
            Some(c.files[b].clone())
        },
        None => {
            assert(forall|k: int| !leads_by_name(*c, k));
            None
        },
    }
}

/// Some file is both in `a` and in `b`.
pub open spec fn meet(a: Seq<Seq<char>>, b: Seq<Seq<char>>) -> bool {
    exists|i: int| 0 <= i < a.len() && b.contains(#[trigger] a[i])
}

fn files_meet(a: &Vec<String>, b: &Vec<String>) -> (r: bool)
    ensures
        r == meet(text::views(a@), text::views(b@)),
{
    broadcast use text::group_views;
    let ghost x = text::views(a@);
    let mut i: usize = 0;
    while i < a.len()
        invariant
            i <= a.len(),
            x == text::views(a@),
            forall|j: int| 0 <= j < i ==> !text::views(b@).contains(#[trigger] x[j]),
        decreases a.len() - i,
    {
        broadcast use text::group_views;
        assert(x[i as int] == a@[i as int]@);
        if among(b, a[i].as_str()) {
            return true;
        }
        i += 1;
    }
    false
}

/// A component of two or more files is a cycle; it concerns a patch that
/// touches one of its files.
pub open spec fn concerns(c: Component, patch: Seq<Seq<char>>) -> bool {
    c.files@.len() >= 2 && meet(text::views(c.files@), patch)
}

/// The cycle that a component is.
pub open spec fn cycle_of(c: Component) -> CycleView {
    CycleView {
        members: order::sorted::<String>(text::views(c.files@)),
        size: c.files@.len() as u32,
        max_churn_file: most_churned(c),
    }
}

/// The cycles among components that concern a patch, in component order.
pub open spec fn cycles_of(components: Seq<Component>, patch: Seq<Seq<char>>) -> Seq<CycleView>
    decreases components.len(),
{
    if components.len() == 0 {
        Seq::empty()
    } else {
        let front = cycles_of(components.drop_last(), patch);
        if concerns(components.last(), patch) {
            front.push(cycle_of(components.last()))
        } else {
            front
        }
    }
}

/// The import cycles that a patch touches, larger ones first.
pub fn find_cycles_touching(components: &Vec<Component>, patch: &Vec<String>) -> (out: Vec<CycleEntry>)
    requires
        forall|i: int|
            0 <= i < components@.len() ==> (#[trigger] components@[i]).files@.len()
                == components@[i].churn@.len(),
    ensures
        text::views(out@) == order::sorted::<CycleEntry>(
            cycles_of(components@, text::views(patch@)),
        ),
{
    broadcast use text::group_views;
    let mut list: Vec<CycleEntry> = Vec::new();
    let mut i: usize = 0;
    assert(components@.take(0) =~= Seq::empty());
    while i < components.len()
        invariant
            i <= components.len(),
            forall|i: int|
                0 <= i < components@.len() ==> (#[trigger] components@[i]).files@.len()
                    == components@[i].churn@.len(),
            text::views(list@) == cycles_of(components@.take(i as int), text::views(patch@)),
        decreases components.len() - i,
    {
        broadcast use text::group_views;
        assert(components@.take(i + 1).drop_last() =~= components@.take(i as int));
        assert(components@.take(i + 1).last() == components@[i as int]);
        let c = &components[i];
        if c.files.len() >= 2 && files_meet(&c.files, patch) {
            let max_churn_file = pick_max_churn(c);
            let members = sort(text::copy_strings(&c.files));
            let size: u32 = c.files.len() as u32;
            list.push(CycleEntry { members, size, max_churn_file });
        }
        i += 1;
    }
    assert(components@.take(components@.len() as int) =~= components@);
    sort(list)
}

/// The import cycle that holds a file: the first component of two or more
/// files that does.
pub open spec fn first_concerning(components: Seq<Component>, patch: Seq<Seq<char>>, i: int) -> Option<
    int,
>
    decreases components.len() - i,
{
    if i < 0 || i >= components.len() {
        None
    } else if concerns(components[i], patch) {
        Some(i)
    } else {
        first_concerning(components, patch, i + 1)
    }
}

pub fn find_cycle_containing_file(components: &Vec<Component>, file_path: &str) -> (out: Option<
    CycleEntry,
>)
    requires
        forall|i: int|
            0 <= i < components@.len() ==> (#[trigger] components@[i]).files@.len()
                == components@[i].churn@.len(),
    ensures
        match (out, first_concerning(components@, seq![file_path@], 0)) {
            (Some(c), Some(i)) => c@ == (CycleView {
                max_churn_file: most_churned_by_name(components@[i]),
                ..cycle_of(components@[i])
            }),
            (None, None) => true,
            _ => false,
        },
{
    broadcast use text::group_views;
    let mut patch: Vec<String> = Vec::new();
    patch.push(file_path.to_owned());
    assert(text::views(patch@) =~= seq![file_path@]);
    let mut i: usize = 0;
    while i < components.len()
        invariant
            i <= components.len(),
            text::views(patch@) == seq![file_path@],
            forall|i: int|
                0 <= i < components@.len() ==> (#[trigger] components@[i]).files@.len()
                    == components@[i].churn@.len(),
            first_concerning(components@, seq![file_path@], 0) == first_concerning(
                components@,
                seq![file_path@],
                i as int,
            ),
        decreases components.len() - i,
    {
        let c = &components[i];
        if c.files.len() >= 2 && files_meet(&c.files, &patch) {
            let max_churn_file = pick_max_churn_by_name(c);
            let members = sort(text::copy_strings(&c.files));
            let size: u32 = c.files.len() as u32;
            return Some(CycleEntry { members, size, max_churn_file });
        }
        i += 1;
    }
    None
}

// ---------------------------------------------------------------------------
// The summary of a patch
// ---------------------------------------------------------------------------

/// The size of the largest cycle.
pub open spec fn largest(cycles: Seq<CycleView>) -> u32
    decreases cycles.len(),
{
    if cycles.len() == 0 {
        0
    } else {
        let m = largest(cycles.drop_last());
        if cycles.last().size > m {
            cycles.last().size
        } else {
            m
        }
    }
}

/// How many files have a test gap that rests on an incomplete check.
pub open spec fn partial_gaps(files: Seq<RiskAssessment>) -> nat {
    files.filter(|f: RiskAssessment| f.gap_check_partial).len()
}

/// The claim about test gaps: which checks were completed, and for how many.
pub open spec fn gap_summary(total: nat, partial: nat) -> Seq<char> {
    if partial == 0 {
        text::decimal(total)
            + " file(s) with no test found by sibling convention, co-change history, or within 2 dependency hops"@
    } else if partial == total {
        text::decimal(total)
            + " file(s) with no test found by sibling convention or co-change history; the 2-hop dependency check could not be completed for these files"@
    } else {
        text::decimal(total)
            + " file(s) with no test found by sibling convention or co-change history; the 2-hop dependency check ran clean for "@
            + text::decimal((total - partial) as nat) + " of them and could not be completed for "@
            + text::decimal(partial)
    }
}

/// What is said of the patch as a whole. `high_score` is the highest score in
/// digits where it is one half or more.
pub open spec fn summary(
    files: Seq<RiskAssessment>,
    cycles: Seq<CycleView>,
    cycles_failed: bool,
    high_score: Option<Seq<char>>,
) -> Seq<Seq<char>> {
    let hot = found(files, Finding::Hotspot).len();
    let fixy = found(files, Finding::FixHeavy).len();
    let gaps = found(files, Finding::TestGap).len();
    let wide = found(files, Finding::WideBlast).len();
    risk::maybe(hot > 0, "patch touches "@ + text::decimal(hot) + " hotspot file(s)"@)
        + risk::maybe(fixy > 0, text::decimal(fixy) + " file(s) historically fix-heavy"@)
        + risk::maybe(gaps > 0, gap_summary(gaps, partial_gaps(files))) + risk::maybe(
        wide > 0,
        text::decimal(wide) + " file(s) have wide blast radius (>=10 dependents)"@,
    ) + (match high_score {
        Some(s) => seq![
            "max risk score "@ + s + "; consider smaller patch and broader test sweep"@,
        ],
        None => Seq::empty(),
    }) + risk::maybe(
        cycles_failed,
        "import-cycle detection failed; cycle signals are omitted from this assessment, not proven absent"@,
    ) + risk::maybe(
        cycles.len() > 0,
        text::decimal(cycles.len()) + " import cycle(s) involve patch files (largest: "@
            + text::decimal(largest(cycles) as nat) + " files)"@,
    )
}

fn partial_gaps_of(files: &Vec<RiskAssessment>) -> (n: usize)
    ensures
        n == partial_gaps(files@),
{
    let ghost p = |f: RiskAssessment| f.gap_check_partial;
    let mut n: usize = 0;
    let mut i: usize = 0;
    proof {
        assert(files@.take(0) =~= Seq::empty());
        reveal(Seq::filter);
    }
    while i < files.len()
        invariant
            i <= files.len(),
            p == (|f: RiskAssessment| f.gap_check_partial),
            n == files@.take(i as int).filter(p).len(),
            n <= i,
        decreases files.len() - i,
    {
        proof {
            assert(files@.take(i + 1).drop_last() =~= files@.take(i as int));
            assert(files@.take(i + 1).last() == files@[i as int]);
            reveal(Seq::filter);
        }
        if files[i].gap_check_partial {
            n += 1;
        }
        i += 1;
    }
    assert(files@.take(files@.len() as int) =~= files@);
    n
}

/// Every partial check belongs to a file with a test gap, so there are no
/// more of them than gaps.
pub proof fn law_partial_gaps_are_gaps(files: Seq<RiskAssessment>)
    requires
        forall|i: int|
            0 <= i < files.len() && (#[trigger] files[i]).gap_check_partial ==> files[i].test_gap,
    ensures
        partial_gaps(files) <= found(files, Finding::TestGap).len(),
    decreases files.len(),
{
    reveal(Seq::filter);
    if files.len() > 0 {
        let front = files.drop_last();
        assert forall|i: int| 0 <= i < front.len() && (#[trigger] front[i]).gap_check_partial implies front[i].test_gap by {
            assert(files[i].gap_check_partial);
        }
        law_partial_gaps_are_gaps(front);
        assert(files[files.len() - 1].gap_check_partial ==> files[files.len() - 1].test_gap);
    }
}

fn gap_summary_of(total: usize, partial: usize) -> (out: String)
    requires
        partial <= total,
    ensures
        out@ == gap_summary(total as nat, partial as nat),
{
    let n = decimal_of(total as u64);
    if partial == 0 {
        concat2(
            n.as_str(),
            " file(s) with no test found by sibling convention, co-change history, or within 2 dependency hops",
        )
    } else if partial == total {
        concat2(
            n.as_str(),
            " file(s) with no test found by sibling convention or co-change history; the 2-hop dependency check could not be completed for these files",
        )
    } else {
        let clean = decimal_of((total - partial) as u64);
        let rest = decimal_of(partial as u64);
        concat5(
            n.as_str(),
            " file(s) with no test found by sibling convention or co-change history; the 2-hop dependency check ran clean for ",
            clean.as_str(),
            " of them and could not be completed for ",
            rest.as_str(),
        )
    }
}

fn largest_of(cycles: &Vec<CycleEntry>) -> (r: u32)
    ensures
        r == largest(text::views(cycles@)),
{
    broadcast use text::group_views;
    let ghost all = text::views(cycles@);
    let mut r: u32 = 0;
    let mut i: usize = 0;
    assert(all.take(0) =~= Seq::empty());
    while i < cycles.len()
        invariant
            i <= cycles.len(),
            all == text::views(cycles@),
            r == largest(all.take(i as int)),
        decreases cycles.len() - i,
    {
        broadcast use text::group_views;
        assert(all.take(i + 1).drop_last() =~= all.take(i as int));
        assert(all.take(i + 1).last() == cycles@[i as int]@);
        if cycles[i].size > r {
            r = cycles[i].size;
        }
        i += 1;
    }
    assert(all.take(all.len() as int) =~= all);
    r
}

fn push_outcome(
    out: &mut Vec<String>,
    cycles: &Vec<CycleEntry>,
    cycles_failed: bool,
    high_score: &Option<String>,
)
    ensures
        text::views(final(out)@) == text::views(old(out)@) + (match text::view_opt(*high_score) {
            Some(s) => seq![
                "max risk score "@ + s + "; consider smaller patch and broader test sweep"@,
            ],
            None => Seq::empty(),
        }) + risk::maybe(
            cycles_failed,
            "import-cycle detection failed; cycle signals are omitted from this assessment, not proven absent"@,
        ) + risk::maybe(
            cycles@.len() > 0,
            text::decimal(cycles@.len()) + " import cycle(s) involve patch files (largest: "@
                + text::decimal(largest(text::views(cycles@)) as nat) + " files)"@,
        ),
{
    broadcast use text::group_views;
    if let Some(s) = high_score {
        out.push(
            concat3(
                "max risk score ",
                s.as_str(),
                "; consider smaller patch and broader test sweep",
            ),
        );
    }
    if cycles_failed {
        out.push(
            String::from_str(
                "import-cycle detection failed; cycle signals are omitted from this assessment, not proven absent",
            ),
        );
    }
    if cycles.len() > 0 {
        let n = decimal_of(cycles.len() as u64);
        let m = decimal_of(largest_of(cycles) as u64);
        out.push(
            concat4(
                n.as_str(),
                " import cycle(s) involve patch files (largest: ",
                m.as_str(),
                " files)",
            ),
        );
    }
}

/// What is said of the patch as a whole.
pub fn summarize(
    files: &Vec<RiskAssessment>,
    cycles: &Vec<CycleEntry>,
    cycles_failed: bool,
    high_score: &Option<String>,
) -> (out: Vec<String>)
    requires
        forall|i: int|
            0 <= i < files@.len() && (#[trigger] files@[i]).gap_check_partial
                ==> files@[i].test_gap,
    ensures
        text::views(out@) == summary(
            files@,
            text::views(cycles@),
            cycles_failed,
            text::view_opt(*high_score),
        ),
{
    broadcast use text::group_views;
    let hot = files_with(files, Finding::Hotspot);
    let fixy = files_with(files, Finding::FixHeavy);
    let gaps = files_with(files, Finding::TestGap);
    let wide = files_with(files, Finding::WideBlast);
    let partial: usize = partial_gaps_of(files);
    proof {
        law_partial_gaps_are_gaps(files@);
        assert(gaps@.len() == text::views(gaps@).len());
    }
    assert(text::views(hot@).len() == hot@.len() && text::views(fixy@).len() == fixy@.len()
        && text::views(wide@).len() == wide@.len() && text::views(cycles@).len() == cycles@.len());
    let mut out: Vec<String> = Vec::new();
    if hot.len() > 0 {
        let n = decimal_of(hot.len() as u64);
        out.push(concat3("patch touches ", n.as_str(), " hotspot file(s)"));
    }
    let ghost s1 = risk::maybe(
        hot@.len() > 0,
        "patch touches "@ + text::decimal(hot@.len()) + " hotspot file(s)"@,
    );
    assert(text::views(out@) =~= s1);
    if fixy.len() > 0 {
        let n = decimal_of(fixy.len() as u64);
        out.push(concat2(n.as_str(), " file(s) historically fix-heavy"));
    }
    let ghost s2 = s1 + risk::maybe(
        fixy@.len() > 0,
        text::decimal(fixy@.len()) + " file(s) historically fix-heavy"@,
    );
    assert(text::views(out@) =~= s2);
    if gaps.len() > 0 {
        out.push(gap_summary_of(gaps.len(), partial));
    }
    let ghost s3 = s2 + risk::maybe(gaps@.len() > 0, gap_summary(gaps@.len(), partial as nat));
    assert(text::views(out@) =~= s3);
    if wide.len() > 0 {
        let n = decimal_of(wide.len() as u64);
        out.push(concat2(n.as_str(), " file(s) have wide blast radius (>=10 dependents)"));
    }
    let ghost s4 = s3 + risk::maybe(
        wide@.len() > 0,
        text::decimal(wide@.len()) + " file(s) have wide blast radius (>=10 dependents)"@,
    );
    assert(text::views(out@) =~= s4);
    push_outcome(&mut out, cycles, cycles_failed, high_score);
    assert(text::views(out@) =~= summary(
        files@,
        text::views(cycles@),
        cycles_failed,
        text::view_opt(*high_score),
    ));
    out
}

} // verus!
