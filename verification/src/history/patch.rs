//! The answer about a patch: its files, condensed where a directory holds
//! many, with repeated notes moved to a legend.
use vstd::multiset::Multiset;
use vstd::prelude::*;
use vstd::string::*;
use crate::history::risk;
use crate::history::risk::{
    CycleEntry, RiskAssessment, CYCLE_SIGNAL_FAILED_NOTE, NO_HISTORY_NOTE, NO_STRUCTURAL_SIGNALS_NOTE,
    TEST_GAP_NOTE, TEST_GAP_UNMEASURED_NOTE,
};
use crate::history::risk_diff;
use crate::history::risk_diff::{files_with, riskiest, summarize, Finding};
use crate::impact;
use crate::order;
use crate::order::{before, sort, Ranked};
use crate::paths;
use crate::paths::parent_of;
use crate::text;
use crate::text::same;

verus! {

// ---------------------------------------------------------------------------
// Clusters
// ---------------------------------------------------------------------------

/// A directory with at least this many files of a patch is condensed.
pub const DIR_CLUSTER_THRESHOLD: usize = 5;

/// How many files of a condensed directory keep their detail.
pub const CLUSTER_TOP: usize = 3;

impl View for RiskAssessment {
    type V = RiskAssessment;

    open spec fn view(&self) -> RiskAssessment {
        *self
    }
}

/// Riskier files first.
impl Ranked for RiskAssessment {
    open spec fn ahead(a: RiskAssessment, b: RiskAssessment) -> bool {
        a.rank > b.rank
    }

    fn is_ahead(&self, other: &RiskAssessment) -> (r: bool) {
        self.rank > other.rank
    }

    proof fn ahead_is_asymmetric(a: RiskAssessment, b: RiskAssessment) {
    }

    proof fn ahead_is_negatively_transitive(a: RiskAssessment, b: RiskAssessment, c: RiskAssessment) {
    }
}

/// A directory whose files are condensed.
#[derive(Debug)]
pub struct ClusteredDirectory {
    pub directory: String,
    pub count: u32,
    pub top_files: Vec<RiskAssessment>,
    pub omitted_files: Vec<String>,
}

#[verifier::ext_equal]
pub struct ClusterView {
    pub directory: Seq<char>,
    pub count: u32,
    pub top_files: Seq<RiskAssessment>,
    pub omitted_files: Seq<Seq<char>>,
}

impl View for ClusteredDirectory {
    type V = ClusterView;

    open spec fn view(&self) -> ClusterView {
        ClusterView {
            directory: self.directory@,
            count: self.count,
            top_files: self.top_files@,
            omitted_files: text::views(self.omitted_files@),
        }
    }
}

/// The directory that a file stands in.
pub open spec fn dir_of(f: RiskAssessment) -> Seq<char> {
    match paths::parent(f.file@) {
        Some(d) => d,
        None => Seq::empty(),
    }
}

pub open spec fn dirs_of(files: Seq<RiskAssessment>) -> Seq<Seq<char>> {
    files.map_values(|f: RiskAssessment| dir_of(f))
}

/// The files of one directory, in order.
pub open spec fn in_dir(files: Seq<RiskAssessment>, dir: Seq<char>) -> Seq<RiskAssessment> {
    files.filter(|f: RiskAssessment| dir_of(f) == dir)
}

/// The files of the directories `dirs` that hold fewer than `threshold`.
pub open spec fn kept(files: Seq<RiskAssessment>, dirs: Seq<Seq<char>>, threshold: usize) -> Seq<
    RiskAssessment,
>
    decreases dirs.len(),
{
    if dirs.len() == 0 {
        Seq::empty()
    } else {
        let front = kept(files, dirs.drop_last(), threshold);
        let here = in_dir(files, dirs.last());
        if here.len() < threshold {
            front + here
        } else {
            front
        }
    }
}

/// A directory condensed: the riskiest files with detail, the rest by name.
pub open spec fn cluster(files: Seq<RiskAssessment>, dir: Seq<char>) -> ClusterView {
    let ranked = order::sorted::<RiskAssessment>(in_dir(files, dir));
    ClusterView {
        directory: dir,
        count: in_dir(files, dir).len() as u32,
        top_files: impact::at_most(ranked, CLUSTER_TOP),
        omitted_files: risk_diff::names(
            if ranked.len() > CLUSTER_TOP {
                ranked.skip(CLUSTER_TOP as int)
            } else {
                Seq::empty()
            },
        ),
    }
}

/// The directories `dirs` that hold `threshold` files or more, condensed.
pub open spec fn clusters(
    files: Seq<RiskAssessment>,
    dirs: Seq<Seq<char>>,
    threshold: usize,
) -> Seq<ClusterView>
    decreases dirs.len(),
{
    if dirs.len() == 0 {
        Seq::empty()
    } else {
        let front = clusters(files, dirs.drop_last(), threshold);
        if in_dir(files, dirs.last()).len() < threshold {
            front
        } else {
            front.push(cluster(files, dirs.last()))
        }
    }
}

struct Bucket {
    dir: String,
    items: Vec<RiskAssessment>,
}

/// The directories of some buckets.
spec fn directories(buckets: Seq<Bucket>) -> Seq<Seq<char>> {
    buckets.map_values(|b: Bucket| b.dir@)
}

fn directory_of_file(f: &RiskAssessment) -> (out: String)
    ensures
        out@ == dir_of(*f),
{
    match parent_of(f.file.as_str()) {
        Some(d) => d.to_owned(),
        None => String::new(),
    }
}

/// The buckets hold `files` by directory.
spec fn sorted_into(buckets: Seq<Bucket>, files: Seq<RiskAssessment>) -> bool {
    &&& order::ascending(directories(buckets))
    &&& forall|x: Seq<char>| #[trigger]
        directories(buckets).contains(x) <==> dirs_of(files).contains(x)
    &&& forall|k: int|
        0 <= k < buckets.len() ==> (#[trigger] buckets[k]).items@ == in_dir(files, buckets[k].dir@)
}

proof fn lemma_in_dir_push(files: Seq<RiskAssessment>, f: RiskAssessment)
    ensures
        forall|d: Seq<char>| #[trigger]
            in_dir(files.push(f), d) == if dir_of(f) == d {
                in_dir(files, d).push(f)
            } else {
                in_dir(files, d)
            },
        dirs_of(files.push(f)) == dirs_of(files).push(dir_of(f)),
{
    reveal(Seq::filter);
    assert(files.push(f).drop_last() =~= files);
    assert(dirs_of(files.push(f)) =~= dirs_of(files).push(dir_of(f)));
}

proof fn lemma_in_dir_absent(files: Seq<RiskAssessment>, d: Seq<char>)
    requires
        !dirs_of(files).contains(d),
    ensures
        in_dir(files, d).len() == 0,
    decreases files.len(),
{
    reveal(Seq::filter);
    if files.len() > 0 {
        let front = files.drop_last();
        assert(!dirs_of(front).contains(d)) by {
            if dirs_of(front).contains(d) {
                let k = choose|k: int| 0 <= k < front.len() && dirs_of(front)[k] == d;
                assert(dirs_of(files)[k] == d);
            }
        }
        assert(dirs_of(files)[files.len() - 1] == dir_of(files.last()));
        lemma_in_dir_absent(front, d);
    }
}

fn put(buckets: &mut Vec<Bucket>, f: RiskAssessment, Ghost(files): Ghost<Seq<RiskAssessment>>)
    requires
        sorted_into(old(buckets)@, files),
    ensures
        sorted_into(final(buckets)@, files.push(f)),
{
    let ghost was = buckets@;
    let ghost names = directories(buckets@);
    let dir = directory_of_file(&f);
    let mut i: usize = 0;
    while i < buckets.len() && before(buckets[i].dir.as_str(), dir.as_str())
        invariant
            buckets@ == was,
            names == directories(was),
            i <= buckets.len(),
            forall|j: int| 0 <= j < i ==> order::text_before(#[trigger] names[j], dir@),
        decreases buckets.len() - i,
    {
        assert(names[i as int] == was[i as int].dir@);
        i += 1;
    }
    proof {
        lemma_in_dir_push(files, f);
    }
    let ghost all = files.push(f);
    if i < buckets.len() && same(buckets[i].dir.as_str(), dir.as_str()) {
        assert(names[i as int] == dir@);
        buckets[i].items.push(f);
        proof {
            let now = buckets@;
            assert(directories(now) =~= names);
            assert forall|x: Seq<char>| #[trigger] directories(now).contains(x) <==> dirs_of(
                all,
            ).contains(x) by {
                lemma_push_contains(dirs_of(files), dir@, x);
            }
            assert forall|k: int| 0 <= k < now.len() implies (#[trigger] now[k]).items@ == in_dir(
                all,
                now[k].dir@,
            ) by {
                assert(was[k].items@ == in_dir(files, was[k].dir@));
                if k != i {
                    assert(names[k] != names[i as int]) by {
                        order::lemma_text_before_irreflexive(names[k]);
                        if k < i {
                            assert(order::text_before(names[k], names[i as int]));
                        } else {
                            assert(order::text_before(names[i as int], names[k]));
                        }
                    }
                }
            }
        }
    } else {
        proof {
            assert(!names.contains(dir@)) by {
                if names.contains(dir@) {
                    let k = choose|k: int| 0 <= k < names.len() && names[k] == dir@;
                    order::lemma_text_before_irreflexive(dir@);
                    assert(k >= i);
                    order::lemma_text_before_total(names[i as int], dir@);
                    if k > i {
                        assert(order::text_before(names[i as int], names[k]));
                    }
                }
            }
            lemma_in_dir_absent(files, dir@);
        }
        let ghost d = dir@;
        let mut items: Vec<RiskAssessment> = Vec::new();
        items.push(f);
        let ghost b = items@;
        buckets.insert(i, Bucket { dir, items });
        proof {
            let now = buckets@;
            let t = names.insert(i as int, d);
            assert(directories(now) =~= t);
            assert forall|j: int| i <= j < names.len() implies order::text_before(
                d,
                #[trigger] names[j],
            ) by {
                order::lemma_text_before_total(d, names[i as int]);
                assert(names.contains(names[i as int]));
                if j > i {
                    assert(order::text_before(names[i as int], names[j]));
                    order::lemma_text_before_transitive(d, names[i as int], names[j]);
                }
            }
            assert forall|a: int, c: int| 0 <= a < c < t.len() implies order::text_before(
                #[trigger] t[a],
                #[trigger] t[c],
            ) by {
                if a < i && c < i {
                    assert(order::text_before(names[a], names[c]));
                } else if a < i && c > i {
                    assert(order::text_before(names[a], names[c - 1]));
                } else if a > i {
                    assert(order::text_before(names[a - 1], names[c - 1]));
                } else if a == i {
                    assert(t[c] == names[c - 1]);
                } else {
                    assert(t[a] == names[a]);
                }
            }
            assert forall|x: Seq<char>| #[trigger] directories(now).contains(x) <==> dirs_of(
                all,
            ).contains(x) by {
                lemma_push_contains(dirs_of(files), d, x);
                lemma_insert_contains(names, i as int, d, x);
            }
            assert forall|k: int| 0 <= k < now.len() implies (#[trigger] now[k]).items@ == in_dir(
                all,
                now[k].dir@,
            ) by {
                if k < i {
                    assert(now[k] == was[k]);
                    assert(was[k].items@ == in_dir(files, was[k].dir@));
                    assert(names.contains(names[k]));
                } else if k > i {
                    assert(now[k] == was[k - 1]);
                    assert(was[k - 1].items@ == in_dir(files, was[k - 1].dir@));
                    assert(names.contains(names[k - 1]));
                } else {
                    assert(b =~= in_dir(files, d).push(f));
                }
            }
        }
    }
}

proof fn lemma_push_contains(s: Seq<Seq<char>>, a: Seq<char>, x: Seq<char>)
    ensures
        s.push(a).contains(x) <==> s.contains(x) || x == a,
{
    if s.contains(x) {
        let k = choose|k: int| 0 <= k < s.len() && s[k] == x;
        assert(s.push(a)[k] == x);
    }
    assert(s.push(a)[s.len() as int] == a);
    if s.push(a).contains(x) {
        let k = choose|k: int| 0 <= k < s.push(a).len() && s.push(a)[k] == x;
        if k < s.len() {
            assert(s[k] == x);
        }
    }
}

proof fn lemma_insert_contains(s: Seq<Seq<char>>, i: int, a: Seq<char>, x: Seq<char>)
    requires
        0 <= i <= s.len(),
    ensures
        s.insert(i, a).contains(x) <==> s.contains(x) || x == a,
{
    let t = s.insert(i, a);
    assert(t[i] == a);
    if s.contains(x) {
        let k = choose|k: int| 0 <= k < s.len() && s[k] == x;
        if k < i {
            assert(t[k] == x);
        } else {
            assert(t[k + 1] == x);
        }
    }
    if t.contains(x) {
        let k = choose|k: int| 0 <= k < t.len() && t[k] == x;
        if k < i {
            assert(s[k] == x);
        } else if k > i {
            assert(s[k - 1] == x);
        }
    }
}

/// Groups `files` by directory. A directory with `threshold` files or more is
/// condensed; the files of the others are kept as they are.
pub fn cluster_by_directory(files: Vec<RiskAssessment>, threshold: usize) -> (out: (
    Vec<RiskAssessment>,
    Vec<ClusteredDirectory>,
))
    ensures
        ({
            let dirs = order::ascending_set(dirs_of(files@));
            &&& out.0@ == kept(files@, dirs, threshold)
            &&& text::views(out.1@) == clusters(files@, dirs, threshold)
        }),
{
    broadcast use text::group_views;
    let ghost all = files@;
    let mut buckets: Vec<Bucket> = Vec::new();
    assert(dirs_of(all.take(0)) =~= directories(buckets@));
    for f in it: files
        invariant
            it.seq() == all,
            sorted_into(buckets@, all.take(it.index())),
    {
        assert(all.take(it.index() + 1) =~= all.take(it.index()).push(f));
        put(&mut buckets, f, Ghost(all.take(it.index())));
    }
    assert(all.take(all.len() as int) =~= all);
    let ghost dirs = directories(buckets@);
    let ghost held = buckets@;
    proof {
        order::lemma_ascending_set(dirs, dirs_of(all));
    }
    let mut flat: Vec<RiskAssessment> = Vec::new();
    let mut condensed: Vec<ClusteredDirectory> = Vec::new();
    assert(dirs.take(0) =~= Seq::empty());
    for b in it: buckets
        invariant
            it.seq() == held,
            dirs == directories(held),
            sorted_into(held, all),
            flat@ == kept(all, dirs.take(it.index()), threshold),
            text::views(condensed@) == clusters(all, dirs.take(it.index()), threshold),
    {
        broadcast use text::group_views;
        proof {
            let n = it.index();
            assert(dirs.take(n + 1).drop_last() =~= dirs.take(n));
            assert(held[n] == b);
            assert(dirs[n] == b.dir@);
            assert(dirs.take(n + 1).last() == b.dir@);
            assert(b.items@ == in_dir(all, b.dir@));
        }
        if b.items.len() < threshold {
            let mut items = b.items;
            flat.append(&mut items);
        } else {
            let count: u32 = b.items.len() as u32;
            let ghost here = in_dir(all, b.dir@);
            assert(text::views(b.items@) =~= here);
            let mut top_files = sort(b.items);
            assert(text::views(top_files@) =~= top_files@);
            let ghost ranked = order::sorted::<RiskAssessment>(here);
            let mut omitted_files: Vec<String> = Vec::new();
            if top_files.len() > CLUSTER_TOP {
                let ghost rest = risk_diff::names(ranked.skip(CLUSTER_TOP as int));
                let mut j: usize = CLUSTER_TOP;
                while j < top_files.len()
                    invariant
                        CLUSTER_TOP <= j <= top_files.len(),
                        top_files@ == ranked,
                        rest == risk_diff::names(ranked.skip(CLUSTER_TOP as int)),
                        text::views(omitted_files@) == rest.take(j - CLUSTER_TOP),
                    decreases top_files.len() - j,
                {
                    broadcast use text::group_views;
                    assert(rest.take(j - CLUSTER_TOP + 1) =~= rest.take(j - CLUSTER_TOP).push(
                        top_files@[j as int].file@,
                    ));
                    omitted_files.push(top_files[j].file.clone());
                    j += 1;
                }
                assert(rest.take(top_files@.len() - CLUSTER_TOP) =~= rest);
                top_files.truncate(CLUSTER_TOP);
            } else {
                assert(risk_diff::names(Seq::empty()) =~= Seq::empty());
            }
            condensed.push(
                ClusteredDirectory { directory: b.dir, count, top_files, omitted_files },
            );
        }
    }
    assert(dirs.take(dirs.len() as int) =~= dirs);
    (flat, condensed)
}

/// Where a file of the patch is found in the answer: kept, or in a condensed
/// directory with detail or by name.
pub open spec fn accounted_for(
    f: RiskAssessment,
    flat: Seq<RiskAssessment>,
    condensed: Seq<ClusterView>,
) -> bool {
    ||| flat.contains(f)
    ||| exists|k: int|
        0 <= k < condensed.len() && ((#[trigger] condensed[k]).top_files.contains(f)
            || condensed[k].omitted_files.contains(f.file@))
}

proof fn lemma_in_dir_holds(files: Seq<RiskAssessment>, i: int)
    requires
        0 <= i < files.len(),
    ensures
        in_dir(files, dir_of(files[i])).contains(files[i]),
    decreases files.len(),
{
    reveal(Seq::filter);
    let d = dir_of(files[i]);
    let here = in_dir(files, d);
    if i == files.len() - 1 {
        assert(here.last() == files[i]);
        assert(here[here.len() - 1] == files[i]);
    } else {
        let front = files.drop_last();
        assert(front[i] == files[i]);
        lemma_in_dir_holds(front, i);
        let before = in_dir(front, d);
        let k = choose|k: int| 0 <= k < before.len() && before[k] == files[i];
        assert(here[k] == files[i]);
    }
}

proof fn lemma_cluster_holds(files: Seq<RiskAssessment>, d: Seq<char>, f: RiskAssessment)
    requires
        in_dir(files, d).contains(f),
    ensures
        cluster(files, d).top_files.contains(f) || cluster(files, d).omitted_files.contains(f.file@),
{
    broadcast use vstd::seq_lib::group_to_multiset_ensures;

    let here = in_dir(files, d);
    let ranked = order::sorted::<RiskAssessment>(here);
    order::lemma_sorted::<RiskAssessment>(here);
    assert(here.to_multiset().contains(f));
    assert(ranked.to_multiset().contains(f));
    assert(ranked.contains(f));
    let k = choose|k: int| 0 <= k < ranked.len() && ranked[k] == f;
    let top = cluster(files, d).top_files;
    if k < CLUSTER_TOP {
        assert(top[k] == f);
    } else {
        let rest = ranked.skip(CLUSTER_TOP as int);
        assert(rest[k - CLUSTER_TOP] == f);
        assert(risk_diff::names(rest)[k - CLUSTER_TOP] == f.file@);
        assert(cluster(files, d).omitted_files.contains(f.file@));
    }
}

proof fn lemma_dir_accounted(
    files: Seq<RiskAssessment>,
    dirs: Seq<Seq<char>>,
    threshold: usize,
    n: int,
    f: RiskAssessment,
)
    requires
        0 <= n < dirs.len(),
        in_dir(files, dirs[n]).contains(f),
    ensures
        accounted_for(f, kept(files, dirs, threshold), clusters(files, dirs, threshold)),
    decreases dirs.len(),
{
    let front = dirs.drop_last();
    let here = in_dir(files, dirs.last());
    let flat = kept(files, dirs, threshold);
    let condensed = clusters(files, dirs, threshold);
    if n == dirs.len() - 1 {
        if here.len() < threshold {
            let before = kept(files, front, threshold);
            let k = choose|k: int| 0 <= k < here.len() && here[k] == f;
            assert(flat[before.len() + k] == f);
        } else {
            lemma_cluster_holds(files, dirs.last(), f);
            assert(condensed[condensed.len() - 1] == cluster(files, dirs.last()));
        }
    } else {
        assert(front[n] == dirs[n]);
        lemma_dir_accounted(files, front, threshold, n, f);
        let flat0 = kept(files, front, threshold);
        let cond0 = clusters(files, front, threshold);
        if flat0.contains(f) {
            let k = choose|k: int| 0 <= k < flat0.len() && flat0[k] == f;
            assert(flat[k] == f);
        } else {
            let k = choose|k: int|
                0 <= k < cond0.len() && ((#[trigger] cond0[k]).top_files.contains(f)
                    || cond0[k].omitted_files.contains(f.file@));
            assert(condensed[k] == cond0[k]);
        }
    }
}

/// Condensing loses no file: each file of the patch is kept, or stands in a
/// condensed directory with its detail or by its name.
pub proof fn law_clustering_accounts_for_every_file(
    files: Seq<RiskAssessment>,
    dirs: Seq<Seq<char>>,
    threshold: usize,
    i: int,
)
    requires
        0 <= i < files.len(),
        order::ascending_of(dirs, dirs_of(files)),
    ensures
        accounted_for(files[i], kept(files, dirs, threshold), clusters(files, dirs, threshold)),
{
    lemma_in_dir_holds(files, i);
    assert(dirs_of(files)[i] == dir_of(files[i]));
    assert(dirs_of(files).contains(dir_of(files[i])));
    assert(dirs.contains(dir_of(files[i])));
    let n = choose|n: int| 0 <= n < dirs.len() && dirs[n] == dir_of(files[i]);
    lemma_dir_accounted(files, dirs, threshold, n, files[i]);
}

/// The files that condensed directories show with detail.
pub open spec fn shown(condensed: Seq<ClusterView>) -> Seq<RiskAssessment>
    decreases condensed.len(),
{
    if condensed.len() == 0 {
        Seq::empty()
    } else {
        shown(condensed.drop_last()) + condensed.last().top_files
    }
}

/// The names of the files that condensed directories show by name alone.
pub open spec fn omitted(condensed: Seq<ClusterView>) -> Seq<Seq<char>>
    decreases condensed.len(),
{
    if condensed.len() == 0 {
        Seq::empty()
    } else {
        omitted(condensed.drop_last()) + condensed.last().omitted_files
    }
}

/// The files of a directory that condensing it leaves out.
pub open spec fn left_out_of(files: Seq<RiskAssessment>, dir: Seq<char>) -> Seq<RiskAssessment> {
    let ranked = order::sorted::<RiskAssessment>(in_dir(files, dir));
    if ranked.len() > CLUSTER_TOP {
        ranked.skip(CLUSTER_TOP as int)
    } else {
        Seq::empty()
    }
}

/// The files that condensing the directories `dirs` leaves out.
pub open spec fn left_out(files: Seq<RiskAssessment>, dirs: Seq<Seq<char>>, threshold: usize) -> Seq<
    RiskAssessment,
>
    decreases dirs.len(),
{
    if dirs.len() == 0 {
        Seq::empty()
    } else {
        let front = left_out(files, dirs.drop_last(), threshold);
        if in_dir(files, dirs.last()).len() < threshold {
            front
        } else {
            front + left_out_of(files, dirs.last())
        }
    }
}

/// The files of the directories `dirs`, as often as they occur.
spec fn gathered(files: Seq<RiskAssessment>, dirs: Seq<Seq<char>>) -> Multiset<RiskAssessment>
    decreases dirs.len(),
{
    if dirs.len() == 0 {
        Multiset::empty()
    } else {
        gathered(files, dirs.drop_last()).add(in_dir(files, dirs.last()).to_multiset())
    }
}

proof fn lemma_in_dir_count(files: Seq<RiskAssessment>, d: Seq<char>, f: RiskAssessment)
    ensures
        in_dir(files, d).to_multiset().count(f) == if dir_of(f) == d {
            files.to_multiset().count(f)
        } else {
            0
        },
    decreases files.len(),
{
    broadcast use vstd::seq_lib::group_to_multiset_ensures;

    if files.len() == 0 {
        reveal(Seq::filter);
        assert(in_dir(files, d) =~= files);
    } else {
        let front = files.drop_last();
        lemma_in_dir_count(front, d, f);
        lemma_in_dir_push(front, files.last());
        assert(files =~= front.push(files.last()));
    }
}

proof fn lemma_gathered_count(files: Seq<RiskAssessment>, dirs: Seq<Seq<char>>, f: RiskAssessment)
    requires
        order::ascending(dirs),
    ensures
        gathered(files, dirs).count(f) == if dirs.contains(dir_of(f)) {
            files.to_multiset().count(f)
        } else {
            0
        },
    decreases dirs.len(),
{
    if dirs.len() > 0 {
        let front = dirs.drop_last();
        let d = dir_of(f);
        lemma_gathered_count(files, front, f);
        lemma_in_dir_count(files, dirs.last(), f);
        if d == dirs.last() {
            assert(dirs[dirs.len() - 1] == d);
            order::lemma_text_before_irreflexive(d);
            assert(!front.contains(d)) by {
                if front.contains(d) {
                    let k = choose|k: int| 0 <= k < front.len() && front[k] == d;
                    assert(order::text_before(dirs[k], dirs[dirs.len() - 1]));
                }
            }
        } else if front.contains(d) {
            let k = choose|k: int| 0 <= k < front.len() && front[k] == d;
            assert(dirs[k] == d);
        } else if dirs.contains(d) {
            let k = choose|k: int| 0 <= k < dirs.len() && dirs[k] == d;
            assert(front[k] == d);
        }
    }
}

proof fn lemma_parts_gathered(files: Seq<RiskAssessment>, dirs: Seq<Seq<char>>, threshold: usize)
    ensures
        ({
            let condensed = clusters(files, dirs, threshold);
            let out = left_out(files, dirs, threshold);
            &&& risk_diff::names(out) == omitted(condensed)
            &&& kept(files, dirs, threshold).to_multiset().add(shown(condensed).to_multiset()).add(
                out.to_multiset(),
            ) == gathered(files, dirs)
        }),
    decreases dirs.len(),
{
    broadcast use vstd::seq_lib::group_to_multiset_ensures;

    let condensed = clusters(files, dirs, threshold);
    let out = left_out(files, dirs, threshold);
    if dirs.len() == 0 {
        assert(risk_diff::names(out) =~= omitted(condensed));
        assert(kept(files, dirs, threshold).to_multiset().add(shown(condensed).to_multiset()).add(
            out.to_multiset(),
        ) =~= gathered(files, dirs));
    } else {
        let front = dirs.drop_last();
        let here = in_dir(files, dirs.last());
        lemma_parts_gathered(files, front, threshold);
        let k0 = kept(files, front, threshold);
        let c0 = clusters(files, front, threshold);
        let o0 = left_out(files, front, threshold);
        if here.len() < threshold {
            vstd::seq_lib::lemma_multiset_commutative(k0, here);
            assert(kept(files, dirs, threshold).to_multiset().add(shown(condensed).to_multiset()).add(
                out.to_multiset(),
            ) =~= gathered(files, dirs));
        } else {
            let c = cluster(files, dirs.last());
            let rest = left_out_of(files, dirs.last());
            assert(condensed.drop_last() =~= c0);
            assert(risk_diff::names(out) =~= risk_diff::names(o0) + risk_diff::names(rest));
            let ranked = order::sorted::<RiskAssessment>(here);
            order::lemma_sorted::<RiskAssessment>(here);
            assert(ranked =~= c.top_files + rest);
            vstd::seq_lib::lemma_multiset_commutative(c.top_files, rest);
            vstd::seq_lib::lemma_multiset_commutative(shown(c0), c.top_files);
            vstd::seq_lib::lemma_multiset_commutative(o0, rest);
            assert(kept(files, dirs, threshold).to_multiset().add(shown(condensed).to_multiset()).add(
                out.to_multiset(),
            ) =~= gathered(files, dirs));
        }
    }
}

/// Condensing is exact: the files kept, those shown with detail and those left
/// out, which stand there by their names, are together the files of the patch,
/// each as often as the patch has it.
pub proof fn law_clustering_keeps_exactly_the_patch(
    files: Seq<RiskAssessment>,
    dirs: Seq<Seq<char>>,
    threshold: usize,
)
    requires
        order::ascending_of(dirs, dirs_of(files)),
    ensures
        ({
            let condensed = clusters(files, dirs, threshold);
            let out = left_out(files, dirs, threshold);
            &&& omitted(condensed) == risk_diff::names(out)
            &&& kept(files, dirs, threshold).to_multiset().add(shown(condensed).to_multiset()).add(
                out.to_multiset(),
            ) == files.to_multiset()
        }),
{
    broadcast use vstd::seq_lib::group_to_multiset_ensures;

    lemma_parts_gathered(files, dirs, threshold);
    assert forall|f: RiskAssessment| gathered(files, dirs).count(f) == files.to_multiset().count(f) by {
        lemma_gathered_count(files, dirs, f);
        if files.to_multiset().count(f) > 0 {
            assert(files.contains(f));
            let i = choose|i: int| 0 <= i < files.len() && files[i] == f;
            assert(dirs_of(files)[i] == dir_of(f));
            assert(dirs_of(files).contains(dir_of(f)));
        }
    }
    assert(gathered(files, dirs) =~= files.to_multiset());
}

// ---------------------------------------------------------------------------
// The legend
// ---------------------------------------------------------------------------

/// A note that repeats across files needs at least this many of them to be
/// moved to the legend.
pub const ALIAS_FLOOR: usize = 3;

/// A short code and the note it stands for.
#[derive(Debug)]
pub struct LegendEntry {
    pub code: String,
    pub note: String,
}

impl View for LegendEntry {
    type V = (Seq<char>, Seq<char>);

    open spec fn view(&self) -> (Seq<char>, Seq<char>) {
        (self.code@, self.note@)
    }
}

/// The notes that can be moved to the legend, by their codes.
pub open spec fn aliasable() -> Seq<(Seq<char>, Seq<char>)> {
    seq![
        ("CF"@, CYCLE_SIGNAL_FAILED_NOTE@),
        ("NG"@, NO_HISTORY_NOTE@),
        ("NS"@, NO_STRUCTURAL_SIGNALS_NOTE@),
        ("T"@, TEST_GAP_NOTE@),
        ("TU"@, TEST_GAP_UNMEASURED_NOTE@),
    ]
}

/// How many of the lists hold a note.
pub open spec fn holders(lists: Seq<Seq<Seq<char>>>, note: Seq<char>) -> nat {
    lists.filter(|l: Seq<Seq<char>>| l.contains(note)).len()
}

/// The notes that enough of the lists hold.
pub open spec fn legend(lists: Seq<Seq<Seq<char>>>) -> Seq<(Seq<char>, Seq<char>)> {
    aliasable().filter(|e: (Seq<char>, Seq<char>)| holders(lists, e.1) >= ALIAS_FLOOR)
}

/// A note as the legend writes it.
pub open spec fn aliased(note: Seq<char>, legend: Seq<(Seq<char>, Seq<char>)>) -> Seq<char>
    decreases legend.len(),
{
    if legend.len() == 0 {
        note
    } else if legend[0].1 == note {
        legend[0].0
    } else {
        aliased(note, legend.skip(1))
    }
}

/// A written note as the legend reads it.
pub open spec fn expanded(note: Seq<char>, legend: Seq<(Seq<char>, Seq<char>)>) -> Seq<char>
    decreases legend.len(),
{
    if legend.len() == 0 {
        note
    } else if legend[0].0 == note {
        legend[0].1
    } else {
        expanded(note, legend.skip(1))
    }
}

/// The codes of a legend are distinct.
pub open spec fn distinct_codes(legend: Seq<(Seq<char>, Seq<char>)>) -> bool {
    forall|i: int, j: int|
        0 <= i < j < legend.len() ==> (#[trigger] legend[i]).0 != (#[trigger] legend[j]).0
}

/// Reading a legend undoes writing it, for every note that is not itself one
/// of its codes.
pub proof fn law_legend_is_reversible(note: Seq<char>, legend: Seq<(Seq<char>, Seq<char>)>)
    requires
        distinct_codes(legend),
        forall|i: int| 0 <= i < legend.len() ==> (#[trigger] legend[i]).0 != note,
    ensures
        expanded(aliased(note, legend), legend) == note,
    decreases legend.len(),
{
    if legend.len() > 0 {
        let rest = legend.skip(1);
        if legend[0].1 != note {
            assert forall|i: int, j: int| 0 <= i < j < rest.len() implies (#[trigger] rest[i]).0 != (
            #[trigger] rest[j]).0 by {
                assert(legend[i + 1].0 != legend[j + 1].0);
            }
            assert forall|i: int| 0 <= i < rest.len() implies (#[trigger] rest[i]).0 != note by {
                assert(legend[i + 1].0 != note);
            }
            law_legend_is_reversible(note, rest);
            let code = aliased(note, rest);
            lemma_alias_is_code(note, rest);
            if code != note {
                let k = choose|k: int| 0 <= k < rest.len() && (#[trigger] rest[k]).0 == code;
                assert(legend[0].0 != legend[k + 1].0);
            }
        }
    }
}

proof fn lemma_alias_is_code(note: Seq<char>, legend: Seq<(Seq<char>, Seq<char>)>)
    ensures
        aliased(note, legend) == note || exists|k: int|
            0 <= k < legend.len() && (#[trigger] legend[k]).0 == aliased(note, legend),
    decreases legend.len(),
{
    if legend.len() > 0 {
        if legend[0].1 == note {
            assert(legend[0].0 == aliased(note, legend));
        } else {
            let rest = legend.skip(1);
            lemma_alias_is_code(note, rest);
            if aliased(note, rest) != note {
                let k = choose|k: int|
                    0 <= k < rest.len() && (#[trigger] rest[k]).0 == aliased(note, rest);
                assert(legend[k + 1].0 == aliased(note, legend));
            }
        }
    }
}

/// Every legend has distinct codes.
pub proof fn law_legend_codes_are_distinct(lists: Seq<Seq<Seq<char>>>)
    ensures
        distinct_codes(legend(lists)),
{
    reveal_strlit("T");
    reveal_strlit("NG");
    reveal_strlit("NS");
    reveal_strlit("TU");
    reveal_strlit("CF");
    let all = aliasable();
    assert("T"@.len() == 1 && "NG"@.len() == 2 && "NS"@.len() == 2 && "TU"@.len() == 2
        && "CF"@.len() == 2);
    assert("NG"@[0] == 'N' && "NS"@[0] == 'N' && "TU"@[0] == 'T' && "CF"@[0] == 'C');
    assert("NG"@[1] == 'G' && "NS"@[1] == 'S');
    assert(distinct_codes(all));
    lemma_filter_distinct(
        all,
        |e: (Seq<char>, Seq<char>)| holders(lists, e.1) >= ALIAS_FLOOR,
    );
}

proof fn lemma_filter_distinct(
    s: Seq<(Seq<char>, Seq<char>)>,
    p: spec_fn((Seq<char>, Seq<char>)) -> bool,
)
    requires
        distinct_codes(s),
    ensures
        distinct_codes(s.filter(p)),
        forall|i: int| 0 <= i < s.filter(p).len() ==> s.contains(#[trigger] s.filter(p)[i]),
    decreases s.len(),
{
    reveal(Seq::filter);
    if s.len() > 0 {
        let front = s.drop_last();
        assert forall|i: int, j: int| 0 <= i < j < front.len() implies (#[trigger] front[i]).0 != (
        #[trigger] front[j]).0 by {
            assert(s[i].0 != s[j].0);
        }
        lemma_filter_distinct(front, p);
        let f = front.filter(p);
        let g = s.filter(p);
        assert forall|i: int| 0 <= i < g.len() implies s.contains(#[trigger] g[i]) by {
            if i < f.len() {
                assert(front.contains(f[i]));
                let k = choose|k: int| 0 <= k < front.len() && front[k] == f[i];
                assert(s[k] == g[i]);
            } else {
                assert(s[s.len() - 1] == g[i]);
            }
        }
        assert forall|i: int, j: int| 0 <= i < j < g.len() implies (#[trigger] g[i]).0 != (
        #[trigger] g[j]).0 by {
            if j < f.len() {
                assert(f[i].0 != f[j].0);
            } else {
                assert(front.contains(f[i]));
                let k = choose|k: int| 0 <= k < front.len() && front[k] == f[i];
                assert(s[k].0 != s[s.len() - 1].0);
            }
        }
    }
}

/// A list of notes as it is seen.
pub open spec fn note_lists(files: Seq<RiskAssessment>) -> Seq<Seq<Seq<char>>> {
    files.map_values(|f: RiskAssessment| text::views(f.notes@))
}

/// The notes of the files that condensed directories show with detail.
pub open spec fn top_lists(condensed: Seq<ClusterView>) -> Seq<Seq<Seq<char>>>
    decreases condensed.len(),
{
    if condensed.len() == 0 {
        Seq::empty()
    } else {
        top_lists(condensed.drop_last()) + note_lists(condensed.last().top_files)
    }
}

fn aliasable_notes() -> (out: Vec<LegendEntry>)
    ensures
        text::views(out@) == aliasable(),
{
    broadcast use text::group_views;
    let mut out: Vec<LegendEntry> = Vec::new();
    out.push(
        LegendEntry { code: String::from_str("CF"), note: String::from_str(CYCLE_SIGNAL_FAILED_NOTE) },
    );
    out.push(LegendEntry { code: String::from_str("NG"), note: String::from_str(NO_HISTORY_NOTE) });
    out.push(
        LegendEntry {
            code: String::from_str("NS"),
            note: String::from_str(NO_STRUCTURAL_SIGNALS_NOTE),
        },
    );
    out.push(LegendEntry { code: String::from_str("T"), note: String::from_str(TEST_GAP_NOTE) });
    out.push(
        LegendEntry { code: String::from_str("TU"), note: String::from_str(TEST_GAP_UNMEASURED_NOTE) },
    );
    assert(text::views(out@) =~= aliasable());
    out
}

/// Lists of strings as they are seen.
pub open spec fn list_views(lists: Seq<Vec<String>>) -> Seq<Seq<Seq<char>>> {
    lists.map_values(|l: Vec<String>| text::views(l@))
}

fn repeats(lists: &Vec<Vec<String>>, note: &str) -> (r: bool)
    ensures
        r == (holders(list_views(lists@), note@) >= ALIAS_FLOOR),
{
    let ghost all = list_views(lists@);
    let ghost p = |l: Seq<Seq<char>>| l.contains(note@);
    let mut n: usize = 0;
    let mut i: usize = 0;
    proof {
        assert(all.take(0) =~= Seq::empty());
        reveal(Seq::filter);
    }
    while i < lists.len()
        invariant
            i <= lists.len(),
            all == list_views(lists@),
            p == (|l: Seq<Seq<char>>| l.contains(note@)),
            n == all.take(i as int).filter(p).len(),
            n <= i,
        decreases lists.len() - i,
    {
        proof {
            assert(all.take(i + 1).drop_last() =~= all.take(i as int));
            assert(all.take(i + 1).last() == text::views(lists@[i as int]@));
            reveal(Seq::filter);
        }
        if order::among(&lists[i], note) {
            n += 1;
        }
        i += 1;
    }
    assert(all.take(all.len() as int) =~= all);
    n >= ALIAS_FLOOR
}

/// The legend of notes that repeat across at least three of the lists.
pub fn legend_for(lists: &Vec<Vec<String>>) -> (out: Vec<LegendEntry>)
    ensures
        text::views(out@) == legend(list_views(lists@)),
{
    broadcast use text::group_views;
    let table = aliasable_notes();
    let ghost all = aliasable();
    let ghost p = |e: (Seq<char>, Seq<char>)| holders(list_views(lists@), e.1) >= ALIAS_FLOOR;
    let mut out: Vec<LegendEntry> = Vec::new();
    let mut i: usize = 0;
    proof {
        assert(all.take(0) =~= Seq::empty());
        reveal(Seq::filter);
    }
    while i < table.len()
        invariant
            i <= table.len(),
            all == aliasable(),
            text::views(table@) == all,
            p == (|e: (Seq<char>, Seq<char>)|
                holders(list_views(lists@), e.1) >= ALIAS_FLOOR),
            text::views(out@) == all.take(i as int).filter(p),
        decreases table.len() - i,
    {
        broadcast use text::group_views;
        proof {
            assert(text::views(table@)[i as int] == table@[i as int]@);
            assert(all.take(i + 1).drop_last() =~= all.take(i as int));
            assert(all.take(i + 1).last() == table@[i as int]@);
            reveal(Seq::filter);
        }
        if repeats(lists, table[i].note.as_str()) {
            out.push(
                LegendEntry { code: table[i].code.clone(), note: table[i].note.clone() },
            );
        }
        i += 1;
    }
    assert(all.take(table@.len() as int) =~= all);
    out
}

fn alias_note(note: &String, legend: &Vec<LegendEntry>) -> (out: String)
    ensures
        out@ == aliased(note@, text::views(legend@)),
{
    broadcast use text::group_views;
    let ghost all = text::views(legend@);
    let mut i: usize = 0;
    assert(all.skip(0) =~= all);
    while i < legend.len()
        invariant
            i <= legend.len(),
            all == text::views(legend@),
            aliased(note@, all) == aliased(note@, all.skip(i as int)),
        decreases legend.len() - i,
    {
        broadcast use text::group_views;
        assert(all.skip(i as int)[0] == legend@[i as int]@);
        assert(all.skip(i as int).skip(1) =~= all.skip(i + 1));
        if same(legend[i].note.as_str(), note.as_str()) {
            return legend[i].code.clone();
        }
        i += 1;
    }
    note.clone()
}

/// A list of notes as the legend writes it.
pub open spec fn aliased_list(
    notes: Seq<Seq<char>>,
    legend: Seq<(Seq<char>, Seq<char>)>,
) -> Seq<Seq<char>> {
    notes.map_values(|n: Seq<char>| aliased(n, legend))
}

fn alias_list(notes: &Vec<String>, legend: &Vec<LegendEntry>) -> (out: Vec<String>)
    ensures
        text::views(out@) == aliased_list(text::views(notes@), text::views(legend@)),
{
    broadcast use text::group_views;
    let ghost want = aliased_list(text::views(notes@), text::views(legend@));
    let mut out: Vec<String> = Vec::new();
    let mut i: usize = 0;
    while i < notes.len()
        invariant
            i <= notes.len(),
            want == aliased_list(text::views(notes@), text::views(legend@)),
            text::views(out@) == want.take(i as int),
        decreases notes.len() - i,
    {
        broadcast use text::group_views;
        assert(text::views(notes@)[i as int] == notes@[i as int]@);
        assert(want.take(i + 1) =~= want.take(i as int).push(want[i as int]));
        out.push(alias_note(&notes[i], legend));
        i += 1;
    }
    assert(want.take(notes@.len() as int) =~= want);
    out
}

/// `now` are the files of `was` with their notes as the legend writes them.
pub open spec fn aliased_files(
    now: Seq<RiskAssessment>,
    was: Seq<RiskAssessment>,
    legend: Seq<(Seq<char>, Seq<char>)>,
) -> bool {
    &&& now.len() == was.len()
    &&& forall|i: int|
        0 <= i < now.len() ==> {
            &&& (#[trigger] now[i]) == (RiskAssessment { notes: now[i].notes, ..was[i] })
            &&& text::views(now[i].notes@) == aliased_list(text::views(was[i].notes@), legend)
        }
}

/// Writes the notes of `files` with the legend.
pub fn alias_files(files: &mut Vec<RiskAssessment>, legend: &Vec<LegendEntry>)
    ensures
        aliased_files(final(files)@, old(files)@, text::views(legend@)),
{
    let ghost was = files@;
    let mut i: usize = 0;
    while i < files.len()
        invariant
            i <= files.len(),
            files@.len() == was.len(),
            forall|j: int| i <= j < was.len() ==> #[trigger] files@[j] == was[j],
            forall|j: int|
                0 <= j < i ==> {
                    &&& (#[trigger] files@[j]) == (RiskAssessment {
                        notes: files@[j].notes,
                        ..was[j]
                    })
                    &&& text::views(files@[j].notes@) == aliased_list(
                        text::views(was[j].notes@),
                        text::views(legend@),
                    )
                },
        decreases files.len() - i,
    {
        let ghost before = files@;
        let notes = alias_list(&files[i].notes, legend);
        files[i].notes = notes;
        assert(forall|j: int| 0 <= j < was.len() && j != i ==> files@[j] == before[j]);
        i += 1;
    }
}

fn collect_lists(out: &mut Vec<Vec<String>>, files: &Vec<RiskAssessment>)
    ensures
        list_views(final(out)@) == list_views(old(out)@) + note_lists(files@),
{
    let ghost was = list_views(out@);
    let ghost more = note_lists(files@);
    let mut i: usize = 0;
    assert(was + more.take(0) =~= was);
    while i < files.len()
        invariant
            i <= files.len(),
            more == note_lists(files@),
            list_views(out@) == was + more.take(i as int),
        decreases files.len() - i,
    {
        let ghost now = out@;
        let copy = text::copy_strings(&files[i].notes);
        let ghost seen = text::views(copy@);
        out.push(copy);
        assert(list_views(out@) =~= list_views(now).push(seen));
        assert(was + more.take(i + 1) =~= (was + more.take(i as int)).push(seen));
        i += 1;
    }
    assert(more.take(files@.len() as int) =~= more);
}

fn lists_of(files: &Vec<RiskAssessment>, condensed: &Vec<ClusteredDirectory>) -> (out: Vec<
    Vec<String>,
>)
    ensures
        list_views(out@) == note_lists(files@) + top_lists(text::views(condensed@)),
{
    broadcast use text::group_views;
    let mut out: Vec<Vec<String>> = Vec::new();
    collect_lists(&mut out, files);
    let ghost base = note_lists(files@);
    assert(list_views(out@) =~= base);
    let ghost all = text::views(condensed@);
    let mut i: usize = 0;
    assert(all.take(0) =~= Seq::empty());
    assert(base + top_lists(all.take(0)) =~= base);
    while i < condensed.len()
        invariant
            i <= condensed.len(),
            base == note_lists(files@),
            all == text::views(condensed@),
            list_views(out@) == base + top_lists(all.take(i as int)),
        decreases condensed.len() - i,
    {
        broadcast use text::group_views;
        assert(all.take(i + 1).drop_last() =~= all.take(i as int));
        assert(all.take(i + 1).last() == condensed@[i as int]@);
        collect_lists(&mut out, &condensed[i].top_files);
        assert(base + top_lists(all.take(i + 1)) =~= (base + top_lists(all.take(i as int)))
            + note_lists(condensed@[i as int].top_files@));
        i += 1;
    }
    assert(all.take(all.len() as int) =~= all);
    out
}

// ---------------------------------------------------------------------------
// The answers
// ---------------------------------------------------------------------------

/// `f` with the note that the cycle signal failed.
pub open spec fn with_failure(f: RiskAssessment, g: RiskAssessment) -> bool {
    &&& g == (RiskAssessment { notes: g.notes, ..f })
    &&& text::views(g.notes@) == text::views(f.notes@).push(CYCLE_SIGNAL_FAILED_NOTE@)
}

/// The files after the failure of cycle detection was noted, if it failed.
pub open spec fn noted_failure(
    was: Seq<RiskAssessment>,
    now: Seq<RiskAssessment>,
    failed: bool,
) -> bool {
    if failed {
        now.len() == was.len() && forall|i: int|
            0 <= i < now.len() ==> with_failure(was[i], #[trigger] now[i])
    } else {
        now == was
    }
}

/// Notes on every file that cycle detection failed, if it did.
pub fn note_failure(files: &mut Vec<RiskAssessment>, failed: bool)
    ensures
        noted_failure(old(files)@, final(files)@, failed),
{
    if !failed {
        return ;
    }
    let ghost was = files@;
    let mut i: usize = 0;
    while i < files.len()
        invariant
            i <= files.len(),
            files@.len() == was.len(),
            forall|j: int| i <= j < was.len() ==> #[trigger] files@[j] == was[j],
            forall|j: int| 0 <= j < i ==> with_failure(was[j], #[trigger] files@[j]),
        decreases files.len() - i,
    {
        broadcast use text::group_views;
        let ghost before = files@;
        files[i].notes.push(String::from_str(CYCLE_SIGNAL_FAILED_NOTE));
        assert(with_failure(was[i as int], files@[i as int]));
        assert(forall|j: int| 0 <= j < was.len() && j != i ==> files@[j] == before[j]);
        i += 1;
    }
}

#[derive(Debug)]
pub struct RiskBatchAssessment {
    pub files: Vec<RiskAssessment>,
    pub legend: Vec<LegendEntry>,
}

/// Assessments of several files, each on its own, with a shared legend.
pub fn assess_risk_batch(files: Vec<RiskAssessment>, cycles_failed: bool) -> (out: RiskBatchAssessment)
    ensures
        exists|noted: Seq<RiskAssessment>|
            {
                &&& #[trigger] noted_failure(files@, noted, cycles_failed)
                &&& text::views(out.legend@) == legend(note_lists(noted))
                &&& aliased_files(out.files@, noted, text::views(out.legend@))
            },
{
    let mut list = files;
    note_failure(&mut list, cycles_failed);
    let ghost noted = list@;
    let mut lists: Vec<Vec<String>> = Vec::new();
    collect_lists(&mut lists, &list);
    assert(list_views(lists@) =~= note_lists(noted));
    let legend_list = legend_for(&lists);
    alias_files(&mut list, &legend_list);
    assert(noted_failure(files@, noted, cycles_failed));
    RiskBatchAssessment { files: list, legend: legend_list }
}

#[derive(Debug)]
pub struct RiskDiffAssessment {
    pub empty_input: bool,
    pub files: Vec<RiskAssessment>,
    pub max_risk_file: Option<String>,
    pub test_gap_files: Vec<String>,
    pub wide_blast_files: Vec<String>,
    pub fix_heavy_files: Vec<String>,
    pub hotspot_files: Vec<String>,
    pub summary_notes: Vec<String>,
    pub clustered_directories: Vec<ClusteredDirectory>,
    pub cycles_touching_patch: Vec<CycleEntry>,
    pub legend: Vec<LegendEntry>,
}

/// The condensed directories with the notes of their files as the legend
/// writes them.
pub open spec fn aliased_clusters(
    now: Seq<ClusterView>,
    was: Seq<ClusterView>,
    legend: Seq<(Seq<char>, Seq<char>)>,
) -> bool {
    &&& now.len() == was.len()
    &&& forall|i: int|
        0 <= i < now.len() ==> {
            &&& (#[trigger] now[i]).directory == was[i].directory
            &&& now[i].count == was[i].count
            &&& now[i].omitted_files == was[i].omitted_files
            &&& aliased_files(now[i].top_files, was[i].top_files, legend)
        }
}

fn alias_clusters(condensed: &mut Vec<ClusteredDirectory>, legend: &Vec<LegendEntry>)
    ensures
        aliased_clusters(
            text::views(final(condensed)@),
            text::views(old(condensed)@),
            text::views(legend@),
        ),
{
    broadcast use text::group_views;
    let ghost was = text::views(condensed@);
    let mut i: usize = 0;
    while i < condensed.len()
        invariant
            i <= condensed.len(),
            condensed@.len() == was.len(),
            forall|j: int| i <= j < was.len() ==> (#[trigger] condensed@[j])@ == was[j],
            forall|j: int|
                0 <= j < i ==> {
                    &&& (#[trigger] condensed@[j])@.directory == was[j].directory
                    &&& condensed@[j]@.count == was[j].count
                    &&& condensed@[j]@.omitted_files == was[j].omitted_files
                    &&& aliased_files(
                        condensed@[j]@.top_files,
                        was[j].top_files,
                        text::views(legend@),
                    )
                },
        decreases condensed.len() - i,
    {
        let ghost before = condensed@;
        assert(condensed@[i as int]@ == was[i as int]);
        alias_files(&mut condensed[i].top_files, legend);
        assert(forall|j: int| 0 <= j < was.len() && j != i ==> condensed@[j] == before[j]);
        i += 1;
    }
}

/// The answer about a patch follows from the assessments of its files.
pub open spec fn rolls_up(
    out: RiskDiffAssessment,
    noted: Seq<RiskAssessment>,
    cycles: Seq<risk_diff::CycleView>,
    cycles_failed: bool,
    high_score: Option<Seq<char>>,
) -> bool {
    let dirs = order::ascending_set(dirs_of(noted));
    let flat = kept(noted, dirs, DIR_CLUSTER_THRESHOLD);
    let condensed = clusters(noted, dirs, DIR_CLUSTER_THRESHOLD);
    let codes = legend(note_lists(flat) + top_lists(condensed));
    &&& !out.empty_input
    &&& text::views(out.test_gap_files@) == risk_diff::found(noted, Finding::TestGap)
    &&& text::views(out.wide_blast_files@) == risk_diff::found(noted, Finding::WideBlast)
    &&& text::views(out.fix_heavy_files@) == risk_diff::found(noted, Finding::FixHeavy)
    &&& text::views(out.hotspot_files@) == risk_diff::found(noted, Finding::Hotspot)
    &&& exists|i: int| #[trigger]
        risk_diff::is_riskiest(noted, i) && text::view_opt(out.max_risk_file) == Some(
            noted[i].file@,
        )
    &&& text::views(out.summary_notes@) == risk_diff::summary(
        noted,
        cycles,
        cycles_failed,
        high_score,
    )
    &&& text::views(out.cycles_touching_patch@) == cycles
    &&& text::views(out.legend@) == codes
    &&& aliased_files(out.files@, flat, codes)
    &&& aliased_clusters(text::views(out.clustered_directories@), condensed, codes)
}

/// Rolls the assessments of a patch's files up. `high_score` is the highest
/// score in digits where it is one half or more. A patch without files says
/// so and nothing else.
pub fn assess_risk_diff(
    files: Vec<RiskAssessment>,
    cycles: Vec<CycleEntry>,
    cycles_failed: bool,
    high_score: Option<String>,
) -> (out: RiskDiffAssessment)
    requires
        forall|i: int|
            0 <= i < files@.len() && (#[trigger] files@[i]).gap_check_partial
                ==> files@[i].test_gap,
    ensures
        files@.len() == 0 ==> {
            &&& out.empty_input
            &&& text::views(out.summary_notes@) == seq![
                "No files supplied — pass the patch's file list (e.g. `git diff --name-only`)."@,
            ]
            &&& out.files@.len() == 0 && out.max_risk_file is None && out.test_gap_files@.len()
                == 0 && out.wide_blast_files@.len() == 0 && out.fix_heavy_files@.len() == 0
            &&& out.hotspot_files@.len() == 0 && out.clustered_directories@.len() == 0
                && out.cycles_touching_patch@.len() == 0 && out.legend@.len() == 0
        },
        files@.len() > 0 ==> exists|noted: Seq<RiskAssessment>|
            {
                &&& #[trigger] noted_failure(files@, noted, cycles_failed)
                &&& rolls_up(
                    out,
                    noted,
                    text::views(cycles@),
                    cycles_failed,
                    text::view_opt(high_score),
                )
            },
{
    broadcast use text::group_views;
    if files.len() == 0 {
        let mut summary_notes: Vec<String> = Vec::new();
        summary_notes.push(
            String::from_str(
                "No files supplied — pass the patch's file list (e.g. `git diff --name-only`).",
            ),
        );
        assert(text::views(summary_notes@) =~= seq![
            "No files supplied — pass the patch's file list (e.g. `git diff --name-only`)."@,
        ]);
        return RiskDiffAssessment {
            empty_input: true,
            files: Vec::new(),
            max_risk_file: None,
            test_gap_files: Vec::new(),
            wide_blast_files: Vec::new(),
            fix_heavy_files: Vec::new(),
            hotspot_files: Vec::new(),
            summary_notes,
            clustered_directories: Vec::new(),
            cycles_touching_patch: Vec::new(),
            legend: Vec::new(),
        };
    }
    let mut list = files;
    note_failure(&mut list, cycles_failed);
    let ghost noted = list@;
    proof {
        assert forall|i: int| 0 <= i < noted.len() && (#[trigger] noted[i]).gap_check_partial implies noted[i].test_gap by {
            if cycles_failed {
                assert(with_failure(files@[i], noted[i]));
            }
            assert(files@[i].gap_check_partial ==> files@[i].test_gap);
        }
    }
    let test_gap_files = files_with(&list, Finding::TestGap);
    let wide_blast_files = files_with(&list, Finding::WideBlast);
    let fix_heavy_files = files_with(&list, Finding::FixHeavy);
    let hotspot_files = files_with(&list, Finding::Hotspot);
    let max_risk_file = match riskiest(&list) {
        Some(i) => {
            assert(risk_diff::is_riskiest(noted, i as int));
            Some(list[i].file.clone())
        },
        None => None,
    };
    let summary_notes = summarize(&list, &cycles, cycles_failed, &high_score);
    let (flat, condensed) = cluster_by_directory(list, DIR_CLUSTER_THRESHOLD);
    let mut flat = flat;
    let mut condensed = condensed;
    let lists = lists_of(&flat, &condensed);
    let codes = legend_for(&lists);
    alias_files(&mut flat, &codes);
    alias_clusters(&mut condensed, &codes);
    assert(noted_failure(files@, noted, cycles_failed));
    RiskDiffAssessment {
        empty_input: false,
        files: flat,
        max_risk_file,
        test_gap_files,
        wide_blast_files,
        fix_heavy_files,
        hotspot_files,
        summary_notes,
        clustered_directories: condensed,
        cycles_touching_patch: cycles,
        legend: codes,
    }
}

} // verus!
