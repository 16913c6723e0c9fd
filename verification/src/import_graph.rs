//! The import graph between files: pairs joined by import directives, each
//! directive taken to the one file that it loads.
use vstd::prelude::*;
use vstd::string::*;
use crate::order;
use crate::order::{among, before};
use crate::text;
use crate::text::{finishes, same};

verus! {

/// An importing file and the file that it imports.
pub type Pair = (Seq<char>, Seq<char>);

/// The order of pairs: by the importing file, then by the imported one.
pub open spec fn pair_before(a: Pair, b: Pair) -> bool {
    order::text_before(a.0, b.0) || (a.0 == b.0 && order::text_before(a.1, b.1))
}

proof fn lemma_pair_before_irreflexive(a: Pair)
    ensures
        !pair_before(a, a),
{
    order::lemma_text_before_irreflexive(a.0);
    order::lemma_text_before_irreflexive(a.1);
}

proof fn lemma_pair_before_transitive(a: Pair, b: Pair, c: Pair)
    requires
        pair_before(a, b),
        pair_before(b, c),
    ensures
        pair_before(a, c),
{
    if order::text_before(a.0, b.0) && order::text_before(b.0, c.0) {
        order::lemma_text_before_transitive(a.0, b.0, c.0);
    } else if a.0 == b.0 && b.0 == c.0 {
        order::lemma_text_before_transitive(a.1, b.1, c.1);
    }
}

proof fn lemma_pair_before_total(a: Pair, b: Pair)
    ensures
        a == b || pair_before(a, b) || pair_before(b, a),
{
    order::lemma_text_before_total(a.0, b.0);
    order::lemma_text_before_total(a.1, b.1);
}

/// A file that declares types and loads nothing at run time.
pub open spec fn declaration(path: Seq<char>) -> bool {
    ||| text::ends_with(path, ".d.ts"@)
    ||| text::ends_with(path, ".d.mts"@)
    ||| text::ends_with(path, ".d.cts"@)
}

pub fn is_declaration_file(path: &str) -> (r: bool)
    ensures
        r == declaration(path@),
{
    finishes(path, ".d.ts") || finishes(path, ".d.mts") || finishes(path, ".d.cts")
}

// ---------------------------------------------------------------------------
// The file that a directive loads
// ---------------------------------------------------------------------------

/// A file that a directive may load, in the order in which its resolver looks,
/// and whether the index has it.
#[derive(Debug)]
pub struct LoadCandidate {
    pub path: String,
    pub indexed: bool,
}

/// The first candidate that is indexed and loads anything.
pub open spec fn first_loaded(candidates: Seq<LoadCandidate>) -> Option<Seq<char>>
    decreases candidates.len(),
{
    if candidates.len() == 0 {
        None
    } else {
        let before = first_loaded(candidates.drop_last());
        let c = candidates.last();
        if before is Some {
            before
        } else if c.indexed && !declaration(c.path@) {
            Some(c.path@)
        } else {
            None
        }
    }
}

/// The one file that a directive in `from` loads.
pub open spec fn loaded(from: Seq<char>, candidates: Seq<LoadCandidate>) -> Option<Seq<char>> {
    if declaration(from) {
        None
    } else {
        first_loaded(candidates)
    }
}

proof fn lemma_first_loaded_stays(candidates: Seq<LoadCandidate>, n: int)
    requires
        0 <= n <= candidates.len(),
        first_loaded(candidates.take(n)) is Some,
    ensures
        first_loaded(candidates) == first_loaded(candidates.take(n)),
    decreases candidates.len() - n,
{
    if n < candidates.len() {
        assert(candidates.take(n + 1).drop_last() =~= candidates.take(n));
        lemma_first_loaded_stays(candidates, n + 1);
    } else {
        assert(candidates.take(n) =~= candidates);
    }
}

/// The one file that a directive loads. A resolver stops at its first hit, and
/// a declaration file is neither an importer nor a target.
pub fn loaded_target(from: &str, candidates: &Vec<LoadCandidate>) -> (out: Option<String>)
    ensures
        text::view_opt(out) == loaded(from@, candidates@),
{
    if is_declaration_file(from) {
        return None;
    }
    let mut i: usize = 0;
    while i < candidates.len()
        invariant
            i <= candidates.len(),
            !declaration(from@),
            first_loaded(candidates@.take(i as int)) is None,
        decreases candidates.len() - i,
    {
        assert(candidates@.take(i + 1).drop_last() =~= candidates@.take(i as int));
        let c = &candidates[i];
        if c.indexed && !is_declaration_file(c.path.as_str()) {
            proof {
                lemma_first_loaded_stays(candidates@, i + 1);
            }
            return Some(c.path.clone());
        }
        i += 1;
    }
    assert(candidates@.take(candidates.len() as int) =~= candidates@);
    None
}

// ---------------------------------------------------------------------------
// Pairs
// ---------------------------------------------------------------------------

/// What is known after one more directive: a pair is lazy while every
/// directive that joins it is. A file does not import itself, and a
/// declaration file is no end of a pair.
pub open spec fn added(m: Map<Pair, bool>, pair: Pair, lazy: bool) -> Map<Pair, bool> {
    if pair.0 == pair.1 || declaration(pair.0) || declaration(pair.1) {
        m
    } else if m.dom().contains(pair) {
        m.insert(pair, m[pair] && lazy)
    } else {
        m.insert(pair, lazy)
    }
}

/// The order in which directives are met does not matter.
pub proof fn law_the_order_of_directives_does_not_matter(
    m: Map<Pair, bool>,
    p: Pair,
    p_lazy: bool,
    q: Pair,
    q_lazy: bool,
)
    ensures
        added(added(m, p, p_lazy), q, q_lazy) == added(added(m, q, q_lazy), p, p_lazy),
{
    assert(added(added(m, p, p_lazy), q, q_lazy) =~= added(added(m, q, q_lazy), p, p_lazy));
}

/// A pair that one directive joins at load time is never lazy again.
pub proof fn law_a_load_time_directive_stays(
    m: Map<Pair, bool>,
    p: Pair,
    q: Pair,
    lazy: bool,
)
    requires
        m.dom().contains(p),
        !m[p],
    ensures
        added(m, q, lazy).dom().contains(p),
        !added(m, q, lazy)[p],
{
}

/// No pair joins a file with itself, and none has a declaration file at an
/// end.
pub open spec fn sound(m: Map<Pair, bool>) -> bool {
    forall|p: Pair| #[trigger]
        m.dom().contains(p) ==> p.0 != p.1 && !declaration(p.0) && !declaration(p.1)
}

/// Whatever directives are met, no file comes to import itself and no
/// declaration file becomes an end of a pair.
pub proof fn law_no_file_imports_itself(
    m: Map<Pair, bool>,
    list: Seq<Pair>,
    lazy: bool,
    directives: Seq<PathDirective>,
    within: Option<Seq<Seq<char>>>,
)
    requires
        sound(m),
    ensures
        sound(with_pairs(m, list, lazy)),
        sound(with_directives(m, directives, within)),
    decreases list.len(), directives.len(),
{
    if list.len() > 0 {
        law_no_file_imports_itself(m, list.drop_last(), lazy, directives, within);
    } else if directives.len() > 0 {
        law_no_file_imports_itself(m, list, lazy, directives.drop_last(), within);
    }
}

#[derive(Debug)]
pub struct ImportEdge {
    pub from: String,
    pub to: String,
    pub lazy_only: bool,
}

impl ImportEdge {
    pub open spec fn pair(self) -> Pair {
        (self.from@, self.to@)
    }
}

/// The pairs of a list, each with its laziness.
pub open spec fn edge_map(edges: Seq<ImportEdge>) -> Map<Pair, bool>
    decreases edges.len(),
{
    if edges.len() == 0 {
        Map::empty()
    } else {
        edge_map(edges.drop_last()).insert(edges.last().pair(), edges.last().lazy_only)
    }
}

/// The pairs strictly ascend.
pub open spec fn edges_ascend(edges: Seq<ImportEdge>) -> bool {
    forall|i: int, j: int|
        0 <= i < j < edges.len() ==> pair_before(
            (#[trigger] edges[i]).pair(),
            (#[trigger] edges[j]).pair(),
        )
}

proof fn lemma_edge_map(edges: Seq<ImportEdge>)
    requires
        edges_ascend(edges),
    ensures
        forall|i: int|
            0 <= i < edges.len() ==> edge_map(edges).dom().contains((#[trigger] edges[i]).pair())
                && edge_map(edges)[edges[i].pair()] == edges[i].lazy_only,
        forall|k: Pair| #[trigger]
            edge_map(edges).dom().contains(k) ==> exists|i: int|
                0 <= i < edges.len() && (#[trigger] edges[i]).pair() == k,
    decreases edges.len(),
{
    if edges.len() > 0 {
        let less = edges.drop_last();
        let n = edges.len() - 1;
        assert forall|i: int, j: int| 0 <= i < j < less.len() implies pair_before(
            (#[trigger] less[i]).pair(),
            (#[trigger] less[j]).pair(),
        ) by {
            assert(less[i] == edges[i] && less[j] == edges[j]);
        }
        lemma_edge_map(less);
        assert forall|i: int| 0 <= i < edges.len() implies edge_map(edges).dom().contains(
            (#[trigger] edges[i]).pair(),
        ) && edge_map(edges)[edges[i].pair()] == edges[i].lazy_only by {
            if i < n {
                assert(less[i] == edges[i]);
                assert(pair_before(edges[i].pair(), edges[n].pair()));
                lemma_pair_before_irreflexive(edges[n].pair());
            }
        }
        assert forall|k: Pair| #[trigger] edge_map(edges).dom().contains(k) implies exists|i: int|
            0 <= i < edges.len() && (#[trigger] edges[i]).pair() == k by {
            if k == edges[n].pair() {
                assert(edges[n].pair() == k);
            } else {
                assert(edge_map(less).dom().contains(k));
                let i = choose|i: int| 0 <= i < less.len() && (#[trigger] less[i]).pair() == k;
                assert(less[i] == edges[i]);
                assert(edges[i].pair() == k);
            }
        }
    }
}

/// The edges of an import graph, without repetition and in order.
#[derive(Debug)]
pub struct PairSet {
    edges: Vec<ImportEdge>,
}

impl View for PairSet {
    type V = Map<Pair, bool>;

    closed spec fn view(&self) -> Map<Pair, bool> {
        edge_map(self.edges@)
    }
}

impl PairSet {
    /// The pairs ascend, none joins a file with itself, and none has a
    /// declaration file at an end.
    pub closed spec fn wf(self) -> bool {
        &&& edges_ascend(self.edges@)
        &&& forall|i: int|
            0 <= i < self.edges@.len() ==> (#[trigger] self.edges@[i]).from@ != self.edges@[i].to@
                && !declaration(self.edges@[i].from@) && !declaration(self.edges@[i].to@)
    }

    pub fn new() -> (out: Self)
        ensures
            out.wf(),
            out@ == Map::<Pair, bool>::empty(),
    {
        PairSet { edges: Vec::new() }
    }

    /// Takes note of one directive.
    pub fn add(&mut self, from: &str, to: &str, lazy_only: bool)
        requires
            old(self).wf(),
        ensures
            final(self).wf(),
            final(self)@ == added(old(self)@, (from@, to@), lazy_only),
    {
        if same(from, to) || is_declaration_file(from) || is_declaration_file(to) {
            return ;
        }
        let ghost s = self.edges@;
        let ghost p: Pair = (from@, to@);
        let mut i: usize = 0;
        while i < self.edges.len() && (before(self.edges[i].from.as_str(), from) || (same(
            self.edges[i].from.as_str(),
            from,
        ) && before(self.edges[i].to.as_str(), to)))
            invariant
                s == self.edges@,
                p == (from@, to@),
                i <= self.edges.len(),
                forall|j: int| 0 <= j < i ==> pair_before((#[trigger] s[j]).pair(), p),
            decreases self.edges.len() - i,
        {
            i += 1;
        }
        proof {
            lemma_edge_map(s);
            assert forall|j: int| 0 <= j < i implies (#[trigger] s[j]).pair() != p by {
                lemma_pair_before_irreflexive(p);
            }
        }
        if i < self.edges.len() && same(self.edges[i].from.as_str(), from) && same(
            self.edges[i].to.as_str(),
            to,
        ) {
            let e = ImportEdge {
                from: from.to_string(),
                to: to.to_string(),
                lazy_only: self.edges[i].lazy_only && lazy_only,
            };
            self.edges.set(i, e);
            proof {
                let t = self.edges@;
                assert forall|a: int, b: int| 0 <= a < b < t.len() implies pair_before(
                    (#[trigger] t[a]).pair(),
                    (#[trigger] t[b]).pair(),
                ) by {
                    assert(t[a].pair() == s[a].pair() && t[b].pair() == s[b].pair());
                }
                lemma_edge_map(t);
                assert forall|k: Pair| edge_map(t).dom().contains(k) == added(
                    edge_map(s),
                    p,
                    lazy_only,
                ).dom().contains(k) by {
                    if edge_map(t).dom().contains(k) {
                        let j = choose|j: int| 0 <= j < t.len() && (#[trigger] t[j]).pair() == k;
                        assert(s[j].pair() == k);
                    }
                    if edge_map(s).dom().contains(k) {
                        let j = choose|j: int| 0 <= j < s.len() && (#[trigger] s[j]).pair() == k;
                        assert(t[j].pair() == k);
                    }
                    assert(s[i as int].pair() == p);
                }
                assert forall|k: Pair| #[trigger] edge_map(t).dom().contains(k) implies edge_map(
                    t,
                )[k] == added(edge_map(s), p, lazy_only)[k] by {
                    let j = choose|j: int| 0 <= j < t.len() && (#[trigger] t[j]).pair() == k;
                    assert(s[j].pair() == k);
                    assert(s[i as int].pair() == p);
                }
                assert(edge_map(t) =~= added(edge_map(s), p, lazy_only));
            }
            return ;
        }
        proof {
            assert forall|j: int| i <= j < s.len() implies pair_before(p, (#[trigger] s[j]).pair()) by {
                lemma_pair_before_total(p, s[i as int].pair());
                if j > i {
                    assert(pair_before(s[i as int].pair(), s[j].pair()));
                    lemma_pair_before_transitive(p, s[i as int].pair(), s[j].pair());
                }
            }
        }
        let e = ImportEdge { from: from.to_string(), to: to.to_string(), lazy_only };
        self.edges.insert(i, e);
        proof {
            let t = self.edges@;
            assert(t == s.insert(i as int, e));
            assert forall|a: int, b: int| 0 <= a < b < t.len() implies pair_before(
                (#[trigger] t[a]).pair(),
                (#[trigger] t[b]).pair(),
            ) by {
                if b < i {
                    assert(t[a] == s[a] && t[b] == s[b]);
                } else if b == i {
                    assert(t[a] == s[a]);
                } else if a < i {
                    assert(t[a] == s[a] && t[b] == s[b - 1]);
                } else if a == i {
                    assert(t[b] == s[b - 1]);
                } else {
                    assert(t[a] == s[a - 1] && t[b] == s[b - 1]);
                }
            }
            lemma_edge_map(t);
            assert forall|j: int| i <= j < s.len() implies (#[trigger] s[j]).pair() != p by {
                lemma_pair_before_irreflexive(p);
            }
            assert(!edge_map(s).dom().contains(p));
            assert(t[i as int].pair() == p);
            assert forall|k: Pair| edge_map(t).dom().contains(k) == added(
                edge_map(s),
                p,
                lazy_only,
            ).dom().contains(k) by {
                if edge_map(t).dom().contains(k) {
                    let j = choose|j: int| 0 <= j < t.len() && (#[trigger] t[j]).pair() == k;
                    if j < i {
                        assert(s[j].pair() == k);
                    } else if j > i {
                        assert(s[j - 1].pair() == k);
                    }
                }
                if edge_map(s).dom().contains(k) {
                    let j = choose|j: int| 0 <= j < s.len() && (#[trigger] s[j]).pair() == k;
                    if j < i {
                        assert(t[j].pair() == k);
                    } else {
                        assert(t[j + 1].pair() == k);
                    }
                }
            }
            assert forall|k: Pair| #[trigger] edge_map(t).dom().contains(k) implies edge_map(t)[k]
                == added(edge_map(s), p, lazy_only)[k] by {
                let j = choose|j: int| 0 <= j < t.len() && (#[trigger] t[j]).pair() == k;
                if j < i {
                    assert(s[j].pair() == k);
                } else if j > i {
                    assert(s[j - 1].pair() == k);
                }
            }
            assert(edge_map(t) =~= added(edge_map(s), p, lazy_only));
            assert forall|j: int| 0 <= j < t.len() implies (#[trigger] t[j]).from@ != t[j].to@
                && !declaration(t[j].from@) && !declaration(t[j].to@) by {
                if j < i {
                    assert(t[j] == s[j]);
                } else if j > i {
                    assert(t[j] == s[j - 1]);
                }
            }
        }
    }
}

/// The pairs of a list.
pub open spec fn pairs(s: Seq<(String, String)>) -> Seq<Pair> {
    s.map_values(|p: (String, String)| (p.0@, p.1@))
}

/// `list` holds exactly the pairs of that laziness, in ascending order.
pub open spec fn lists(list: Seq<Pair>, m: Map<Pair, bool>, lazy: bool) -> bool {
    &&& forall|i: int, j: int|
        0 <= i < j < list.len() ==> pair_before(#[trigger] list[i], #[trigger] list[j])
    &&& forall|k: Pair| #[trigger]
        list.contains(k) <==> m.dom().contains(k) && m[k] == lazy
}

/// Every pair of an import graph, parted by whether a load-time directive
/// joins it.
#[derive(Debug)]
pub struct ImportPairs {
    pub eager: Vec<(String, String)>,
    pub lazy_only: Vec<(String, String)>,
}

impl ImportPairs {
    /// These are the pairs of `m`.
    pub open spec fn holds(self, m: Map<Pair, bool>) -> bool {
        lists(pairs(self.eager@), m, false) && lists(pairs(self.lazy_only@), m, true)
    }
}

/// The pairs of the edges of one laziness.
pub open spec fn picked(edges: Seq<ImportEdge>, lazy: bool) -> Seq<Pair>
    decreases edges.len(),
{
    if edges.len() == 0 {
        Seq::empty()
    } else if edges.last().lazy_only == lazy {
        picked(edges.drop_last(), lazy).push(edges.last().pair())
    } else {
        picked(edges.drop_last(), lazy)
    }
}

proof fn lemma_picked(edges: Seq<ImportEdge>, lazy: bool)
    requires
        edges_ascend(edges),
    ensures
        forall|i: int, j: int|
            0 <= i < j < picked(edges, lazy).len() ==> pair_before(
                #[trigger] picked(edges, lazy)[i],
                #[trigger] picked(edges, lazy)[j],
            ),
        forall|k: Pair| #[trigger]
            picked(edges, lazy).contains(k) <==> exists|i: int|
                0 <= i < edges.len() && (#[trigger] edges[i]).pair() == k && edges[i].lazy_only
                    == lazy,
    decreases edges.len(),
{
    let out = picked(edges, lazy);
    if edges.len() > 0 {
        let less = edges.drop_last();
        let n = edges.len() - 1;
        assert forall|i: int, j: int| 0 <= i < j < less.len() implies pair_before(
            (#[trigger] less[i]).pair(),
            (#[trigger] less[j]).pair(),
        ) by {
            assert(less[i] == edges[i] && less[j] == edges[j]);
        }
        lemma_picked(less, lazy);
        let was = picked(less, lazy);
        assert forall|i: int, j: int| 0 <= i < j < out.len() implies pair_before(
            #[trigger] out[i],
            #[trigger] out[j],
        ) by {
            if j < was.len() {
                assert(out[i] == was[i] && out[j] == was[j]);
            } else {
                assert(out[i] == was[i]);
                assert(was.contains(was[i]));
                let a = choose|a: int|
                    0 <= a < less.len() && (#[trigger] less[a]).pair() == was[i]
                        && less[a].lazy_only == lazy;
                assert(edges[a] == less[a]);
                assert(pair_before(edges[a].pair(), edges[n].pair()));
            }
        }
        assert forall|k: Pair| #[trigger] out.contains(k) <==> exists|i: int|
            0 <= i < edges.len() && (#[trigger] edges[i]).pair() == k && edges[i].lazy_only
                == lazy by {
            if out.contains(k) {
                let j = choose|j: int| 0 <= j < out.len() && out[j] == k;
                if j < was.len() {
                    assert(was[j] == k);
                    assert(was.contains(k));
                    let a = choose|a: int|
                        0 <= a < less.len() && (#[trigger] less[a]).pair() == k && less[a].lazy_only
                            == lazy;
                    assert(edges[a].pair() == k);
                } else {
                    assert(edges[n].pair() == k);
                }
            }
            if exists|i: int|
                0 <= i < edges.len() && (#[trigger] edges[i]).pair() == k && edges[i].lazy_only
                    == lazy {
                let i = choose|i: int|
                    0 <= i < edges.len() && (#[trigger] edges[i]).pair() == k && edges[i].lazy_only
                        == lazy;
                if i < n {
                    assert(less[i].pair() == k);
                    assert(was.contains(k));
                    let j = choose|j: int| 0 <= j < was.len() && was[j] == k;
                    assert(out[j] == k);
                } else {
                    assert(out[out.len() - 1] == k);
                }
            }
        }
    }
}

impl PairSet {
    /// The pairs in order, the eager ones and the lazy ones.
    pub fn into_import_pairs(self) -> (out: ImportPairs)
        requires
            self.wf(),
        ensures
            out.holds(self@),
    {
        let mut eager: Vec<(String, String)> = Vec::new();
        let mut lazy_only: Vec<(String, String)> = Vec::new();
        let ghost s = self.edges@;
        let mut i: usize = 0;
        while i < self.edges.len()
            invariant
                i <= self.edges.len(),
                s == self.edges@,
                pairs(eager@) == picked(s.take(i as int), false),
                pairs(lazy_only@) == picked(s.take(i as int), true),
            decreases self.edges.len() - i,
        {
            assert(s.take(i + 1).drop_last() =~= s.take(i as int));
            let e = &self.edges[i];
            let pair = (e.from.clone(), e.to.clone());
            if e.lazy_only {
                assert(pairs(lazy_only@.push(pair)) =~= pairs(lazy_only@).push(e.pair()));
                lazy_only.push(pair);
            } else {
                assert(pairs(eager@.push(pair)) =~= pairs(eager@).push(e.pair()));
                eager.push(pair);
            }
            i += 1;
        }
        assert(s.take(s.len() as int) =~= s);
        proof {
            lemma_picked(s, false);
            lemma_picked(s, true);
            lemma_edge_map(s);
            assert forall|k: Pair, lazy: bool| #[trigger]
                picked(s, lazy).contains(k) <==> edge_map(s).dom().contains(k) && edge_map(s)[k]
                    == lazy by {
                if picked(s, lazy).contains(k) {
                    let a = choose|a: int|
                        0 <= a < s.len() && (#[trigger] s[a]).pair() == k && s[a].lazy_only == lazy;
                    assert(edge_map(s).dom().contains(s[a].pair()));
                }
                if edge_map(s).dom().contains(k) {
                    let a = choose|a: int| 0 <= a < s.len() && (#[trigger] s[a]).pair() == k;
                    assert(edge_map(s)[s[a].pair()] == s[a].lazy_only);
                }
            }
        }
        ImportPairs { eager, lazy_only }
    }
}

// ---------------------------------------------------------------------------
// The graph
// ---------------------------------------------------------------------------

/// One import directive that names a path, with the files that it may load.
#[derive(Debug)]
pub struct PathDirective {
    pub from: String,
    pub candidates: Vec<LoadCandidate>,
    pub lazy_only: bool,
}

/// The graph after pairs of one laziness.
pub open spec fn with_pairs(m: Map<Pair, bool>, list: Seq<Pair>, lazy: bool) -> Map<Pair, bool>
    decreases list.len(),
{
    if list.len() == 0 {
        m
    } else {
        added(with_pairs(m, list.drop_last(), lazy), list.last(), lazy)
    }
}

/// A file that counts: any, or one of those listed.
pub open spec fn counts(within: Option<Seq<Seq<char>>>, file: Seq<char>) -> bool {
    within is Some ==> within->0.contains(file)
}

/// The graph after directives, of which those count whose target does.
pub open spec fn with_directives(
    m: Map<Pair, bool>,
    list: Seq<PathDirective>,
    within: Option<Seq<Seq<char>>>,
) -> Map<Pair, bool>
    decreases list.len(),
{
    if list.len() == 0 {
        m
    } else {
        let before = with_directives(m, list.drop_last(), within);
        let d = list.last();
        match loaded(d.from@, d.candidates@) {
            Some(to) => if counts(within, to) {
                added(before, (d.from@, to), d.lazy_only)
            } else {
                before
            },
            None => before,
        }
    }
}

impl PairSet {
    fn add_pairs(&mut self, list: &Vec<(String, String)>, lazy: bool)
        requires
            old(self).wf(),
        ensures
            final(self).wf(),
            final(self)@ == with_pairs(old(self)@, pairs(list@), lazy),
    {
        let ghost m = self@;
        let ghost all = pairs(list@);
        let mut i: usize = 0;
        while i < list.len()
            invariant
                i <= list.len(),
                all == pairs(list@),
                self.wf(),
                self@ == with_pairs(m, all.take(i as int), lazy),
            decreases list.len() - i,
        {
            assert(all.take(i + 1).drop_last() =~= all.take(i as int));
            self.add(list[i].0.as_str(), list[i].1.as_str(), lazy);
            i += 1;
        }
        assert(all.take(list.len() as int) =~= all);
    }

    fn add_directives(&mut self, list: &Vec<PathDirective>, within: Option<&Vec<String>>)
        requires
            old(self).wf(),
        ensures
            final(self).wf(),
            final(self)@ == with_directives(
                old(self)@,
                list@,
                match within {
                    Some(v) => Some(text::views(v@)),
                    None => None,
                },
            ),
    {
        let ghost m = self@;
        let ghost w = match within {
            Some(v) => Some(text::views(v@)),
            None => None,
        };
        let mut i: usize = 0;
        while i < list.len()
            invariant
                i <= list.len(),
                self.wf(),
                w == match within {
                    Some(v) => Some(text::views(v@)),
                    None => None,
                },
                self@ == with_directives(m, list@.take(i as int), w),
            decreases list.len() - i,
        {
            assert(list@.take(i + 1).drop_last() =~= list@.take(i as int));
            let d = &list[i];
            if let Some(to) = loaded_target(d.from.as_str(), &d.candidates) {
                let taken = match within {
                    Some(v) => among(v, to.as_str()),
                    None => true,
                };
                if taken {
                    self.add(d.from.as_str(), to.as_str(), d.lazy_only);
                }
            }
            i += 1;
        }
        assert(list@.take(list.len() as int) =~= list@);
    }
}

/// Every import pair between files: the pairs that symbols join, and those
/// that directives naming a path join.
pub fn file_import_pairs(
    eager: &Vec<(String, String)>,
    lazy_only: &Vec<(String, String)>,
    directives: &Vec<PathDirective>,
) -> (out: ImportPairs)
    ensures
        out.holds(
            with_directives(
                with_pairs(with_pairs(Map::empty(), pairs(eager@), false), pairs(lazy_only@), true),
                directives@,
                None,
            ),
        ),
{
    let mut set = PairSet::new();
    set.add_pairs(eager, false);
    set.add_pairs(lazy_only, true);
    set.add_directives(directives, None);
    set.into_import_pairs()
}

/// The load-time import edges with both ends among `files`, from the edges
/// that symbols join there and from the directives of those files. Which file
/// a directive loads is decided against the whole index: one whose first hit
/// lies outside is no edge.
pub fn import_edges_within(
    files: &Vec<String>,
    edges: &Vec<(String, String)>,
    directives: &Vec<PathDirective>,
) -> (out: Vec<(String, String)>)
    ensures
        files.len() < 2 ==> out.len() == 0,
        files.len() >= 2 ==> lists(
            pairs(out@),
            with_directives(
                with_pairs(Map::empty(), pairs(edges@), false),
                directives@,
                Some(text::views(files@)),
            ),
            false,
        ),
{
    if files.len() < 2 {
        return Vec::new();
    }
    let mut set = PairSet::new();
    set.add_pairs(edges, false);
    set.add_directives(directives, Some(files));
    set.into_import_pairs().eager
}

} // verus!
