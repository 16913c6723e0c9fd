//! The shortest call chain between two symbols.
//!
//! [`CallSearch`] is a breadth-first search. The caller reads the callees of
//! the node that [`CallSearch::next_node`] names and hands them to
//! [`CallSearch::expand`].
use vstd::prelude::*;
use vstd::string::*;
use crate::impact;
use crate::model;
use crate::model::{Reference, ReferenceKind, Symbol};
use crate::symbols;
use crate::symbols::{has_symbol, same_symbol};
use crate::text;
use crate::text::{concat3, concat5, decimal_of, same};

verus! {

/// Bound on the symbols that a search visits.
pub const MAX_VISITED: usize = 4000;

/// Bound on the call sites that are looked at in one symbol.
pub const MAX_REFS_PER_SYMBOL: usize = 200;

/// A reference that transfers control. Imports and type relations prove no
/// call; a route handler is called by its framework.
pub open spec fn call_edge(kind: ReferenceKind) -> bool {
    kind == ReferenceKind::Call || kind == ReferenceKind::Instantiation || kind
        == ReferenceKind::RouteHandler
}

pub fn is_call_edge(kind: ReferenceKind) -> (r: bool)
    ensures
        r == call_edge(kind),
{
    kind == ReferenceKind::Call || kind == ReferenceKind::Instantiation || kind
        == ReferenceKind::RouteHandler
}

/// A step of a call chain.
#[derive(Debug)]
pub struct CallPathStep {
    pub name: String,
    pub qualified_name: String,
    pub file_path: String,
    pub line_start: u32,
    /// Where the step before calls this one.
    pub call_line: Option<u32>,
}

pub open spec fn step(s: Symbol, call_line: Option<u32>) -> CallPathStep {
    CallPathStep {
        name: s.name,
        qualified_name: s.qualified_name,
        file_path: s.file_path,
        line_start: s.line_start,
        call_line: call_line,
    }
}

pub fn step_of(s: &Symbol, call_line: Option<u32>) -> (out: CallPathStep)
    ensures
        out == step(*s, call_line),
{
    CallPathStep {
        name: s.name.clone(),
        qualified_name: s.qualified_name.clone(),
        file_path: s.file_path.clone(),
        line_start: s.line_start,
        call_line,
    }
}

#[derive(Debug)]
pub struct CallPathReport {
    pub found: bool,
    pub steps: Vec<CallPathStep>,
    pub length: usize,
    pub note: Option<String>,
    /// The search stopped at a bound.
    pub bounded: bool,
    /// Edges come from resolved names and are lower bounds.
    pub counts_floor: bool,
}

pub fn unfound(note: String, bounded: bool) -> (out: CallPathReport)
    ensures
        !out.found,
        out.steps@.len() == 0,
        out.length == 0,
        out.note == Some(note),
        out.bounded == bounded,
        out.counts_floor,
{
    CallPathReport {
        found: false,
        steps: Vec::new(),
        length: 0,
        note: Some(note),
        bounded,
        counts_floor: true,
    }
}

// ---------------------------------------------------------------------------
// Callees
// ---------------------------------------------------------------------------

/// A row that is looked at for `sym`: a call that `sym` itself makes, or whose
/// owner is unknown.
pub open spec fn own_call(sym: Symbol, r: Reference) -> bool {
    call_edge(r.kind) && match r.from_symbol {
        Some(owner) => owner@ == sym.qualified_name@,
        None => true,
    }
}

/// The positions of the rows that are looked at, before the bound.
pub open spec fn own_calls(sym: Symbol, rows: Seq<Reference>) -> Seq<int>
    decreases rows.len(),
{
    if rows.len() == 0 {
        Seq::empty()
    } else if own_call(sym, rows.last()) {
        own_calls(sym, rows.drop_last()).push(rows.len() - 1)
    } else {
        own_calls(sym, rows.drop_last())
    }
}

pub open spec fn positions(v: Seq<usize>) -> Seq<int> {
    v.map_values(|i: usize| i as int)
}

proof fn lemma_own_calls_grow(sym: Symbol, rows: Seq<Reference>, n: int)
    requires
        0 <= n <= rows.len(),
    ensures
        own_calls(sym, rows.take(n)).is_prefix_of(own_calls(sym, rows)),
    decreases rows.len() - n,
{
    let a = own_calls(sym, rows.take(n));
    if n < rows.len() {
        lemma_own_calls_grow(sym, rows, n + 1);
        assert(rows.take(n + 1).drop_last() =~= rows.take(n));
        let b = own_calls(sym, rows.take(n + 1));
        let c = own_calls(sym, rows);
        assert(a =~= b.subrange(0, a.len() as int));
        assert(a =~= c.subrange(0, a.len() as int));
    } else {
        assert(rows.take(n) =~= rows);
        assert(a =~= a.subrange(0, a.len() as int));
    }
}

/// The call sites of `sym` among the references in its range, at most two
/// hundred.
pub fn call_sites(sym: &Symbol, rows: &Vec<Reference>) -> (out: Vec<usize>)
    ensures
        positions(out@) == impact::at_most(own_calls(*sym, rows@), MAX_REFS_PER_SYMBOL),
        forall|k: int| 0 <= k < out@.len() ==> (#[trigger] out@[k]) < rows@.len(),
{
    let mut out: Vec<usize> = Vec::new();
    let mut i: usize = 0;
    assert(rows@.take(0) =~= Seq::empty());
    assert(positions(out@) =~= Seq::empty());
    while i < rows.len() && out.len() < MAX_REFS_PER_SYMBOL
        invariant
            i <= rows.len(),
            out.len() <= MAX_REFS_PER_SYMBOL,
            positions(out@) == own_calls(*sym, rows@.take(i as int)),
            forall|k: int| 0 <= k < out@.len() ==> (#[trigger] out@[k]) < i,
        decreases rows.len() - i,
    {
        let r = &rows[i];
        assert(rows@.take(i + 1).drop_last() =~= rows@.take(i as int));
        assert(rows@.take(i + 1).last() == r);
        let owned = match &r.from_symbol {
            Some(owner) => same(owner.as_str(), sym.qualified_name.as_str()),
            None => true,
        };
        if is_call_edge(r.kind) && owned {
            let ghost was = out@;
            out.push(i);
            assert(positions(out@) =~= positions(was).push(i as int));
        }
        i += 1;
    }
    proof {
        lemma_own_calls_grow(*sym, rows@, i as int);
        let all = own_calls(*sym, rows@);
        if i < rows.len() {
            assert(impact::at_most(all, MAX_REFS_PER_SYMBOL) =~= positions(out@));
        } else {
            assert(rows@.take(i as int) =~= rows@);
        }
    }
    out
}

/// A definition that is called, with the line of the call.
#[derive(Debug)]
pub struct Callee {
    pub symbol: Symbol,
    pub line: u32,
}

pub open spec fn callee_keys(v: Seq<Callee>) -> Seq<model::SymbolKey> {
    v.map_values(|c: Callee| c.symbol.key())
}

/// `out` with the definitions of one call site: not the caller itself, and
/// each definition once.
pub open spec fn with_callees(out: Seq<Callee>, sym: Symbol, defs: Seq<Symbol>, line: u32) -> Seq<
    Callee,
>
    decreases defs.len(),
{
    if defs.len() == 0 {
        out
    } else {
        let front = with_callees(out, sym, defs.drop_last(), line);
        let d = defs.last();
        if d.key() == sym.key() || callee_keys(front).contains(d.key()) {
            front
        } else {
            front.push(Callee { symbol: d, line: line })
        }
    }
}

/// The callees of `sym` from its call sites and the definitions that each
/// resolves to.
pub open spec fn callees(
    sym: Symbol,
    rows: Seq<Reference>,
    sites: Seq<usize>,
    resolved: Seq<Vec<Symbol>>,
) -> Seq<Callee>
    decreases sites.len(),
{
    if sites.len() == 0 {
        Seq::empty()
    } else {
        with_callees(
            callees(sym, rows, sites.drop_last(), resolved),
            sym,
            resolved[sites.len() - 1]@,
            rows[sites.last() as int].line,
        )
    }
}

fn has_callee(v: &Vec<Callee>, s: &Symbol) -> (r: bool)
    ensures
        r == callee_keys(v@).contains(s.key()),
{
    let mut i: usize = 0;
    while i < v.len()
        invariant
            i <= v.len(),
            forall|j: int| 0 <= j < i ==> callee_keys(v@)[j] != s.key(),
        decreases v.len() - i,
    {
        if same_symbol(&v[i].symbol, s) {
            assert(callee_keys(v@)[i as int] == s.key());
            return true;
        }
        i += 1;
    }
    false
}

/// The definitions that `sym` calls, each once with the line of its first
/// call site. `resolved` holds, for each site, what its name resolves to.
pub fn callees_of(
    sym: &Symbol,
    rows: &Vec<Reference>,
    sites: &Vec<usize>,
    resolved: &Vec<Vec<Symbol>>,
) -> (out: Vec<Callee>)
    requires
        sites@.len() == resolved@.len(),
        forall|k: int| 0 <= k < sites@.len() ==> (#[trigger] sites@[k]) < rows@.len(),
    ensures
        out@ == callees(*sym, rows@, sites@, resolved@),
{
    let mut out: Vec<Callee> = Vec::new();
    let mut k: usize = 0;
    assert(sites@.take(0) =~= Seq::empty());
    while k < sites.len()
        invariant
            k <= sites.len(),
            sites@.len() == resolved@.len(),
            forall|k: int| 0 <= k < sites@.len() ==> (#[trigger] sites@[k]) < rows@.len(),
            out@ == callees(*sym, rows@, sites@.take(k as int), resolved@),
        decreases sites.len() - k,
    {
        assert(sites@.take(k + 1).drop_last() =~= sites@.take(k as int));
        assert(sites@.take(k + 1).last() == sites@[k as int]);
        let line: u32 = rows[sites[k]].line;
        let defs = &resolved[k];
        let ghost base = out@;
        let mut i: usize = 0;
        assert(defs@.take(0) =~= Seq::empty());
        while i < defs.len()
            invariant
                i <= defs.len(),
                out@ == with_callees(base, *sym, defs@.take(i as int), line),
            decreases defs.len() - i,
        {
            assert(defs@.take(i + 1).drop_last() =~= defs@.take(i as int));
            assert(defs@.take(i + 1).last() == defs@[i as int]);
            let d = &defs[i];
            if !same_symbol(d, sym) && !has_callee(&out, d) {
                out.push(Callee { symbol: d.clone(), line });
            }
            i += 1;
        }
        assert(defs@.take(defs@.len() as int) =~= defs@);
        k += 1;
    }
    assert(sites@.take(sites@.len() as int) =~= sites@);
    out
}

// ---------------------------------------------------------------------------
// The search
// ---------------------------------------------------------------------------

/// A visited symbol: how many calls away it is, and which call found it.
#[derive(Debug)]
pub struct Node {
    pub symbol: Symbol,
    pub depth: usize,
    /// The node whose body calls it; `None` for an origin.
    pub parent: Option<usize>,
    pub call_line: Option<u32>,
}

/// A breadth-first search. The nodes stand in the order they were found; those
/// before `head` are done.
#[derive(Debug)]
pub struct CallSearch {
    pub nodes: Vec<Node>,
    pub head: usize,
    pub targets: Vec<Symbol>,
    pub max_depth: usize,
    pub hit_bound: bool,
}

pub open spec fn node_keys(v: Seq<Node>) -> Seq<model::SymbolKey> {
    v.map_values(|n: Node| n.symbol.key())
}

fn has_node(v: &Vec<Node>, s: &Symbol) -> (r: bool)
    ensures
        r == node_keys(v@).contains(s.key()),
{
    let mut i: usize = 0;
    while i < v.len()
        invariant
            i <= v.len(),
            forall|j: int| 0 <= j < i ==> node_keys(v@)[j] != s.key(),
        decreases v.len() - i,
    {
        if same_symbol(&v[i].symbol, s) {
            assert(node_keys(v@)[i as int] == s.key());
            return true;
        }
        i += 1;
    }
    false
}

/// The position of the first of `s` that is a target, from `i` on.
pub open spec fn first_target(s: Seq<Symbol>, targets: Seq<Symbol>, i: int) -> Option<int>
    decreases s.len() - i,
{
    if i < 0 || i >= s.len() {
        None
    } else if symbols::keys(targets).contains(s[i].key()) {
        Some(i)
    } else {
        first_target(s, targets, i + 1)
    }
}

/// The nodes of a search that begins at `origins`.
pub open spec fn origin_nodes(origins: Seq<Symbol>) -> Seq<Node>
    decreases origins.len(),
{
    if origins.len() == 0 {
        Seq::empty()
    } else {
        let front = origin_nodes(origins.drop_last());
        let o = origins.last();
        if node_keys(front).contains(o.key()) {
            front
        } else {
            front.push(Node { symbol: o, depth: 0, parent: None, call_line: None })
        }
    }
}

/// How a search begins.
#[derive(Debug)]
pub enum Start {
    /// The answer is known without a search.
    Answer(CallPathReport),
    Search(CallSearch),
}

/// Begins a search: a name without definitions is not found, an origin that
/// is a target is a chain of one, and else every origin is a seed of equal
/// depth.
pub fn begin(from: &str, to: &str, origins: &Vec<Symbol>, targets: Vec<Symbol>, max_depth: usize) -> (out:
    Start)
    ensures
        origins@.len() == 0 ==> {
            &&& out matches Start::Answer(r) && !r.found && !r.bounded && r.steps@.len() == 0
                && r.length == 0 && r.counts_floor && text::view_opt(r.note) == Some(
                "symbol '"@ + from@ + "' not found"@,
            )
        },
        origins@.len() > 0 && targets@.len() == 0 ==> {
            &&& out matches Start::Answer(r) && !r.found && !r.bounded && r.steps@.len() == 0
                && r.length == 0 && r.counts_floor && text::view_opt(r.note) == Some(
                "symbol '"@ + to@ + "' not found"@,
            )
        },
        origins@.len() > 0 && targets@.len() > 0 ==> match first_target(origins@, targets@, 0) {
            Some(i) => {
                &&& out matches Start::Answer(r) && r.found && !r.bounded && r.length == 0
                    && r.counts_floor && r.steps@ == seq![step(origins@[i], None)] && text::view_opt(r.note) == Some(
                    "origin and target are the same symbol"@,
                )
            },
            None => {
                &&& out matches Start::Search(s) && s.nodes@ == origin_nodes(origins@) && s.head == 0
                    && s.targets == targets && s.max_depth == max_depth && !s.hit_bound
            },
        },
{
    if origins.len() == 0 {
        return Start::Answer(unfound(concat3("symbol '", from, "' not found"), false));
    }
    if targets.len() == 0 {
        return Start::Answer(unfound(concat3("symbol '", to, "' not found"), false));
    }
    let mut nodes: Vec<Node> = Vec::new();
    let mut i: usize = 0;
    assert(origins@.take(0) =~= Seq::empty());
    while i < origins.len()
        invariant
            i <= origins.len(),
            origins@.len() > 0,
            targets@.len() > 0,
            first_target(origins@, targets@, 0) == first_target(origins@, targets@, i as int),
            nodes@ == origin_nodes(origins@.take(i as int)),
        decreases origins.len() - i,
    {
        let o = &origins[i];
        assert(origins@.take(i + 1).drop_last() =~= origins@.take(i as int));
        assert(origins@.take(i + 1).last() == o);
        if has_symbol(&targets, o) {
            let mut steps: Vec<CallPathStep> = Vec::new();
            steps.push(step_of(o, None));
            assert(steps@ =~= seq![step(*o, None)]);
            return Start::Answer(
                CallPathReport {
                    found: true,
                    steps,
                    length: 0,
                    note: Some(String::from_str("origin and target are the same symbol")),
                    bounded: false,
                    counts_floor: true,
                },
            );
        }
        if !has_node(&nodes, o) {
            nodes.push(Node { symbol: o.clone(), depth: 0, parent: None, call_line: None });
        }
        i += 1;
    }
    assert(origins@.take(origins@.len() as int) =~= origins@);
    Start::Search(CallSearch { nodes, head: 0, targets, max_depth, hit_bound: false })
}

/// The nodes after the callees of the node at `i` were seen.
pub open spec fn discovered(nodes: Seq<Node>, found: Seq<Callee>, i: int) -> Seq<Node>
    decreases found.len(),
{
    if found.len() == 0 {
        nodes
    } else {
        let front = discovered(nodes, found.drop_last(), i);
        let c = found.last();
        if node_keys(front).contains(c.symbol.key()) {
            front
        } else {
            front.push(
                Node {
                    symbol: c.symbol,
                    depth: (nodes[i].depth + 1) as usize,
                    parent: Some(i as usize),
                    call_line: Some(c.line),
                },
            )
        }
    }
}

/// The definitions that callees are.
pub open spec fn callee_symbols(v: Seq<Callee>) -> Seq<Symbol> {
    v.map_values(|c: Callee| c.symbol)
}

/// The chain of calls from an origin to the node at `i`.
pub open spec fn chain(nodes: Seq<Node>, i: int) -> Seq<CallPathStep>
    decreases i,
{
    let here = seq![step(nodes[i].symbol, nodes[i].call_line)];
    match nodes[i].parent {
        Some(p) => if 0 <= p < i {
            chain(nodes, p as int) + here
        } else {
            here
        },
        None => here,
    }
}

fn chain_of(nodes: &Vec<Node>, i: usize) -> (out: Vec<CallPathStep>)
    requires
        i < nodes@.len(),
    ensures
        out@ == chain(nodes@, i as int),
    decreases i,
{
    let here = step_of(&nodes[i].symbol, nodes[i].call_line);
    let mut out: Vec<CallPathStep> = match nodes[i].parent {
        Some(p) => if p < i {
            chain_of(nodes, p)
        } else {
            Vec::new()
        },
        None => Vec::new(),
    };
    let ghost before = out@;
    out.push(here);
    assert(out@ =~= before + seq![here]);
    assert(Seq::<CallPathStep>::empty() + seq![here] =~= seq![here]);
    out
}

impl CallSearch {
    /// A node is passed over at the depth bound only where the bound is marked
    /// as hit.
    pub open spec fn skips_are_marked(self) -> bool {
        !self.hit_bound ==> forall|j: int|
            0 <= j < self.head && j < self.nodes@.len() ==> (#[trigger] self.nodes@[j]).depth
                < self.max_depth
    }

    /// The next node to expand. A node at the depth bound is passed over, and
    /// the search ends where it has visited too many; both are bounds.
    pub fn next_node(&mut self) -> (r: Option<usize>)
        ensures
            final(self).nodes == old(self).nodes,
            final(self).targets == old(self).targets,
            final(self).max_depth == old(self).max_depth,
            ({
                let (head, hit, at) = next_at(*old(self), old(self).head as int, old(self).hit_bound);
                &&& final(self).head == head
                &&& final(self).hit_bound == hit
                &&& match r {
                    Some(i) => at == Some(i as int) && i < final(self).nodes@.len()
                        && final(self).nodes@[i as int].depth < final(self).max_depth
                        && final(self).head == i + 1,
                    None => at is None,
                }
            }),
            old(self).skips_are_marked() ==> final(self).skips_are_marked(),
    {
        while self.head < self.nodes.len()
            invariant
                old(self).skips_are_marked() ==> self.skips_are_marked(),
                self.nodes == old(self).nodes,
                self.targets == old(self).targets,
                self.max_depth == old(self).max_depth,
                next_at(*old(self), old(self).head as int, old(self).hit_bound) == next_at(
                    *old(self),
                    self.head as int,
                    self.hit_bound,
                ),
            decreases self.nodes.len() - self.head,
        {
            let i: usize = self.head;
            self.head = i + 1;
            if self.nodes[i].depth >= self.max_depth {
                self.hit_bound = true;
            } else if self.nodes.len() >= MAX_VISITED {
                self.hit_bound = true;
                self.head = self.nodes.len();
                return None;
            } else {
                return Some(i);
            }
        }
        None
    }

    /// Takes in the callees of the node at `i`. Where one is a target, the
    /// chain to it is the answer; else the new ones join the search.
    pub fn expand(&mut self, i: usize, found: &Vec<Callee>) -> (r: Option<CallPathReport>)
        requires
            i < old(self).nodes@.len(),
            old(self).nodes@[i as int].depth < old(self).max_depth,
        ensures
            match first_target(callee_symbols(found@), old(self).targets@, 0) {
                Some(t) => {
                    &&& r matches Some(report) && report.found && !report.bounded && report.note
                        is None && report.steps@ == chain(old(self).nodes@, i as int) + seq![
                        step(found@[t].symbol, Some(found@[t].line)),
                    ] && report.length == report.steps@.len() - 1 && report.counts_floor
                    &&& final(self).nodes@ == discovered(old(self).nodes@, found@.take(t), i as int)
                    &&& *final(self) == (CallSearch { nodes: final(self).nodes, ..*old(self) })
                },
                None => {
                    &&& r is None
                    &&& final(self).nodes@ == discovered(old(self).nodes@, found@, i as int)
                    &&& *final(self) == (CallSearch { nodes: final(self).nodes, ..*old(self) })
                    &&& old(self).skips_are_marked() && old(self).head <= old(self).nodes@.len()
                        ==> final(self).skips_are_marked()
                },
            },
    {
        let ghost syms = callee_symbols(found@);
        let depth: usize = self.nodes[i].depth + 1;
        let ghost nodes = self.nodes@;
        let mut k: usize = 0;
        assert(found@.take(0) =~= Seq::empty());
        while k < found.len()
            invariant
                k <= found.len(),
                i < nodes.len(),
                nodes == old(self).nodes@,
                syms == callee_symbols(found@),
                depth == nodes[i as int].depth + 1,
                first_target(syms, old(self).targets@, 0) == first_target(
                    syms,
                    old(self).targets@,
                    k as int,
                ),
                self.nodes@ == discovered(nodes, found@.take(k as int), i as int),
                nodes.is_prefix_of(self.nodes@),
                *self == (CallSearch { nodes: self.nodes, ..*old(self) }),
            decreases found.len() - k,
        {
            let c = &found[k];
            assert(syms[k as int] == c.symbol);
            assert(found@.take(k + 1).drop_last() =~= found@.take(k as int));
            assert(found@.take(k + 1).last() == c);
            if has_symbol(&self.targets, &c.symbol) {
                let mut steps = chain_of(&self.nodes, i);
                proof {
                    lemma_chain_prefix(nodes, self.nodes@, i as int);
                }
                let ghost before = steps@;
                steps.push(step_of(&c.symbol, Some(c.line)));
                assert(steps@ =~= before + seq![step(c.symbol, Some(c.line))]);
                let length: usize = steps.len() - 1;
                return Some(
                    CallPathReport {
                        found: true,
                        steps,
                        length,
                        note: None,
                        bounded: false,
                        counts_floor: true,
                    },
                );
            }
            if !has_node(&self.nodes, &c.symbol) {
                let ghost was = self.nodes@;
                self.nodes.push(
                    Node {
                        symbol: c.symbol.clone(),
                        depth,
                        parent: Some(i),
                        call_line: Some(c.line),
                    },
                );
                assert(nodes =~= self.nodes@.subrange(0, nodes.len() as int)) by {
                    assert(nodes =~= was.subrange(0, nodes.len() as int));
                }
            }
            k += 1;
        }
        assert(found@.take(found@.len() as int) =~= found@);
        assert(forall|j: int| 0 <= j < nodes.len() ==> (#[trigger] self.nodes@[j]) == nodes[j]) by {
            assert(nodes =~= self.nodes@.subrange(0, nodes.len() as int));
        }
        None
    }

    /// The answer of a search that found nothing.
    pub fn give_up(&self, from: &str, to: &str) -> (out: CallPathReport)
        ensures
            !out.found,
            out.steps@.len() == 0,
            out.length == 0,
            out.counts_floor,
            out.bounded == self.hit_bound,
            text::view_opt(out.note) == Some(
                if self.hit_bound {
                    "no call chain within "@ + text::decimal(self.max_depth as nat) + (if self.max_depth
                        == 1 {
                        " hop"@
                    } else {
                        " hops"@
                    })
                        + " via resolved name-based edges (search stopped at a bound, so a longer path may exist)"@
                } else {
                    "'"@ + from@ + "' does not reach '"@ + to@
                        + "' through any resolved name-based call edge in the index; dynamic dispatch, reflection, and callbacks leave no edge, so this is not proof no path exists"@
                },
            ),
    {
        let note = if self.hit_bound {
            let n = decimal_of(self.max_depth as u64);
            let hops = if self.max_depth == 1 {
                " hop"
            } else {
                " hops"
            };
            let mut note = concat3("no call chain within ", n.as_str(), hops);
            note.append(
                " via resolved name-based edges (search stopped at a bound, so a longer path may exist)",
            );
            note
        } else {
            concat5(
                "'",
                from,
                "' does not reach '",
                to,
                "' through any resolved name-based call edge in the index; dynamic dispatch, reflection, and callbacks leave no edge, so this is not proof no path exists",
            )
        };
        unfound(note, self.hit_bound)
    }
}

/// Where the search stands after looking for the next node from `head` on:
/// the new head, whether a bound was hit, and the node.
pub open spec fn next_at(s: CallSearch, head: int, hit: bool) -> (int, bool, Option<int>)
    decreases s.nodes@.len() - head,
{
    if head < 0 || head >= s.nodes@.len() {
        (head, hit, None)
    } else if s.nodes@[head].depth >= s.max_depth {
        next_at(s, head + 1, true)
    } else if s.nodes@.len() >= MAX_VISITED {
        (s.nodes@.len() as int, true, None)
    } else {
        (head + 1, hit, Some(head))
    }
}

proof fn lemma_chain_prefix(a: Seq<Node>, b: Seq<Node>, i: int)
    requires
        0 <= i < a.len(),
        a.is_prefix_of(b),
    ensures
        chain(a, i) == chain(b, i),
    decreases i,
{
    assert(a[i] == b[i]) by {
        assert(a =~= b.subrange(0, a.len() as int));
    }
    match a[i].parent {
        Some(p) => {
            if p < i {
                lemma_chain_prefix(a, b, p as int);
            }
        },
        None => {},
    }
}

// ---------------------------------------------------------------------------
// The chain that is found is a shortest one
// ---------------------------------------------------------------------------

/// Which definitions each definition calls.
pub type CallGraph = spec_fn(model::SymbolKey) -> Seq<model::SymbolKey>;

/// `p` is a chain of calls: each of its definitions calls the next.
pub open spec fn is_call_chain(g: CallGraph, p: Seq<model::SymbolKey>) -> bool {
    &&& p.len() > 0
    &&& forall|k: int| 0 <= k < p.len() - 1 ==> (#[trigger] g(p[k])).contains(p[k + 1])
}

/// A definition was visited, no more than `depth` calls from an origin.
pub open spec fn visited_within(nodes: Seq<Node>, key: model::SymbolKey, depth: int) -> bool {
    exists|j: int|
        0 <= j < nodes.len() && (#[trigger] nodes[j]).symbol.key() == key && nodes[j].depth <= depth
}

/// Every origin was visited at depth zero.
pub open spec fn origins_visited(nodes: Seq<Node>, origins: Seq<model::SymbolKey>) -> bool {
    forall|k: int| 0 <= k < origins.len() ==> visited_within(nodes, #[trigger] origins[k], 0)
}

/// Depths never fall from one node to a later one.
pub open spec fn depths_rise(nodes: Seq<Node>) -> bool {
    forall|a: int, b: int|
        0 <= a <= b < nodes.len() ==> (#[trigger] nodes[a]).depth <= (#[trigger] nodes[b]).depth
}

/// No node lies deeper than `depth`.
pub open spec fn no_deeper(nodes: Seq<Node>, depth: int) -> bool {
    forall|j: int| 0 <= j < nodes.len() ==> (#[trigger] nodes[j]).depth <= depth
}

/// No node is a target.
pub open spec fn no_target_visited(nodes: Seq<Node>, targets: Seq<model::SymbolKey>) -> bool {
    forall|j: int|
        0 <= j < nodes.len() ==> !targets.contains((#[trigger] nodes[j]).symbol.key())
}

/// Every node is an origin, or one call behind an earlier node that calls it.
#[verifier::opaque]
pub open spec fn linked(g: CallGraph, nodes: Seq<Node>, origins: Seq<model::SymbolKey>) -> bool {
    forall|j: int|
        0 <= j < nodes.len() ==> match (#[trigger] nodes[j]).parent {
            Some(p) => p < j && nodes[j].depth == nodes[p as int].depth + 1 && g(
                nodes[p as int].symbol.key(),
            ).contains(nodes[j].symbol.key()),
            None => nodes[j].depth == 0 && origins.contains(nodes[j].symbol.key()),
        }
}

/// The callees of the node at `i` were visited, one call behind it at most.
pub open spec fn callees_visited(g: CallGraph, nodes: Seq<Node>, i: int) -> bool {
    forall|c: int|
        0 <= c < g(nodes[i].symbol.key()).len() ==> visited_within(
            nodes,
            #[trigger] g(nodes[i].symbol.key())[c],
            nodes[i].depth + 1,
        )
}

/// How deep the nodes reach when the first `done` are done.
pub open spec fn reach(nodes: Seq<Node>, done: int) -> int {
    if done > 0 {
        nodes[done - 1].depth + 1
    } else {
        0
    }
}

/// The nodes hold what a breadth-first search over `g` holds when the first
/// `done` of them are done: every origin at depth zero, depths that never
/// fall, no target, and all callees of what is done.
pub open spec fn faithful(
    g: CallGraph,
    nodes: Seq<Node>,
    origins: Seq<model::SymbolKey>,
    targets: Seq<model::SymbolKey>,
    max_depth: usize,
    done: int,
) -> bool {
    &&& 0 <= done <= nodes.len() <= usize::MAX
    &&& origins_visited(nodes, origins)
    &&& depths_rise(nodes)
    &&& no_deeper(nodes, reach(nodes, done))
    &&& no_target_visited(nodes, targets)
    &&& linked(g, nodes, origins)
    &&& forall|i: int|
        0 <= i < done && nodes[i].depth < max_depth ==> #[trigger] callees_visited(g, nodes, i)
}

/// A search begins faithful.
pub proof fn law_search_begins_faithful(
    g: CallGraph,
    origins: Seq<Symbol>,
    targets: Seq<Symbol>,
    max_depth: usize,
)
    requires
        first_target(origins, targets, 0) is None,
        origins.len() <= usize::MAX,
    ensures
        faithful(
            g,
            origin_nodes(origins),
            symbols::keys(origins),
            symbols::keys(targets),
            max_depth,
            0,
        ),
{
    reveal(linked);
    lemma_origin_nodes(origins, targets);
    let nodes = origin_nodes(origins);
    assert forall|k: int| 0 <= k < symbols::keys(origins).len() implies visited_within(
        nodes,
        #[trigger] symbols::keys(origins)[k],
        0,
    ) by {
        assert(node_keys(nodes).contains(origins[k].key()));
        let j = choose|j: int| 0 <= j < nodes.len() && node_keys(nodes)[j] == origins[k].key();
        assert(nodes[j].symbol.key() == origins[k].key());
    }
    lemma_no_target(origins, targets, 0);
    assert forall|j: int| 0 <= j < nodes.len() implies !symbols::keys(targets).contains(
        (#[trigger] nodes[j]).symbol.key(),
    ) by {
        assert(symbols::keys(origins).contains(nodes[j].symbol.key()));
        let k = choose|k: int|
            0 <= k < origins.len() && symbols::keys(origins)[k] == nodes[j].symbol.key();
        assert(origins[k].key() == nodes[j].symbol.key());
    }
}

proof fn lemma_no_target(s: Seq<Symbol>, targets: Seq<Symbol>, i: int)
    requires
        0 <= i,
        first_target(s, targets, i) is None,
    ensures
        forall|k: int|
            i <= k < s.len() ==> !symbols::keys(targets).contains((#[trigger] s[k]).key()),
    decreases s.len() - i,
{
    if i < s.len() {
        lemma_no_target(s, targets, i + 1);
    }
}

proof fn lemma_origin_nodes(origins: Seq<Symbol>, targets: Seq<Symbol>)
    ensures
        origin_nodes(origins).len() <= origins.len(),
        forall|j: int|
            0 <= j < origin_nodes(origins).len() ==> (#[trigger] origin_nodes(origins)[j]).depth == 0
                && origin_nodes(origins)[j].parent is None && symbols::keys(origins).contains(
                origin_nodes(origins)[j].symbol.key(),
            ),
        forall|k: int|
            0 <= k < origins.len() ==> node_keys(origin_nodes(origins)).contains(
                (#[trigger] origins[k]).key(),
            ),
    decreases origins.len(),
{
    if origins.len() > 0 {
        let front = origins.drop_last();
        lemma_origin_nodes(front, targets);
        let a = origin_nodes(front);
        let b = origin_nodes(origins);
        assert forall|j: int| 0 <= j < b.len() implies (#[trigger] b[j]).depth == 0 && b[j].parent
            is None && symbols::keys(origins).contains(b[j].symbol.key()) by {
            if j < a.len() {
                assert(a[j] == b[j]);
                let k = choose|k: int|
                    0 <= k < front.len() && symbols::keys(front)[k] == a[j].symbol.key();
                assert(symbols::keys(origins)[k] == b[j].symbol.key());
            } else {
                assert(symbols::keys(origins)[origins.len() - 1] == b[j].symbol.key());
            }
        }
        assert forall|k: int| 0 <= k < origins.len() implies node_keys(b).contains(
            (#[trigger] origins[k]).key(),
        ) by {
            if k < front.len() {
                assert(front[k] == origins[k]);
                assert(node_keys(a).contains(front[k].key()));
                let j = choose|j: int| 0 <= j < a.len() && node_keys(a)[j] == front[k].key();
                assert(node_keys(b)[j] == origins[k].key());
            } else if node_keys(a).contains(origins[k].key()) {
                let j = choose|j: int| 0 <= j < a.len() && node_keys(a)[j] == origins[k].key();
                assert(node_keys(b)[j] == origins[k].key());
            } else {
                assert(node_keys(b)[b.len() - 1] == origins[k].key());
            }
        }
    }
}

proof fn lemma_discovered(nodes: Seq<Node>, found: Seq<Callee>, i: int)
    requires
        0 <= i < nodes.len(),
        nodes[i].depth < usize::MAX,
        forall|j: int| 0 <= j < nodes.len() ==> (#[trigger] nodes[j]).depth <= nodes[i].depth + 1,
    ensures
        ({
            let after = discovered(nodes, found, i);
            &&& nodes.len() <= after.len() <= nodes.len() + found.len()
            &&& forall|j: int| 0 <= j < nodes.len() ==> (#[trigger] after[j]) == nodes[j]
            &&& forall|j: int|
                nodes.len() <= j < after.len() ==> (#[trigger] after[j]).depth == nodes[i].depth + 1
                    && after[j].parent == Some(i as usize) && callee_keys(found).contains(
                    after[j].symbol.key(),
                )
            &&& forall|c: int|
                0 <= c < found.len() ==> visited_within(
                    after,
                    (#[trigger] found[c]).symbol.key(),
                    nodes[i].depth + 1,
                )
        }),
    decreases found.len(),
{
    if found.len() > 0 {
        let front = found.drop_last();
        lemma_discovered(nodes, front, i);
        let a = discovered(nodes, front, i);
        let b = discovered(nodes, found, i);
        let last = found.last();
        assert(forall|j: int| 0 <= j < a.len() ==> a[j] == b[j]);
        assert forall|j: int| nodes.len() <= j < b.len() implies (#[trigger] b[j]).depth
            == nodes[i].depth + 1 && b[j].parent == Some(i as usize) && callee_keys(
            found,
        ).contains(b[j].symbol.key()) by {
            if j < a.len() {
                assert(a[j] == b[j]);
                let k = choose|k: int|
                    0 <= k < front.len() && callee_keys(front)[k] == a[j].symbol.key();
                assert(callee_keys(found)[k] == b[j].symbol.key());
            } else {
                assert(callee_keys(found)[found.len() - 1] == b[j].symbol.key());
            }
        }
        assert forall|c: int| 0 <= c < found.len() implies visited_within(
            b,
            (#[trigger] found[c]).symbol.key(),
            nodes[i].depth + 1,
        ) by {
            if c < front.len() {
                assert(front[c] == found[c]);
                assert(visited_within(a, front[c].symbol.key(), nodes[i].depth + 1));
                let j = choose|j: int|
                    0 <= j < a.len() && (#[trigger] a[j]).symbol.key() == front[c].symbol.key()
                        && a[j].depth <= nodes[i].depth + 1;
                assert(b[j] == a[j]);
            } else if node_keys(a).contains(last.symbol.key()) {
                let j = choose|j: int| 0 <= j < a.len() && node_keys(a)[j] == last.symbol.key();
                assert(a[j].symbol.key() == last.symbol.key());
                assert(b[j] == a[j]);
                if j < nodes.len() {
                    assert(nodes[j].depth <= nodes[i].depth + 1);
                } else {
                    assert(a[j].depth == nodes[i].depth + 1);
                }
            } else {
                assert(b[b.len() - 1].symbol.key() == last.symbol.key());
            }
        }
    }
}

/// Expanding the next node keeps a search faithful, where the callees handed
/// in are those of the graph and no target is among them.
pub proof fn law_expanding_keeps_a_search_faithful(
    g: CallGraph,
    nodes: Seq<Node>,
    origins: Seq<model::SymbolKey>,
    targets: Seq<Symbol>,
    max_depth: usize,
    i: int,
    found: Seq<Callee>,
)
    requires
        faithful(g, nodes, origins, symbols::keys(targets), max_depth, i),
        i < nodes.len(),
        nodes[i].depth < max_depth,
        discovered(nodes, found, i).len() <= usize::MAX,
        callee_keys(found) == g(nodes[i].symbol.key()),
        first_target(callee_symbols(found), targets, 0) is None,
    ensures
        faithful(
            g,
            discovered(nodes, found, i),
            origins,
            symbols::keys(targets),
            max_depth,
            i + 1,
        ),
{
    assert(no_deeper(nodes, nodes[i].depth + 1)) by {
        if i > 0 {
            assert(nodes[i - 1].depth <= nodes[i].depth);
        }
    }
    lemma_discovered(nodes, found, i);
    let after = discovered(nodes, found, i);
    lemma_no_target(callee_symbols(found), targets, 0);
    lemma_grown_origins(nodes, after, origins);
    lemma_grown_shape(g, nodes, after, origins, i);
    lemma_grown_targets(nodes, after, found, targets);
    assert forall|n: int| 0 <= n < i + 1 && after[n].depth < max_depth implies #[trigger] callees_visited(
        g,
        after,
        n,
    ) by {
        if n < i {
            assert(after[n] == nodes[n]);
            assert(callees_visited(g, nodes, n));
            lemma_grown_callees(g, nodes, after, n);
        } else {
            lemma_new_callees(g, nodes, after, found, i);
        }
    }
}

/// `after` keeps the nodes and may hold more.
spec fn grown(nodes: Seq<Node>, after: Seq<Node>) -> bool {
    nodes.len() <= after.len() && forall|j: int|
        0 <= j < nodes.len() ==> (#[trigger] after[j]) == nodes[j]
}

proof fn lemma_grown_visited(nodes: Seq<Node>, after: Seq<Node>, key: model::SymbolKey, depth: int)
    requires
        grown(nodes, after),
        visited_within(nodes, key, depth),
    ensures
        visited_within(after, key, depth),
{
    let j = choose|j: int|
        0 <= j < nodes.len() && (#[trigger] nodes[j]).symbol.key() == key && nodes[j].depth
            <= depth;
    assert(after[j] == nodes[j]);
}

proof fn lemma_grown_origins(nodes: Seq<Node>, after: Seq<Node>, origins: Seq<model::SymbolKey>)
    requires
        grown(nodes, after),
        origins_visited(nodes, origins),
    ensures
        origins_visited(after, origins),
{
    assert forall|k: int| 0 <= k < origins.len() implies visited_within(
        after,
        #[trigger] origins[k],
        0,
    ) by {
        lemma_grown_visited(nodes, after, origins[k], 0);
    }
}

proof fn lemma_grown_callees(g: CallGraph, nodes: Seq<Node>, after: Seq<Node>, n: int)
    requires
        grown(nodes, after),
        0 <= n < nodes.len(),
        callees_visited(g, nodes, n),
    ensures
        callees_visited(g, after, n),
{
    assert(after[n] == nodes[n]);
    assert forall|c: int| 0 <= c < g(after[n].symbol.key()).len() implies visited_within(
        after,
        #[trigger] g(after[n].symbol.key())[c],
        after[n].depth + 1,
    ) by {
        lemma_grown_visited(
            nodes,
            after,
            g(nodes[n].symbol.key())[c],
            nodes[n].depth + 1,
        );
    }
}

proof fn lemma_new_callees(
    g: CallGraph,
    nodes: Seq<Node>,
    after: Seq<Node>,
    found: Seq<Callee>,
    i: int,
)
    requires
        grown(nodes, after),
        0 <= i < nodes.len(),
        callee_keys(found) == g(nodes[i].symbol.key()),
        forall|c: int|
            0 <= c < found.len() ==> visited_within(
                after,
                (#[trigger] found[c]).symbol.key(),
                nodes[i].depth + 1,
            ),
    ensures
        callees_visited(g, after, i),
{
    assert(after[i] == nodes[i]);
    assert forall|c: int| 0 <= c < g(after[i].symbol.key()).len() implies visited_within(
        after,
        #[trigger] g(after[i].symbol.key())[c],
        after[i].depth + 1,
    ) by {
        assert(callee_keys(found)[c] == found[c].symbol.key());
    }
}

proof fn lemma_grown_shape(
    g: CallGraph,
    nodes: Seq<Node>,
    after: Seq<Node>,
    origins: Seq<model::SymbolKey>,
    i: int,
)
    requires
        grown(nodes, after),
        0 <= i < nodes.len() <= usize::MAX,
        depths_rise(nodes),
        linked(g, nodes, origins),
        no_deeper(nodes, nodes[i].depth + 1),
        forall|j: int|
            nodes.len() <= j < after.len() ==> (#[trigger] after[j]).depth == nodes[i].depth + 1
                && after[j].parent == Some(i as usize) && g(nodes[i].symbol.key()).contains(
                after[j].symbol.key(),
            ),
    ensures
        depths_rise(after),
        linked(g, after, origins),
        no_deeper(after, after[i].depth + 1),
{
    reveal(linked);
    assert(after[i] == nodes[i]);
    assert forall|j: int| 0 <= j < after.len() implies (#[trigger] after[j]).depth <= after[i].depth
        + 1 by {
        if j < nodes.len() {
            assert(after[j] == nodes[j]);
        }
    }
    assert forall|a: int, b: int| 0 <= a <= b < after.len() implies (#[trigger] after[a]).depth <= (
    #[trigger] after[b]).depth by {
        if b < nodes.len() {
            assert(after[a] == nodes[a] && after[b] == nodes[b]);
        }
    }
    assert forall|j: int| 0 <= j < after.len() implies match (#[trigger] after[j]).parent {
        Some(p) => p < j && after[j].depth == after[p as int].depth + 1 && g(
            after[p as int].symbol.key(),
        ).contains(after[j].symbol.key()),
        None => after[j].depth == 0 && origins.contains(after[j].symbol.key()),
    } by {
        if j < nodes.len() {
            assert(after[j] == nodes[j]);
            match nodes[j].parent {
                Some(p) => {
                    assert(after[p as int] == nodes[p as int]);
                },
                None => {},
            }
        }
    }
}

proof fn lemma_grown_targets(
    nodes: Seq<Node>,
    after: Seq<Node>,
    found: Seq<Callee>,
    targets: Seq<Symbol>,
)
    requires
        grown(nodes, after),
        no_target_visited(nodes, symbols::keys(targets)),
        forall|j: int|
            nodes.len() <= j < after.len() ==> callee_keys(found).contains(
                (#[trigger] after[j]).symbol.key(),
            ),
        forall|k: int|
            0 <= k < callee_symbols(found).len() ==> !symbols::keys(targets).contains(
                (#[trigger] callee_symbols(found)[k]).key(),
            ),
    ensures
        no_target_visited(after, symbols::keys(targets)),
{
    assert forall|j: int| 0 <= j < after.len() implies !symbols::keys(targets).contains(
        (#[trigger] after[j]).symbol.key(),
    ) by {
        if j < nodes.len() {
            assert(after[j] == nodes[j]);
        } else {
            assert(callee_keys(found).contains(after[j].symbol.key()));
            let k = choose|k: int|
                0 <= k < callee_keys(found).len() && callee_keys(found)[k] == after[j].symbol.key();
            assert(callee_symbols(found)[k].key() == after[j].symbol.key());
        }
    }
}

/// Passing a node over at the depth bound keeps a search faithful.
pub proof fn law_passing_over_keeps_a_search_faithful(
    g: CallGraph,
    nodes: Seq<Node>,
    origins: Seq<model::SymbolKey>,
    targets: Seq<model::SymbolKey>,
    max_depth: usize,
    done: int,
)
    requires
        faithful(g, nodes, origins, targets, max_depth, done),
        done < nodes.len(),
        nodes[done].depth >= max_depth,
    ensures
        faithful(g, nodes, origins, targets, max_depth, done + 1),
{
    assert(no_deeper(nodes, nodes[done].depth + 1)) by {
        if done > 0 {
            assert(nodes[done - 1].depth <= nodes[done].depth);
        }
    }
}

/// What identifies the definition that a step names.
pub open spec fn step_key(s: CallPathStep) -> model::SymbolKey {
    (s.file_path@, s.qualified_name@, s.line_start)
}

/// The definitions of a chain.
pub open spec fn step_keys(steps: Seq<CallPathStep>) -> Seq<model::SymbolKey> {
    steps.map_values(|s: CallPathStep| step_key(s))
}

proof fn lemma_chain(g: CallGraph, nodes: Seq<Node>, origins: Seq<model::SymbolKey>, i: int)
    requires
        0 <= i < nodes.len(),
        linked(g, nodes, origins),
    ensures
        chain(nodes, i).len() == nodes[i].depth + 1,
        is_call_chain(g, step_keys(chain(nodes, i))),
        origins.contains(step_keys(chain(nodes, i))[0]),
        step_keys(chain(nodes, i)).last() == nodes[i].symbol.key(),
    decreases i,
{
    reveal(linked);
    let here = step(nodes[i].symbol, nodes[i].call_line);
    assert(step_key(here) == nodes[i].symbol.key());
    match nodes[i].parent {
        Some(p) => {
            lemma_chain(g, nodes, origins, p as int);
            lemma_chain_extended(g, chain(nodes, p as int), here);
        },
        None => {},
    }
}

/// A chain of calls and one call more is a chain of calls.
proof fn lemma_chain_extended(g: CallGraph, front: Seq<CallPathStep>, last: CallPathStep)
    requires
        is_call_chain(g, step_keys(front)),
        g(step_keys(front).last()).contains(step_key(last)),
    ensures
        is_call_chain(g, step_keys(front + seq![last])),
        step_keys(front + seq![last])[0] == step_keys(front)[0],
        step_keys(front + seq![last]).last() == step_key(last),
{
    let a = step_keys(front);
    let b = step_keys(front + seq![last]);
    assert(b =~= a.push(step_key(last)));
    assert forall|k: int| 0 <= k < b.len() - 1 implies (#[trigger] g(b[k])).contains(b[k + 1]) by {
        if k < a.len() - 1 {
            assert(g(a[k]).contains(a[k + 1]));
        } else {
            assert(b[k] == a.last());
        }
    }
}

/// The chain that is answered is one of calls: it begins at an origin, each
/// definition in it calls the next, and it ends at the callee that was found.
pub proof fn law_found_chain_is_one_of_calls(
    g: CallGraph,
    nodes: Seq<Node>,
    origins: Seq<model::SymbolKey>,
    targets: Seq<model::SymbolKey>,
    max_depth: usize,
    i: int,
    found: Seq<Callee>,
    t: int,
)
    requires
        faithful(g, nodes, origins, targets, max_depth, i),
        i < nodes.len(),
        callee_keys(found) == g(nodes[i].symbol.key()),
        0 <= t < found.len(),
    ensures
        ({
            let p = step_keys(chain(nodes, i) + seq![step(found[t].symbol, Some(found[t].line))]);
            &&& is_call_chain(g, p)
            &&& origins.contains(p[0])
            &&& p.last() == found[t].symbol.key()
            &&& nodes[i].depth < max_depth ==> p.len() - 1 <= max_depth
        }),
{
    lemma_chain(g, nodes, origins, i);
    let last = step(found[t].symbol, Some(found[t].line));
    assert(callee_keys(found)[t] == step_key(last));
    lemma_chain_extended(g, chain(nodes, i), last);
}

proof fn lemma_all_visited(
    g: CallGraph,
    nodes: Seq<Node>,
    origins: Seq<model::SymbolKey>,
    targets: Seq<model::SymbolKey>,
    max_depth: usize,
    p: Seq<model::SymbolKey>,
    k: int,
) -> (j: int)
    requires
        faithful(g, nodes, origins, targets, max_depth, nodes.len() as int),
        forall|j: int| 0 <= j < nodes.len() ==> (#[trigger] nodes[j]).depth < max_depth,
        is_call_chain(g, p),
        origins.contains(p[0]),
        0 <= k < p.len(),
    ensures
        0 <= j < nodes.len(),
        nodes[j].symbol.key() == p[k],
    decreases k,
{
    if k == 0 {
        let o = choose|o: int| 0 <= o < origins.len() && origins[o] == p[0];
        assert(visited_within(nodes, origins[o], 0));
        choose|j: int|
            0 <= j < nodes.len() && (#[trigger] nodes[j]).symbol.key() == p[0] && nodes[j].depth <= 0
    } else {
        let j = lemma_all_visited(g, nodes, origins, targets, max_depth, p, k - 1);
        assert(g(p[k - 1]).contains(p[k - 1 + 1]));
        let calls = g(p[k - 1]);
        let c = choose|c: int| 0 <= c < calls.len() && calls[c] == p[k];
        assert(callees_visited(g, nodes, j));
        assert(visited_within(nodes, g(nodes[j].symbol.key())[c], nodes[j].depth + 1));
        choose|m: int|
            0 <= m < nodes.len() && (#[trigger] nodes[m]).symbol.key() == p[k] && nodes[m].depth
                <= nodes[j].depth + 1
    }
}

/// A search that ends without an answer and without a bound leaves no chain:
/// no chain of calls leads from an origin to a target.
pub proof fn law_an_unbounded_search_leaves_no_chain(
    g: CallGraph,
    s: CallSearch,
    origins: Seq<model::SymbolKey>,
    p: Seq<model::SymbolKey>,
)
    requires
        faithful(g, s.nodes@, origins, symbols::keys(s.targets@), s.max_depth, s.head as int),
        s.skips_are_marked(),
        ({
            let (head, hit, at) = next_at(s, s.head as int, s.hit_bound);
            at is None && !hit
        }),
        is_call_chain(g, p),
        origins.contains(p[0]),
    ensures
        !symbols::keys(s.targets@).contains(p.last()),
{
    lemma_next_unhit(s, s.head as int, s.hit_bound);
    let j = lemma_all_visited(
        g,
        s.nodes@,
        origins,
        symbols::keys(s.targets@),
        s.max_depth,
        p,
        p.len() - 1,
    );
    assert(!symbols::keys(s.targets@).contains(s.nodes@[j].symbol.key()));
}

/// A look for the next node that finds none and marks no bound was at the end.
proof fn lemma_next_unhit(s: CallSearch, head: int, hit: bool)
    requires
        0 <= head,
        next_at(s, head, hit).2 is None,
        !next_at(s, head, hit).1,
    ensures
        !hit,
        head >= s.nodes@.len(),
    decreases s.nodes@.len() - head,
{
    if head < s.nodes@.len() && s.nodes@[head].depth >= s.max_depth {
        lemma_next_unhit(s, head + 1, true);
    }
}

proof fn lemma_chain_visited(
    g: CallGraph,
    nodes: Seq<Node>,
    origins: Seq<model::SymbolKey>,
    targets: Seq<model::SymbolKey>,
    max_depth: usize,
    i: int,
    p: Seq<model::SymbolKey>,
    k: int,
)
    requires
        faithful(g, nodes, origins, targets, max_depth, i),
        i < nodes.len(),
        nodes[i].depth < max_depth,
        is_call_chain(g, p),
        origins.contains(p[0]),
        0 <= k < p.len(),
        k <= nodes[i].depth,
    ensures
        visited_within(nodes, p[k], k),
    decreases k,
{
    if k == 0 {
        let o = choose|o: int| 0 <= o < origins.len() && origins[o] == p[0];
        assert(visited_within(nodes, origins[o], 0));
    } else {
        lemma_chain_visited(g, nodes, origins, targets, max_depth, i, p, k - 1);
        let j = choose|j: int|
            0 <= j < nodes.len() && (#[trigger] nodes[j]).symbol.key() == p[k - 1]
                && nodes[j].depth <= k - 1;
        assert(j < i) by {
            if j >= i {
                assert(nodes[i].depth <= nodes[j].depth);
            }
        }
        assert(g(p[k - 1]).contains(p[k - 1 + 1]));
        let calls = g(p[k - 1]);
        let c = choose|c: int| 0 <= c < calls.len() && calls[c] == p[k];
        assert(callees_visited(g, nodes, j));
        assert(visited_within(nodes, g(nodes[j].symbol.key())[c], nodes[j].depth + 1));
        let m = choose|m: int|
            0 <= m < nodes.len() && (#[trigger] nodes[m]).symbol.key() == p[k] && nodes[m].depth
                <= nodes[j].depth + 1;
        assert(nodes[m].depth <= k);
    }
}

/// The chain that a faithful search finds is a shortest one: no chain of calls
/// from an origin to a target has fewer steps.
pub proof fn law_found_chain_is_shortest(
    g: CallGraph,
    nodes: Seq<Node>,
    origins: Seq<model::SymbolKey>,
    targets: Seq<model::SymbolKey>,
    max_depth: usize,
    i: int,
    last: CallPathStep,
    p: Seq<model::SymbolKey>,
)
    requires
        faithful(g, nodes, origins, targets, max_depth, i),
        i < nodes.len(),
        nodes[i].depth < max_depth,
        is_call_chain(g, p),
        origins.contains(p[0]),
        targets.contains(p.last()),
    ensures
        (chain(nodes, i) + seq![last]).len() <= p.len(),
{
    lemma_chain(g, nodes, origins, i);
    if p.len() < nodes[i].depth + 2 {
        let k = p.len() - 1;
        lemma_chain_visited(g, nodes, origins, targets, max_depth, i, p, k);
        let j = choose|j: int|
            0 <= j < nodes.len() && (#[trigger] nodes[j]).symbol.key() == p[k] && nodes[j].depth
                <= k;
        assert(!targets.contains(nodes[j].symbol.key()));
    }
}

// ---------------------------------------------------------------------------
// Whole searches
// ---------------------------------------------------------------------------

/// A search took its next node on, with the callees that the graph gives it, of
/// which none is a target.
pub open spec fn expanded(g: CallGraph, a: CallSearch, b: CallSearch, found: Seq<Callee>) -> bool {
    let (head, hit, at) = next_at(a, a.head as int, a.hit_bound);
    &&& at is Some
    &&& callee_keys(found) == g(a.nodes@[at->0].symbol.key())
    &&& first_target(callee_symbols(found), a.targets@, 0) is None
    &&& b == (CallSearch { nodes: b.nodes, head: head as usize, hit_bound: hit, ..a })
    &&& b.nodes@ == discovered(a.nodes@, found, at->0)
}

/// A search took its next node on, and found no target.
pub open spec fn goes_on(g: CallGraph, a: CallSearch, b: CallSearch) -> bool {
    exists|found: Seq<Callee>| #[trigger] expanded(g, a, b, found)
}

/// The states of a search over a graph, from its beginning on.
pub open spec fn searches(g: CallGraph, path: Seq<CallSearch>, origins: Seq<Symbol>) -> bool {
    &&& path.len() > 0
    &&& path[0].nodes@ == origin_nodes(origins)
    &&& path[0].head == 0
    &&& !path[0].hit_bound
    &&& first_target(origins, path[0].targets@, 0) is None
    &&& forall|j: int|
        0 <= j < path.len() - 1 ==> goes_on(g, #[trigger] path[j], path[j + 1])
}

proof fn lemma_next_faithful(
    g: CallGraph,
    s: CallSearch,
    origins: Seq<model::SymbolKey>,
    targets: Seq<model::SymbolKey>,
    head: int,
    hit: bool,
)
    requires
        faithful(g, s.nodes@, origins, targets, s.max_depth, head),
    ensures
        ({
            let (after, marked, at) = next_at(s, head, hit);
            at matches Some(i) ==> {
                &&& 0 <= i < s.nodes@.len()
                &&& after == i + 1
                &&& s.nodes@[i].depth < s.max_depth
                &&& faithful(g, s.nodes@, origins, targets, s.max_depth, i)
                &&& !marked ==> i == head && !hit
            }
        }),
    decreases s.nodes@.len() - head,
{
    if head < s.nodes@.len() && s.nodes@[head].depth >= s.max_depth {
        law_passing_over_keeps_a_search_faithful(g, s.nodes@, origins, targets, s.max_depth, head);
        lemma_next_faithful(g, s, origins, targets, head + 1, true);
    }
}

/// What holds of a search all along.
spec fn on_course(g: CallGraph, s: CallSearch, origins: Seq<Symbol>, targets: Seq<Symbol>, max_depth: usize) -> bool {
    &&& s.targets@ == targets
    &&& s.max_depth == max_depth
    &&& faithful(g, s.nodes@, symbols::keys(origins), symbols::keys(targets), max_depth, s.head as int)
    &&& s.skips_are_marked()
}

proof fn lemma_on_course(g: CallGraph, path: Seq<CallSearch>, origins: Seq<Symbol>, k: int)
    requires
        searches(g, path, origins),
        origins.len() <= usize::MAX,
        0 <= k < path.len(),
    ensures
        on_course(g, path[k], origins, path[0].targets@, path[0].max_depth),
    decreases k,
{
    let targets = path[0].targets@;
    if k == 0 {
        law_search_begins_faithful(g, origins, targets, path[0].max_depth);
    } else {
        lemma_on_course(g, path, origins, k - 1);
        let a = path[k - 1];
        let b = path[k - 1 + 1];
        assert(goes_on(g, a, b));
        let found = choose|found: Seq<Callee>| #[trigger] expanded(g, a, b, found);
        lemma_next_faithful(g, a, symbols::keys(origins), symbols::keys(targets), a.head as int, a.hit_bound);
        let i = next_at(a, a.head as int, a.hit_bound).2->0;
        assert(b.nodes.len() == b.nodes@.len());
        law_expanding_keeps_a_search_faithful(
            g,
            a.nodes@,
            symbols::keys(origins),
            targets,
            a.max_depth,
            i,
            found,
        );
        assert(no_deeper(a.nodes@, a.nodes@[i].depth + 1)) by {
            if i > 0 {
                assert(a.nodes@[i - 1].depth <= a.nodes@[i].depth);
            }
        }
        lemma_discovered(a.nodes@, found, i);
        if !b.hit_bound {
            assert forall|j: int| 0 <= j < b.head && j < b.nodes@.len() implies (#[trigger] b.nodes@[j]).depth
                < b.max_depth by {
                assert(b.nodes@[j] == a.nodes@[j]);
            }
        }
    }
}

/// The answer of a whole search is a shortest chain: where a callee `t` of the
/// next node is a target, the chain to it begins at an origin, ends at a target,
/// goes from call to call within the depth that is allowed, and no chain of
/// calls from an origin to a target is shorter.
pub proof fn law_a_search_answers_with_a_shortest_chain(
    g: CallGraph,
    path: Seq<CallSearch>,
    origins: Seq<Symbol>,
    found: Seq<Callee>,
    t: int,
    p: Seq<model::SymbolKey>,
)
    requires
        searches(g, path, origins),
        origins.len() <= usize::MAX,
        ({
            let s = path.last();
            let at = next_at(s, s.head as int, s.hit_bound).2;
            &&& at is Some
            &&& callee_keys(found) == g(s.nodes@[at->0].symbol.key())
            &&& first_target(callee_symbols(found), s.targets@, 0) == Some(t)
        }),
        is_call_chain(g, p),
        symbols::keys(origins).contains(p[0]),
        symbols::keys(path[0].targets@).contains(p.last()),
    ensures
        ({
            let s = path.last();
            let i = next_at(s, s.head as int, s.hit_bound).2->0;
            let steps = chain(s.nodes@, i) + seq![step(found[t].symbol, Some(found[t].line))];
            &&& is_call_chain(g, step_keys(steps))
            &&& symbols::keys(origins).contains(step_keys(steps)[0])
            &&& symbols::keys(path[0].targets@).contains(step_keys(steps).last())
            &&& steps.len() - 1 <= path[0].max_depth
            &&& steps.len() <= p.len()
        }),
{
    lemma_on_course(g, path, origins, path.len() - 1);
    let s = path.last();
    let from = symbols::keys(origins);
    let to = symbols::keys(path[0].targets@);
    lemma_next_faithful(g, s, from, to, s.head as int, s.hit_bound);
    let i = next_at(s, s.head as int, s.hit_bound).2->0;
    lemma_first_target(callee_symbols(found), s.targets@, 0);
    law_found_chain_is_one_of_calls(g, s.nodes@, from, to, s.max_depth, i, found, t);
    law_found_chain_is_shortest(
        g,
        s.nodes@,
        from,
        to,
        s.max_depth,
        i,
        step(found[t].symbol, Some(found[t].line)),
        p,
    );
}

proof fn lemma_first_target(s: Seq<Symbol>, targets: Seq<Symbol>, i: int)
    requires
        0 <= i,
        first_target(s, targets, i) is Some,
    ensures
        i <= first_target(s, targets, i)->0 < s.len(),
        symbols::keys(targets).contains(s[first_target(s, targets, i)->0].key()),
    decreases s.len() - i,
{
    if !symbols::keys(targets).contains(s[i].key()) {
        lemma_first_target(s, targets, i + 1);
    }
}

/// A whole search that ends without an answer, and marks no bound, leaves no
/// chain of calls from an origin to a target.
pub proof fn law_a_search_that_ends_unbounded_leaves_no_chain(
    g: CallGraph,
    path: Seq<CallSearch>,
    origins: Seq<Symbol>,
    p: Seq<model::SymbolKey>,
)
    requires
        searches(g, path, origins),
        origins.len() <= usize::MAX,
        ({
            let s = path.last();
            let (head, hit, at) = next_at(s, s.head as int, s.hit_bound);
            at is None && !hit
        }),
        is_call_chain(g, p),
        symbols::keys(origins).contains(p[0]),
    ensures
        !symbols::keys(path[0].targets@).contains(p.last()),
{
    lemma_on_course(g, path, origins, path.len() - 1);
    law_an_unbounded_search_leaves_no_chain(g, path.last(), symbols::keys(origins), p);
}

} // verus!
