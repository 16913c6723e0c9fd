//! Which calls a definition makes, and what bounds a search.
use vstd::prelude::*;
use crate::call_path;
use crate::call_path::{CallSearch, Callee, Node};
use crate::model::{Reference, ReferenceKind, Symbol};
use crate::walk_cache;
use crate::walk_cache::CacheRoom;

verus! {

/// Calls, instantiations and route handlers are calls; nothing else is.
pub proof fn law_these_references_are_calls()
    ensures
        call_path::call_edge(ReferenceKind::Call),
        call_path::call_edge(ReferenceKind::Instantiation),
        call_path::call_edge(ReferenceKind::RouteHandler),
        !call_path::call_edge(ReferenceKind::Import),
        !call_path::call_edge(ReferenceKind::ImportBinding),
        !call_path::call_edge(ReferenceKind::Include),
        !call_path::call_edge(ReferenceKind::Inheritance),
        !call_path::call_edge(ReferenceKind::TraitUse),
        !call_path::call_edge(ReferenceKind::TypeHint),
{
}

/// A row inside a definition is one of its calls where it is a call and belongs
/// to no other definition.
pub proof fn law_a_definition_makes_the_calls_that_belong_to_it(sym: Symbol, r: Reference)
    ensures
        call_path::own_call(sym, r) <==> (r.kind == ReferenceKind::Call || r.kind == ReferenceKind::Instantiation
            || r.kind == ReferenceKind::RouteHandler) && (r.from_symbol matches Some(o) ==> o@ == sym.qualified_name@),
{
}

/// Every own call is found, in order, and nothing else.
pub proof fn law_every_own_call_is_found(sym: Symbol, rows: Seq<Reference>, k: int)
    requires
        0 <= k < rows.len(),
    ensures
        call_path::own_calls(sym, rows).contains(k) <==> call_path::own_call(sym, rows[k]),
        forall|i: int, j: int|
            0 <= i < j < call_path::own_calls(sym, rows).len() ==> (#[trigger] call_path::own_calls(sym, rows)[i])
                < #[trigger] call_path::own_calls(sym, rows)[j],
        forall|i: int|
            0 <= i < call_path::own_calls(sym, rows).len() ==> 0 <= #[trigger] call_path::own_calls(sym, rows)[i]
                < rows.len(),
    decreases rows.len(),
{
    let less = rows.drop_last();
    let front = call_path::own_calls(sym, less);
    let all = call_path::own_calls(sym, rows);
    if less.len() > 0 {
        law_every_own_call_is_found(sym, less, if k < less.len() { k } else { 0 });
    }
    if k < less.len() {
        assert(less[k] == rows[k]);
        if front.contains(k) {
            let i = choose|i: int| 0 <= i < front.len() && front[i] == k;
            assert(all[i] == k);
        }
        if all.contains(k) && !front.contains(k) {
            let i = choose|i: int| 0 <= i < all.len() && all[i] == k;
            if i < front.len() {
                assert(front[i] == k);
            }
        }
    } else {
        if call_path::own_call(sym, rows[k]) {
            assert(all[front.len() as int] == k);
        } else if all.contains(k) {
            let i = choose|i: int| 0 <= i < all.len() && all[i] == k;
            assert(front[i] == k);
        }
    }
}

/// A definition is among the callees.
pub open spec fn is_callee(v: Seq<Callee>, d: Symbol) -> bool {
    exists|i: int| {
        &&& 0 <= i < v.len()
        &&& (#[trigger] v[i]).symbol.file_path@ == d.file_path@
        &&& v[i].symbol.qualified_name@ == d.qualified_name@
        &&& v[i].symbol.line_start == d.line_start
    }
}

proof fn lemma_keys(v: Seq<Callee>, d: Symbol)
    ensures
        call_path::callee_keys(v).contains(d.key()) <==> is_callee(v, d),
{
    let keys = call_path::callee_keys(v);
    if keys.contains(d.key()) {
        let i = choose|i: int| 0 <= i < keys.len() && keys[i] == d.key();
        assert(v[i].symbol.file_path@ == d.file_path@);
    }
    if is_callee(v, d) {
        let i = choose|i: int| {
            &&& 0 <= i < v.len()
            &&& (#[trigger] v[i]).symbol.file_path@ == d.file_path@
            &&& v[i].symbol.qualified_name@ == d.qualified_name@
            &&& v[i].symbol.line_start == d.line_start
        };
        assert(keys[i] == d.key());
    }
}

/// What a call means becomes a callee with the line of the call: every definition
/// but the caller itself, unless it was one already. Nothing else does.
pub proof fn law_a_call_adds_the_definitions_that_it_means(out: Seq<Callee>, sym: Symbol, defs: Seq<Symbol>, line: u32)
    ensures
        ({
            let all = call_path::with_callees(out, sym, defs, line);
            &&& forall|k: int|
                0 <= k < defs.len() && (#[trigger] defs[k]).key() != sym.key() ==> is_callee(all, defs[k])
            &&& out.len() <= all.len() && all.take(out.len() as int) == out
            &&& forall|i: int|
                out.len() <= i < all.len() ==> defs.contains((#[trigger] all[i]).symbol) && all[i].symbol.key()
                    != sym.key() && all[i].line == line
        }),
    decreases defs.len(),
{
    let all = call_path::with_callees(out, sym, defs, line);
    if defs.len() == 0 {
        assert(all.take(out.len() as int) =~= out);
    } else {
        let less = defs.drop_last();
        let front = call_path::with_callees(out, sym, less, line);
        let d = defs.last();
        law_a_call_adds_the_definitions_that_it_means(out, sym, less, line);
        lemma_keys(front, d);
        assert(defs[defs.len() - 1] == d);
        assert forall|k: int| 0 <= k < defs.len() && (#[trigger] defs[k]).key() != sym.key() implies is_callee(
            all,
            defs[k],
        ) by {
            if k < less.len() {
                assert(less[k] == defs[k]);
                assert(is_callee(front, less[k]));
                let i = choose|i: int| {
                    &&& 0 <= i < front.len()
                    &&& (#[trigger] front[i]).symbol.file_path@ == less[k].file_path@
                    &&& front[i].symbol.qualified_name@ == less[k].qualified_name@
                    &&& front[i].symbol.line_start == less[k].line_start
                };
                assert(all[i] == front[i]);
            } else if !is_callee(front, d) {
                assert(all[front.len() as int].symbol == d);
            }
        }
        assert(all.take(out.len() as int) =~= front.take(out.len() as int));
        assert forall|i: int| out.len() <= i < all.len() implies defs.contains((#[trigger] all[i]).symbol)
            && all[i].symbol.key() != sym.key() && all[i].line == line by {
            if i < front.len() {
                assert(all[i] == front[i]);
                let k = choose|k: int| 0 <= k < less.len() && less[k] == front[i].symbol;
                assert(defs[k] == all[i].symbol);
            }
        }
    }
}

/// The callees of a definition are gathered call by call, each with the line of
/// its first call.
pub proof fn law_callees_are_gathered_call_by_call(
    sym: Symbol,
    rows: Seq<Reference>,
    sites: Seq<usize>,
    resolved: Seq<Vec<Symbol>>,
)
    requires
        0 < sites.len() == resolved.len(),
    ensures
        call_path::callees(sym, rows, sites, resolved) == call_path::with_callees(
            call_path::callees(sym, rows, sites.drop_last(), resolved),
            sym,
            resolved.last()@,
            rows[sites.last() as int].line,
        ),
        call_path::callees(sym, rows, Seq::empty(), resolved) == Seq::<Callee>::empty(),
{
}

/// The next node of a search is the first left that is not at the depth limit;
/// passing one over, or having visited four thousand, bounds the search.
pub proof fn law_a_search_passes_over_what_is_too_deep(s: CallSearch, head: int, hit: bool)
    requires
        0 <= head < s.nodes@.len(),
    ensures
        s.nodes@[head].depth >= s.max_depth ==> call_path::next_at(s, head, hit) == call_path::next_at(s, head + 1, true),
        s.nodes@[head].depth < s.max_depth && s.nodes@.len() < 4000 ==> call_path::next_at(s, head, hit) == (
            head + 1,
            hit,
            Some(head),
        ),
        s.nodes@[head].depth < s.max_depth && s.nodes@.len() >= 4000 ==> call_path::next_at(s, head, hit).1
            && call_path::next_at(s, head, hit).2 is None,
        call_path::next_at(s, s.nodes@.len() as int, hit) == (s.nodes@.len() as int, hit, None::<int>),
{
}

/// A callee that was not visited becomes a node one call deeper, reached from the
/// node that calls it.
pub proof fn law_an_unvisited_callee_is_one_call_deeper(nodes: Seq<Node>, found: Seq<Callee>, c: Callee, i: int)
    requires
        0 <= i < nodes.len(),
        nodes[i].depth < usize::MAX,
    ensures
        ({
            let a = call_path::discovered(nodes, found, i);
            let b = call_path::discovered(nodes, found.push(c), i);
            &&& call_path::node_keys(a).contains(c.symbol.key()) ==> b == a
            &&& !call_path::node_keys(a).contains(c.symbol.key()) ==> b.len() == a.len() + 1 && b.last().symbol
                == c.symbol && b.last().depth == nodes[i].depth + 1 && b.last().parent == Some(i as usize)
                && b.last().call_line == Some(c.line)
        }),
{
    assert(found.push(c).drop_last() =~= found);
}

// ---------------------------------------------------------------------------
// Caches
// ---------------------------------------------------------------------------

/// A cache takes an entry while it holds fewer than 8192 and its bytes stay within
/// sixteen mebibytes.
pub proof fn law_a_cache_takes_what_fits(room: CacheRoom, bytes: usize)
    ensures
        room.fits(bytes) <==> room.entries < 8192 && room.bytes + bytes <= 16_777_216,
        room.within_limits() <==> room.entries <= 8192 && room.bytes <= 16_777_216,
{
}

/// An entry costs its slots and everything that they hold.
pub proof fn law_an_entry_costs_its_slots_and_what_they_hold(slots: usize, slot_bytes: usize, held: Seq<usize>, n: usize)
    ensures
        walk_cache::total(Seq::empty()) == 0,
        walk_cache::total(held.push(n)) == walk_cache::total(held) + n,
        slots * slot_bytes + walk_cache::total(held) <= usize::MAX ==> walk_cache::price(slots, slot_bytes, held)
            == slots * slot_bytes + walk_cache::total(held),
{
    assert(held.push(n).drop_last() =~= held);
}

} // verus!
