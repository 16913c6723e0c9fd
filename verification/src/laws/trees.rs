//! How a syntax tree is walked.
use vstd::prelude::*;
use crate::syntax::SyntaxTree;
use crate::text;

verus! {

proof fn lemma_filling(t: SyntaxTree, places: Seq<usize>, field: Seq<char>)
    ensures
        t.filling(places, field) is None <==> forall|k: int|
            0 <= k < places.len() ==> text::view_opt(t.nodes()[(#[trigger] places[k]) as int].field) != Some(field),
        t.filling(places, field) matches Some(c) ==> exists|k: int|
            0 <= k < places.len() && (#[trigger] places[k]) == c && text::view_opt(t.nodes()[c as int].field) == Some(
                field,
            ) && forall|j: int|
                0 <= j < k ==> text::view_opt(t.nodes()[(#[trigger] places[j]) as int].field) != Some(field),
    decreases places.len(),
{
    if places.len() > 0 {
        let rest = places.skip(1);
        if text::view_opt(t.nodes()[places[0] as int].field) == Some(field) {
            assert(places[0] == t.filling(places, field)->0);
        } else {
            lemma_filling(t, rest, field);
            assert(forall|k: int| 0 <= k < rest.len() ==> #[trigger] rest[k] == places[k + 1]);
            if let Some(c) = t.filling(rest, field) {
                let k = choose|k: int|
                    0 <= k < rest.len() && (#[trigger] rest[k]) == c && text::view_opt(t.nodes()[c as int].field)
                        == Some(field) && forall|j: int|
                        0 <= j < k ==> text::view_opt(t.nodes()[(#[trigger] rest[j]) as int].field) != Some(field);
                assert(places[k + 1] == c);
                assert forall|j: int| 0 <= j < k + 1 implies text::view_opt(
                    t.nodes()[(#[trigger] places[j]) as int].field,
                ) != Some(field) by {
                    if j > 0 {
                        assert(rest[j - 1] == places[j]);
                    }
                }
            } else {
                assert forall|k: int| 0 <= k < places.len() implies text::view_opt(
                    t.nodes()[(#[trigger] places[k]) as int].field,
                ) != Some(field) by {
                    if k > 0 {
                        assert(rest[k - 1] == places[k]);
                    }
                }
            }
        }
    }
}

/// A field of a node is the first of its children that fills it; a field that no
/// child fills is absent.
pub proof fn law_a_field_is_its_first_child_of_that_name(t: SyntaxTree, i: int, field: Seq<char>)
    ensures
        t.field(i, field) is None <==> forall|k: int|
            0 <= k < t.nodes()[i].children@.len() ==> text::view_opt(
                t.nodes()[(#[trigger] t.nodes()[i].children@[k]) as int].field,
            ) != Some(field),
        t.field(i, field) matches Some(c) ==> t.nodes()[i].children@.contains(c) && text::view_opt(
            t.nodes()[c as int].field,
        ) == Some(field) && forall|k: int|
            0 <= k < t.nodes()[i].children@.len() && text::view_opt(
                t.nodes()[(#[trigger] t.nodes()[i].children@[k]) as int].field,
            ) == Some(field) ==> t.nodes()[i].children@.index_of_first(c) is Some
                && t.nodes()[i].children@.index_of_first(c)->0 <= k,
{
    let places = t.nodes()[i].children@;
    lemma_filling(t, places, field);
    if let Some(c) = t.field(i, field) {
        let k = choose|k: int|
            0 <= k < places.len() && (#[trigger] places[k]) == c && text::view_opt(t.nodes()[c as int].field) == Some(
                field,
            ) && forall|j: int|
                0 <= j < k ==> text::view_opt(t.nodes()[(#[trigger] places[j]) as int].field) != Some(field);
        assert(places.contains(c));
        places.index_of_first_ensures(c);
        assert forall|m: int|
            0 <= m < places.len() && text::view_opt(t.nodes()[(#[trigger] places[m]) as int].field) == Some(
                field,
            ) implies places.index_of_first(c)->0 <= m by {
            let f = places.index_of_first(c)->0;
            if m < f {
                if f <= k {
                    assert(text::view_opt(t.nodes()[places[m] as int].field) != Some(field));
                } else {
                    assert(places[k] == c);
                }
            }
        }
    }
}

/// The children of a node are those that the grammar names.
pub proof fn law_the_children_are_the_named_ones(t: SyntaxTree, i: int, c: usize)
    ensures
        t.children(i).contains(c) <==> t.nodes()[i].children@.contains(c) && t.nodes()[c as int].named,
{
    broadcast use {vstd::seq_lib::group_filter_ensures, vstd::seq::Seq::lemma_filter_contains_rev};

    let f = |c: usize| t.nodes()[c as int].named;
    let all = t.nodes()[i].children@;
    assert(t.children(i) == all.filter(f));
    if t.children(i).contains(c) {
        let k = choose|k: int| 0 <= k < t.children(i).len() && t.children(i)[k] == c;
        assert(f(t.children(i)[k]));
    }
    if all.contains(c) && t.nodes()[c as int].named {
        let k = choose|k: int| 0 <= k < all.len() && all[k] == c;
        assert(f(all[k]));
        assert(all.filter(f).contains(all[k]));
    }
}

proof fn lemma_children_lie_after(t: SyntaxTree, i: int, k: int)
    requires
        t.wf(),
        0 <= i < t.nodes().len(),
        0 <= k < t.children(i).len(),
    ensures
        i < t.children(i)[k] < t.nodes().len(),
        t.nodes()[t.children(i)[k] as int].parent == Some(i as usize),
        t.nodes()[t.children(i)[k] as int].named,
{
    let c = t.children(i)[k];
    assert(t.children(i).contains(c));
    law_the_children_are_the_named_ones(t, i, c);
    let all = t.nodes()[i].children@;
    let m = choose|m: int| 0 <= m < all.len() && all[m] == c;
    assert(crate::syntax::node_fits(t.nodes(), t.source().len(), i));
    assert(crate::syntax::child_fits(t.nodes(), i, m));
}

proof fn lemma_walk_down(t: SyntaxTree, i: int, p: int, k: int)
    requires
        t.wf(),
        0 <= i < t.nodes().len(),
        0 <= p < t.nodes().len(),
        t.walk(i).contains(p as usize),
        0 <= k < t.children(p).len(),
    ensures
        t.walk(i).contains(t.children(p)[k]),
    decreases t.nodes().len() - i, t.children(i).len() + 1,
{
    let w = t.walk(i);
    let c = t.children(p)[k];
    if p == i {
        lemma_walk_child(t, i, 0, k);
        let rest = t.walk_children(i, 0);
        let m = choose|m: int| 0 <= m < rest.len() && rest[m] == c;
        assert(w[m + 1] == c);
    } else {
        let m = choose|m: int| 0 <= m < w.len() && w[m] == p as usize;
        let rest = t.walk_children(i, 0);
        assert(rest[m - 1] == p as usize);
        assert(rest.contains(p as usize));
        lemma_walk_children_down(t, i, 0, p, k);
        let n = choose|n: int| 0 <= n < rest.len() && rest[n] == c;
        assert(w[n + 1] == c);
    }
}

proof fn lemma_walk_children_down(t: SyntaxTree, i: int, from: int, p: int, k: int)
    requires
        t.wf(),
        0 <= i < t.nodes().len(),
        0 <= from,
        0 <= p < t.nodes().len(),
        t.walk_children(i, from).contains(p as usize),
        0 <= k < t.children(p).len(),
    ensures
        t.walk_children(i, from).contains(t.children(p)[k]),
    decreases t.nodes().len() - i, t.children(i).len() - from,
{
    let all = t.walk_children(i, from);
    let c = t.children(p)[k];
    if from < t.children(i).len() {
        lemma_children_lie_after(t, i, from);
        let first = t.walk(t.children(i)[from] as int);
        let rest = t.walk_children(i, from + 1);
        assert(all == first + rest);
        let m = choose|m: int| 0 <= m < all.len() && all[m] == p as usize;
        if m < first.len() {
            assert(first[m] == p as usize);
            lemma_walk_down(t, t.children(i)[from] as int, p, k);
            let n = choose|n: int| 0 <= n < first.len() && first[n] == c;
            assert(all[n] == c);
        } else {
            assert(rest[m - first.len()] == p as usize);
            lemma_walk_children_down(t, i, from + 1, p, k);
            let n = choose|n: int| 0 <= n < rest.len() && rest[n] == c;
            assert(all[first.len() + n] == c);
        }
    }
}

proof fn lemma_walk_child(t: SyntaxTree, i: int, from: int, k: int)
    requires
        t.wf(),
        0 <= i < t.nodes().len(),
        0 <= from <= k < t.children(i).len(),
    ensures
        t.walk_children(i, from).contains(t.children(i)[k]),
    decreases k - from,
{
    lemma_children_lie_after(t, i, from);
    let first = t.walk(t.children(i)[from] as int);
    let rest = t.walk_children(i, from + 1);
    let all = t.walk_children(i, from);
    assert(all == first + rest);
    if from == k {
        assert(first[0] == t.children(i)[from]);
        assert(all[0] == t.children(i)[k]);
    } else {
        lemma_walk_child(t, i, from + 1, k);
        let n = choose|n: int| 0 <= n < rest.len() && rest[n] == t.children(i)[k];
        assert(all[first.len() + n] == t.children(i)[k]);
    }
}

/// A walk begins with its node and comes by every child of what it comes by.
pub proof fn law_a_walk_comes_by_every_child(t: SyntaxTree, i: int, p: int, k: int)
    requires
        t.wf(),
        0 <= i < t.nodes().len(),
        0 <= p < t.nodes().len(),
        t.walk(i).contains(p as usize),
        0 <= k < t.children(p).len(),
    ensures
        t.walk(i)[0] == i,
        t.walk(i).contains(t.children(p)[k]),
{
    lemma_walk_down(t, i, p, k);
}

/// `j` is a named node whose parent is among the places.
pub open spec fn child_of_some(t: SyntaxTree, places: Seq<usize>, j: usize) -> bool {
    &&& t.nodes()[j as int].named
    &&& t.nodes()[j as int].parent matches Some(p) && places.contains(p)
}

proof fn lemma_walk_up(t: SyntaxTree, i: int, j: usize)
    requires
        t.wf(),
        0 <= i < t.nodes().len(),
        t.walk(i).contains(j),
        j != i,
    ensures
        child_of_some(t, t.walk(i), j),
    decreases t.nodes().len() - i, t.children(i).len() + 1,
{
    let w = t.walk(i);
    let rest = t.walk_children(i, 0);
    let m = choose|m: int| 0 <= m < w.len() && w[m] == j;
    assert(rest[m - 1] == j);
    assert(rest.contains(j));
    assert(w[0] == i as usize);
    lemma_walk_children_up(t, i, 0, j);
    let p = t.nodes()[j as int].parent->0;
    if p != i as usize {
        let n = choose|n: int| 0 <= n < rest.len() && rest[n] == p;
        assert(w[n + 1] == p);
    }
}

proof fn lemma_walk_children_up(t: SyntaxTree, i: int, from: int, j: usize)
    requires
        t.wf(),
        0 <= i < t.nodes().len(),
        0 <= from,
        t.walk_children(i, from).contains(j),
    ensures
        t.nodes()[j as int].parent == Some(i as usize) && t.nodes()[j as int].named || child_of_some(
            t,
            t.walk_children(i, from),
            j,
        ),
    decreases t.nodes().len() - i, t.children(i).len() - from,
{
    let all = t.walk_children(i, from);
    if from < t.children(i).len() {
        lemma_children_lie_after(t, i, from);
        let c = t.children(i)[from];
        let first = t.walk(c as int);
        let rest = t.walk_children(i, from + 1);
        assert(all == first + rest);
        let m = choose|m: int| 0 <= m < all.len() && all[m] == j;
        if m < first.len() {
            assert(first[m] == j);
            if j != c {
                lemma_walk_up(t, c as int, j);
                let p = t.nodes()[j as int].parent->0;
                let n = choose|n: int| 0 <= n < first.len() && first[n] == p;
                assert(all[n] == p);
            }
        } else {
            assert(rest[m - first.len()] == j);
            lemma_walk_children_up(t, i, from + 1, j);
            if child_of_some(t, rest, j) {
                let p = t.nodes()[j as int].parent->0;
                let n = choose|n: int| 0 <= n < rest.len() && rest[n] == p;
                assert(all[first.len() + n] == p);
            }
        }
    }
}

/// What a walk comes by, but for where it begins, is named and lies below
/// something that it comes by too.
pub proof fn law_a_walk_stays_below_its_node(t: SyntaxTree, i: int, j: usize)
    requires
        t.wf(),
        0 <= i < t.nodes().len(),
        t.walk(i).contains(j),
        j != i,
    ensures
        t.nodes()[j as int].named,
        t.nodes()[j as int].parent matches Some(p) && t.walk(i).contains(p),
{
    lemma_walk_up(t, i, j);
}

/// Nodes of one parent share their scope, which begins with where the parent
/// starts; the root has none.
pub proof fn law_nodes_of_one_parent_share_their_scope(t: SyntaxTree, a: int, b: int, p: usize)
    requires
        t.wf(),
        0 < a < t.nodes().len(),
        0 < b < t.nodes().len(),
        t.nodes()[a].parent == Some(p),
        t.nodes()[b].parent == Some(p),
    ensures
        t.scope(a) == t.scope(b),
        t.scope(a).len() == t.scope(p as int).len() + 1,
        t.scope(a)[0] == t.nodes()[p as int].start,
        t.scope(a).skip(1) == t.scope(p as int),
        t.scope(0).len() == 0,
{
    assert(crate::syntax::node_fits(t.nodes(), t.source().len(), a));
    assert(crate::syntax::node_fits(t.nodes(), t.source().len(), b));
    assert(crate::syntax::node_fits(t.nodes(), t.source().len(), 0));
    assert(t.scope(a).skip(1) =~= t.scope(p as int));
}

} // verus!
