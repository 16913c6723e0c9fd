//! Orders, sorted lists and lists without repetition.
use vstd::prelude::*;
use crate::text;
use crate::text::{chars_of, same};

verus! {

// ---------------------------------------------------------------------------
// The order of strings
// ---------------------------------------------------------------------------

/// `a` stands before `b`: at the first place where they differ `a` has the
/// smaller character, or `a` is a proper prefix of `b`.
pub open spec fn text_before(a: Seq<char>, b: Seq<char>) -> bool
    decreases a.len(),
{
    if b.len() == 0 {
        false
    } else if a.len() == 0 {
        true
    } else if a[0] == b[0] {
        text_before(a.skip(1), b.skip(1))
    } else {
        a[0] < b[0]
    }
}

pub proof fn lemma_text_before_irreflexive(a: Seq<char>)
    ensures
        !text_before(a, a),
    decreases a.len(),
{
    if a.len() > 0 {
        lemma_text_before_irreflexive(a.skip(1));
    }
}

pub proof fn lemma_text_before_transitive(a: Seq<char>, b: Seq<char>, c: Seq<char>)
    requires
        text_before(a, b),
        text_before(b, c),
    ensures
        text_before(a, c),
    decreases a.len(),
{
    if a.len() > 0 && b.len() > 0 && c.len() > 0 && a[0] == b[0] && b[0] == c[0] {
        lemma_text_before_transitive(a.skip(1), b.skip(1), c.skip(1));
    }
}

pub proof fn lemma_text_before_total(a: Seq<char>, b: Seq<char>)
    ensures
        a == b || text_before(a, b) || text_before(b, a),
    decreases a.len(),
{
    if a.len() > 0 && b.len() > 0 && a[0] == b[0] {
        lemma_text_before_total(a.skip(1), b.skip(1));
        if a.skip(1) == b.skip(1) {
            assert(a =~= seq![a[0]] + a.skip(1));
            assert(b =~= seq![b[0]] + b.skip(1));
        }
    } else if a.len() == 0 && b.len() == 0 {
        assert(a =~= b);
    }
}

/// What stands behind two texts of one length that differ does not matter.
pub proof fn lemma_text_before_decided(a: Seq<char>, b: Seq<char>, x: Seq<char>, y: Seq<char>)
    requires
        a.len() == b.len(),
        text_before(a, b),
    ensures
        text_before(a + x, b + y),
    decreases a.len(),
{
    if a.len() > 0 {
        assert((a + x)[0] == a[0] && (b + y)[0] == b[0]);
        if a[0] == b[0] {
            lemma_text_before_decided(a.skip(1), b.skip(1), x, y);
            assert((a + x).skip(1) =~= a.skip(1) + x);
            assert((b + y).skip(1) =~= b.skip(1) + y);
        }
    }
}

/// What two texts have in common at their front does not matter.
pub proof fn lemma_text_before_common(p: Seq<char>, a: Seq<char>, b: Seq<char>)
    ensures
        text_before(p + a, p + b) == text_before(a, b),
    decreases p.len(),
{
    if p.len() == 0 {
        assert(p + a =~= a);
        assert(p + b =~= b);
    } else {
        lemma_text_before_common(p.skip(1), a, b);
        assert((p + a).skip(1) =~= p.skip(1) + a);
        assert((p + b).skip(1) =~= p.skip(1) + b);
    }
}

/// Whether `a` stands before `b`.
pub fn before(a: &str, b: &str) -> (r: bool)
    ensures
        r == text_before(a@, b@),
{
    let x = chars_of(a);
    let y = chars_of(b);
    let mut i: usize = 0;
    assert(a@.skip(0) =~= a@);
    assert(b@.skip(0) =~= b@);
    while i < x.len() && i < y.len()
        invariant
            x@ == a@,
            y@ == b@,
            i <= x.len(),
            i <= y.len(),
            text_before(a@, b@) == text_before(a@.skip(i as int), b@.skip(i as int)),
        decreases x.len() - i,
    {
        assert(a@.skip(i as int).skip(1) =~= a@.skip(i + 1));
        assert(b@.skip(i as int).skip(1) =~= b@.skip(i + 1));
        if x[i] != y[i] {
            return x[i] < y[i];
        }
        i += 1;
    }
    i < y.len()
}

// ---------------------------------------------------------------------------
// Sorting
// ---------------------------------------------------------------------------

/// A type whose values are put in order by what they show.
pub trait Ranked: View + Sized {
    /// `a` must stand before `b`.
    spec fn ahead(a: Self::V, b: Self::V) -> bool;

    fn is_ahead(&self, other: &Self) -> (r: bool)
        ensures
            r == Self::ahead(self@, other@),
    ;

    proof fn ahead_is_asymmetric(a: Self::V, b: Self::V)
        requires
            Self::ahead(a, b),
        ensures
            !Self::ahead(b, a),
    ;

    /// What need not stand before a value need not stand before one that this
    /// value need not precede either.
    proof fn ahead_is_negatively_transitive(a: Self::V, b: Self::V, c: Self::V)
        requires
            !Self::ahead(a, b),
            !Self::ahead(b, c),
        ensures
            !Self::ahead(a, c),
    ;
}

/// No later value must stand before an earlier one.
pub open spec fn in_order<T: Ranked>(s: Seq<T::V>) -> bool {
    forall|i: int, j: int|
        #![trigger T::ahead(s[j], s[i])]
        0 <= i < j < s.len() ==> !T::ahead(s[j], s[i])
}

/// `s` with `x` placed behind every value that `x` need not precede, counting
/// from the end.
pub open spec fn placed<T: Ranked>(s: Seq<T::V>, x: T::V) -> Seq<T::V>
    decreases s.len(),
{
    if s.len() > 0 && T::ahead(x, s.last()) {
        placed::<T>(s.drop_last(), x).push(s.last())
    } else {
        s.push(x)
    }
}

/// The stable sort of `s`: each value in turn goes behind those it ties with.
pub open spec fn sorted<T: Ranked>(s: Seq<T::V>) -> Seq<T::V>
    decreases s.len(),
{
    if s.len() == 0 {
        s
    } else {
        placed::<T>(sorted::<T>(s.drop_last()), s.last())
    }
}

proof fn lemma_placed<T: Ranked>(s: Seq<T::V>, x: T::V)
    requires
        in_order::<T>(s),
    ensures
        in_order::<T>(placed::<T>(s, x)),
        placed::<T>(s, x).to_multiset() == s.to_multiset().insert(x),
        placed::<T>(s, x).len() == s.len() + 1,
    decreases s.len(),
{
    broadcast use vstd::seq_lib::group_to_multiset_ensures;

    if s.len() > 0 && T::ahead(x, s.last()) {
        let front = s.drop_last();
        let last = s.last();
        lemma_placed::<T>(front, x);
        let inner = placed::<T>(front, x);
        assert(s =~= front.push(last));
        assert(s.to_multiset() =~= front.to_multiset().insert(last));
        assert(inner.push(last).to_multiset() =~= s.to_multiset().insert(x));
        assert forall|i: int| 0 <= i < inner.len() implies !(#[trigger] T::ahead(last, inner[i])) by {
            assert(inner.to_multiset().contains(inner[i]));
            if inner[i] == x {
                T::ahead_is_asymmetric(x, last);
            } else {
                assert(front.to_multiset().contains(inner[i]));
                assert(front.contains(inner[i]));
                let k = choose|k: int| 0 <= k < front.len() && front[k] == inner[i];
                assert(s[k] == inner[i]);
                assert(!T::ahead(s[s.len() - 1], s[k]));
            }
        }
    } else {
        assert forall|i: int| 0 <= i < s.len() implies !(#[trigger] T::ahead(x, s[i])) by {
            if i < s.len() - 1 {
                assert(!T::ahead(s[s.len() - 1], s[i]));
                T::ahead_is_negatively_transitive(x, s.last(), s[i]);
            }
        }
    }
}

/// A sorted sequence is in order and holds the same values.
pub proof fn lemma_sorted<T: Ranked>(s: Seq<T::V>)
    ensures
        in_order::<T>(sorted::<T>(s)),
        sorted::<T>(s).to_multiset() == s.to_multiset(),
        sorted::<T>(s).len() == s.len(),
    decreases s.len(),
{
    broadcast use vstd::seq_lib::group_to_multiset_ensures;

    if s.len() > 0 {
        lemma_sorted::<T>(s.drop_last());
        lemma_placed::<T>(sorted::<T>(s.drop_last()), s.last());
        assert(s =~= s.drop_last().push(s.last()));
    }
}

fn place<T: Ranked>(v: &mut Vec<T>, x: T)
    ensures
        text::views(final(v)@) == placed::<T>(text::views(old(v)@), x@),
{
    let mut i: usize = v.len();
    let ghost s = text::views(v@);
    assert(s.skip(s.len() as int) =~= Seq::<T::V>::empty());
    assert(s.take(s.len() as int) =~= s);
    assert(placed::<T>(s, x@) + Seq::<T::V>::empty() =~= placed::<T>(s, x@));
    while i > 0 && x.is_ahead(&v[i - 1])
        invariant
            text::views(v@) == s,
            s.len() == v@.len(),
            i <= v.len(),
            placed::<T>(s, x@) == placed::<T>(s.take(i as int), x@) + s.skip(i as int),
        decreases i,
    {
        proof {
            let t = s.take(i as int);
            assert(t.drop_last() =~= s.take(i - 1));
            assert(s.skip(i - 1) =~= seq![s[i - 1]] + s.skip(i as int));
            let front = placed::<T>(s.take(i - 1), x@);
            assert(front.push(s[i - 1]) + s.skip(i as int) =~= front + s.skip(i - 1));
        }
        i -= 1;
    }
    proof {
        assert(s.take(i as int).push(x@) + s.skip(i as int) =~= s.insert(i as int, x@));
    }
    let ghost seen = x@;
    v.insert(i, x);
    assert(text::views(v@) =~= s.insert(i as int, seen));
}

/// The stable sort of `v`.
pub fn sort<T: Ranked>(v: Vec<T>) -> (out: Vec<T>)
    ensures
        text::views(out@) == sorted::<T>(text::views(v@)),
{
    let mut out: Vec<T> = Vec::new();
    let ghost items = v@;
    let ghost all = text::views(v@);
    assert(text::views(out@) =~= all.take(0));
    for x in it: v
        invariant
            it.seq() == items,
            all == text::views(items),
            text::views(out@) == sorted::<T>(all.take(it.index())),
    {
        assert(all.take(it.index() + 1).drop_last() =~= all.take(it.index()));
        assert(all[it.index()] == x@);
        place(&mut out, x);
    }
    assert(all.take(all.len() as int) =~= all);
    out
}

impl Ranked for String {
    open spec fn ahead(a: Seq<char>, b: Seq<char>) -> bool {
        text_before(a, b)
    }

    fn is_ahead(&self, other: &String) -> (r: bool) {
        before(self.as_str(), other.as_str())
    }

    proof fn ahead_is_asymmetric(a: Seq<char>, b: Seq<char>) {
        assert(<String as Ranked>::ahead(a, b) == text_before(a, b));
        if text_before(b, a) {
            lemma_text_before_transitive(a, b, a);
            lemma_text_before_irreflexive(a);
        }
    }

    proof fn ahead_is_negatively_transitive(a: Seq<char>, b: Seq<char>, c: Seq<char>) {
        lemma_text_before_total(a, b);
        lemma_text_before_total(b, c);
        if text_before(a, c) {
            if a != b {
                lemma_text_before_transitive(b, a, c);
            }
        }
    }
}

// ---------------------------------------------------------------------------
// Lists of strings without repetition
// ---------------------------------------------------------------------------

/// The texts strictly ascend: sorted, and none occurs twice.
pub open spec fn ascending(s: Seq<Seq<char>>) -> bool {
    forall|i: int, j: int| 0 <= i < j < s.len() ==> text_before(#[trigger] s[i], #[trigger] s[j])
}

/// `out` lists the texts of `s` in ascending order, each once.
pub open spec fn ascending_of(out: Seq<Seq<char>>, s: Seq<Seq<char>>) -> bool {
    &&& ascending(out)
    &&& forall|x: Seq<char>| #[trigger] out.contains(x) <==> s.contains(x)
}

/// The ascending list of the texts of `s`, each once.
pub open spec fn ascending_set(s: Seq<Seq<char>>) -> Seq<Seq<char>> {
    choose|out: Seq<Seq<char>>| ascending_of(out, s)
}

/// An ascending list of the texts of `s` is the ascending list of them.
pub proof fn lemma_ascending_set(out: Seq<Seq<char>>, s: Seq<Seq<char>>)
    requires
        ascending_of(out, s),
    ensures
        out == ascending_set(s),
{
    let other = ascending_set(s);
    assert(ascending_of(other, s));
    assert forall|x: Seq<char>| out.contains(x) <==> other.contains(x) by {
        assert(out.contains(x) <==> s.contains(x));
        assert(other.contains(x) <==> s.contains(x));
    }
    lemma_ascending_unique(out, other);
}

/// Two ascending lists of the same texts are one list.
pub proof fn lemma_ascending_unique(a: Seq<Seq<char>>, b: Seq<Seq<char>>)
    requires
        ascending(a),
        ascending(b),
        forall|x: Seq<char>| a.contains(x) <==> b.contains(x),
    ensures
        a == b,
    decreases a.len(),
{
    if a.len() == 0 {
        if b.len() > 0 {
            assert(b.contains(b[0]));
            assert(a.contains(b[0]));
        }
        assert(a =~= b);
    } else {
        assert(a.contains(a.last()));
        assert(b.len() > 0) by {
            assert(b.contains(a.last()));
        }
        assert(a.last() == b.last()) by {
            let j = choose|j: int| 0 <= j < b.len() && b[j] == a.last();
            assert(b.contains(b.last()));
            assert(a.contains(b.last()));
            let i = choose|i: int| 0 <= i < a.len() && a[i] == b.last();
            if a.last() != b.last() {
                assert(text_before(a[i], a[a.len() - 1]));
                assert(text_before(b[j], b[b.len() - 1]));
                lemma_text_before_transitive(a.last(), b.last(), a.last());
                lemma_text_before_irreflexive(a.last());
            }
        }
        let a1 = a.drop_last();
        let b1 = b.drop_last();
        assert forall|x: Seq<char>| a1.contains(x) <==> b1.contains(x) by {
            if a1.contains(x) {
                let i = choose|i: int| 0 <= i < a1.len() && a1[i] == x;
                assert(a[i] == x && a.contains(x));
                assert(text_before(a[i], a[a.len() - 1]));
                lemma_text_before_irreflexive(x);
                let j = choose|j: int| 0 <= j < b.len() && b[j] == x;
                assert(j < b.len() - 1);
                assert(b1[j] == x);
            }
            if b1.contains(x) {
                let i = choose|i: int| 0 <= i < b1.len() && b1[i] == x;
                assert(b[i] == x && b.contains(x));
                assert(text_before(b[i], b[b.len() - 1]));
                lemma_text_before_irreflexive(x);
                let j = choose|j: int| 0 <= j < a.len() && a[j] == x;
                assert(j < a.len() - 1);
                assert(a1[j] == x);
            }
        }
        lemma_ascending_unique(a1, b1);
        assert(a =~= a1.push(a.last()));
        assert(b =~= b1.push(b.last()));
    }
}

/// Whether `x` is among `v`.
pub fn among(v: &Vec<String>, x: &str) -> (r: bool)
    ensures
        r == text::views(v@).contains(x@),
{
    broadcast use text::group_views;
    let mut i: usize = 0;
    while i < v.len()
        invariant
            i <= v.len(),
            forall|j: int| 0 <= j < i ==> text::views(v@)[j] != x@,
        decreases v.len() - i,
    {
        broadcast use text::group_views;
        if same(v[i].as_str(), x) {
            assert(text::views(v@)[i as int] == x@);
            return true;
        }
        i += 1;
    }
    false
}

/// The texts of `v` in ascending order, each once.
pub fn ascending_list(v: &Vec<String>) -> (out: Vec<String>)
    ensures
        ascending_of(text::views(out@), text::views(v@)),
        text::views(out@) == ascending_set(text::views(v@)),
{
    broadcast use text::group_views;
    let mut out: Vec<String> = Vec::new();
    let mut i: usize = 0;
    while i < v.len()
        invariant
            i <= v.len(),
            ascending(text::views(out@)),
            forall|x: Seq<char>| #[trigger]
                text::views(out@).contains(x) <==> text::views(v@).take(i as int).contains(x),
        decreases v.len() - i,
    {
        broadcast use text::group_views;
        let ghost next = text::views(v@).take(i + 1);
        assert(next =~= text::views(v@).take(i as int).push(v@[i as int]@));
        assert forall|x: Seq<char>| next.contains(x) <==> text::views(v@).take(i as int).contains(x) || x
            == v@[i as int]@ by {
            if text::views(v@).take(i as int).contains(x) {
                let k = choose|k: int|
                    0 <= k < text::views(v@).take(i as int).len() && text::views(v@).take(i as int)[k] == x;
                assert(next[k] == x);
            }
            if x == v@[i as int]@ {
                assert(next[i as int] == x);
            }
        }
        insert_ascending(&mut out, v[i].as_str());
        i += 1;
    }
    assert(text::views(v@).take(v@.len() as int) =~= text::views(v@));
    proof {
        lemma_ascending_set(text::views(out@), text::views(v@));
    }
    out
}

/// Adds `x` at its place, unless it is there.
pub fn insert_ascending(v: &mut Vec<String>, x: &str)
    requires
        ascending(text::views(old(v)@)),
    ensures
        ascending(text::views(final(v)@)),
        forall|y: Seq<char>| #[trigger]
            text::views(final(v)@).contains(y) <==> text::views(old(v)@).contains(y) || y == x@,
{
    broadcast use text::group_views;
    let ghost s = text::views(v@);
    let mut i: usize = 0;
    while i < v.len() && before(v[i].as_str(), x)
        invariant
            s == text::views(v@),
            i <= v.len(),
            forall|j: int| 0 <= j < i ==> text_before(#[trigger] s[j], x@),
        decreases v.len() - i,
    {
        broadcast use text::group_views;
        i += 1;
    }
    if i < v.len() && same(v[i].as_str(), x) {
        assert(s[i as int] == x@);
        return ;
    }
    let item = x.to_owned();
    let ghost t = s.insert(i as int, x@);
    proof {
        assert forall|j: int| i <= j < s.len() implies text_before(x@, #[trigger] s[j]) by {
            lemma_text_before_total(x@, s[i as int]);
            if j > i {
                assert(text_before(s[i as int], s[j]));
                lemma_text_before_transitive(x@, s[i as int], s[j]);
            }
        }
        assert forall|a: int, b: int| 0 <= a < b < t.len() implies text_before(
            #[trigger] t[a],
            #[trigger] t[b],
        ) by {
            if a < i && b > i {
                assert(text_before(s[a], s[b - 1]));
            } else if a > i {
                assert(text_before(s[a - 1], s[b - 1]));
            }
        }
        assert forall|y: Seq<char>| #[trigger] t.contains(y) <==> s.contains(y) || y == x@ by {
            if t.contains(y) {
                let k = choose|k: int| 0 <= k < t.len() && t[k] == y;
                if k < i {
                    assert(s[k] == y);
                } else if k > i {
                    assert(s[k - 1] == y);
                }
            }
            if s.contains(y) {
                let k = choose|k: int| 0 <= k < s.len() && s[k] == y;
                if k < i {
                    assert(t[k] == y);
                } else {
                    assert(t[k + 1] == y);
                }
            }
            if y == x@ {
                assert(t[i as int] == y);
            }
        }
    }
    v.insert(i, item);
    assert(text::views(v@) =~= t);
}

/// The texts of `s` in the order of their first appearance, each once.
pub open spec fn firsts(s: Seq<Seq<char>>) -> Seq<Seq<char>>
    decreases s.len(),
{
    if s.len() == 0 {
        s
    } else if s.drop_last().contains(s.last()) {
        firsts(s.drop_last())
    } else {
        firsts(s.drop_last()).push(s.last())
    }
}

/// First appearances keep the set of texts and repeat none.
pub proof fn lemma_firsts(s: Seq<Seq<char>>)
    ensures
        forall|x: Seq<char>| #[trigger] firsts(s).contains(x) <==> s.contains(x),
        firsts(s).no_duplicates(),
        firsts(s).len() <= s.len(),
    decreases s.len(),
{
    if s.len() > 0 {
        let front = s.drop_last();
        lemma_firsts(front);
        assert(s =~= front.push(s.last()));
        let r = firsts(s);
        assert forall|x: Seq<char>| #[trigger] r.contains(x) <==> s.contains(x) by {
            if s.contains(x) && x != s.last() {
                let k = choose|k: int| 0 <= k < s.len() && s[k] == x;
                assert(front[k] == x);
            }
            if front.contains(x) {
                let k = choose|k: int| 0 <= k < front.len() && front[k] == x;
                assert(s[k] == x);
                assert(firsts(front).contains(x));
                let m = choose|m: int| 0 <= m < firsts(front).len() && firsts(front)[m] == x;
                assert(r[m] == x);
            }
            if r.contains(x) {
                let m = choose|m: int| 0 <= m < r.len() && r[m] == x;
                if m < firsts(front).len() {
                    assert(firsts(front).contains(x));
                    let k = choose|k: int| 0 <= k < front.len() && front[k] == x;
                    assert(s[k] == x);
                } else {
                    assert(s[s.len() - 1] == x);
                }
            }
            if x == s.last() && !front.contains(x) {
                assert(r[r.len() - 1] == x);
            }
        }
        if !front.contains(s.last()) {
            assert(!firsts(front).contains(s.last()));
        }
    }
}

/// Every sequence of texts has an ascending list.
pub proof fn lemma_ascending_set_holds(s: Seq<Seq<char>>)
    ensures
        ascending_of(ascending_set(s), s),
{
    broadcast use vstd::seq_lib::group_to_multiset_ensures;

    let once = firsts(s);
    lemma_firsts(s);
    let out = sorted::<String>(once);
    lemma_sorted::<String>(once);
    once.lemma_multiset_has_no_duplicates();
    out.lemma_multiset_has_no_duplicates_conv();
    assert forall|i: int, j: int| 0 <= i < j < out.len() implies text_before(#[trigger] out[i], #[trigger] out[j]) by {
        assert(!<String as Ranked>::ahead(out[j], out[i]));
        lemma_text_before_total(out[i], out[j]);
    }
    assert forall|x: Seq<char>| #[trigger] out.contains(x) <==> s.contains(x) by {
        assert(out.contains(x) <==> out.to_multiset().contains(x));
        assert(once.contains(x) <==> once.to_multiset().contains(x));
    }
    assert(ascending_of(out, s));
}

} // verus!
