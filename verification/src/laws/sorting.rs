//! Lists that are sorted or cut keep what they hold.
use vstd::prelude::*;
use crate::impact::at_most;
use crate::order;
use crate::order::{sorted, text_before, Ranked};

verus! {

/// Sorting neither loses nor adds anything.
pub proof fn law_sorting_keeps_what_is_listed<T: Ranked>(s: Seq<T::V>)
    ensures
        sorted::<T>(s).len() == s.len(),
        forall|x: T::V| #[trigger] sorted::<T>(s).contains(x) <==> s.contains(x),
{
    broadcast use vstd::seq_lib::group_to_multiset_ensures;

    order::lemma_sorted::<T>(s);
    assert forall|x: T::V| #[trigger] sorted::<T>(s).contains(x) <==> s.contains(x) by {
        assert(sorted::<T>(s).contains(x) <==> sorted::<T>(s).to_multiset().count(x) > 0);
        assert(s.contains(x) <==> s.to_multiset().count(x) > 0);
    }
}

/// One text stands before another where it is a proper beginning of it, or where
/// the first characters in which they differ rise.
pub proof fn law_texts_are_ordered_by_their_first_difference(a: Seq<char>, b: Seq<char>)
    ensures
        text_before(a, b) <==> exists|k: int|
            0 <= k <= a.len() && k < b.len() && a.take(k) == #[trigger] b.take(k) && (k == a.len() || a[k] < b[k]),
    decreases a.len(),
{
    if b.len() == 0 {
    } else if a.len() == 0 {
        assert(a.take(0) =~= b.take(0));
    } else if a[0] == b[0] {
        let (x, y) = (a.skip(1), b.skip(1));
        law_texts_are_ordered_by_their_first_difference(x, y);
        if text_before(a, b) {
            let k = choose|k: int|
                0 <= k <= x.len() && k < y.len() && x.take(k) == #[trigger] y.take(k) && (k == x.len() || x[k] < y[k]);
            assert(a.take(k + 1) =~= seq![a[0]] + x.take(k));
            assert(b.take(k + 1) =~= seq![b[0]] + y.take(k));
        }
        if exists|k: int|
            0 <= k <= a.len() && k < b.len() && a.take(k) == #[trigger] b.take(k) && (k == a.len() || a[k] < b[k]) {
            let k = choose|k: int|
                0 <= k <= a.len() && k < b.len() && a.take(k) == #[trigger] b.take(k) && (k == a.len() || a[k] < b[k]);
            assert(k > 0);
            assert(x.take(k - 1) =~= a.take(k).skip(1));
            assert(y.take(k - 1) =~= b.take(k).skip(1));
        }
    } else {
        if a[0] < b[0] {
            assert(a.take(0) =~= b.take(0));
        }
        if exists|k: int|
            0 <= k <= a.len() && k < b.len() && a.take(k) == #[trigger] b.take(k) && (k == a.len() || a[k] < b[k]) {
            let k = choose|k: int|
                0 <= k <= a.len() && k < b.len() && a.take(k) == #[trigger] b.take(k) && (k == a.len() || a[k] < b[k]);
            if k > 0 {
                assert(a.take(k)[0] == b.take(k)[0]);
            }
        }
    }
}

/// A list that is cut keeps its beginning, up to the bound.
pub proof fn law_cutting_keeps_the_beginning<A>(s: Seq<A>, n: usize)
    ensures
        at_most(s, n).len() <= n,
        at_most(s, n).len() == n || at_most(s, n).len() == s.len(),
        forall|i: int| 0 <= i < at_most(s, n).len() ==> #[trigger] at_most(s, n)[i] == s[i],
{
}

} // verus!
