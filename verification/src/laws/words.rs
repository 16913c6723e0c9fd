//! How texts are cut.
use vstd::prelude::*;
use crate::text;

verus! {

proof fn lemma_one_char(s: Seq<char>, c: char, i: int)
    ensures
        text::occurs_at(s, seq![c], i) <==> 0 <= i < s.len() && s[i] == c,
{
    if 0 <= i < s.len() {
        assert(s.subrange(i, i + 1)[0] == s[i]);
        if s[i] == c {
            assert(s.subrange(i, i + 1) =~= seq![c]);
        }
    }
}

/// What neither of two texts holds, they do not hold together.
pub proof fn lemma_neither_holds(a: Seq<char>, b: Seq<char>, c: char)
    requires
        !a.contains(c),
        !b.contains(c),
    ensures
        !(a + b).contains(c),
{
    let s = a + b;
    if s.contains(c) {
        let i = choose|i: int| 0 <= i < s.len() && s[i] == c;
        if i < a.len() {
            assert(a[i] == c);
        } else {
            assert(b[i - a.len()] == c);
        }
    }
}

/// A text is cut at its last separator: what follows it holds none.
pub proof fn law_a_text_is_cut_at_its_last_separator(a: Seq<char>, b: Seq<char>, c: char)
    requires
        !b.contains(c),
    ensures
        text::split_last(a + seq![c] + b, seq![c]) == Some((a, b)),
        text::split_last(b, seq![c]) is None,
        text::rfind(a + seq![c] + b, seq![c]) == Some(a.len() as int),
{
    let s = a + seq![c] + b;
    text::lemma_last_at(s, seq![c], s.len() - 1);
    lemma_one_char(s, c, a.len() as int);
    assert(s[a.len() as int] == c);
    if let Some(i) = text::rfind(s, seq![c]) {
        lemma_one_char(s, c, i);
        if i > a.len() {
            assert(b[i - a.len() - 1] == c);
            assert(b.contains(c));
        }
        if i == a.len() {
            assert(s.take(i) =~= a);
            assert(s.skip(i + 1) =~= b);
        }
    }
    text::lemma_last_at(b, seq![c], b.len() - 1);
    if let Some(i) = text::rfind(b, seq![c]) {
        lemma_one_char(b, c, i);
        assert(b[i] == c);
    }
}

/// A text is cut at its first separator: what precedes it holds none.
pub proof fn law_a_text_is_cut_at_its_first_separator(a: Seq<char>, b: Seq<char>, c: char)
    requires
        !a.contains(c),
    ensures
        text::split_first(a + seq![c] + b, seq![c]) == Some((a, b)),
        text::split_first(a, seq![c]) is None,
{
    let s = a + seq![c] + b;
    text::lemma_first_at(s, seq![c], 0);
    lemma_one_char(s, c, a.len() as int);
    assert(s[a.len() as int] == c);
    if let Some(i) = text::find(s, seq![c]) {
        lemma_one_char(s, c, i);
        if i < a.len() {
            assert(a[i] == c);
            assert(a.contains(c));
        }
        if i == a.len() {
            assert(s.take(i) =~= a);
            assert(s.skip(i + 1) =~= b);
        }
    }
    text::lemma_first_at(a, seq![c], 0);
    if let Some(i) = text::find(a, seq![c]) {
        lemma_one_char(a, c, i);
        assert(a[i] == c);
    }
}

/// A text begins with its beginning, ends with its ending, and holds what stands
/// between; what follows a prefix is the rest.
pub proof fn law_a_text_begins_and_ends_with_its_parts(a: Seq<char>, b: Seq<char>, c: Seq<char>)
    ensures
        text::starts_with(a + b, a),
        text::ends_with(a + b, b),
        text::contains(a + b + c, b),
        text::after_prefix(a + b, a) == Some(b),
        text::before_suffix(a + b, b) == Some(a),
{
    assert((a + b).subrange(0, a.len() as int) =~= a);
    assert((a + b).subrange((a + b).len() - b.len(), (a + b).len() as int) =~= b);
    assert((a + b + c).subrange(a.len() as int, (a.len() + b.len()) as int) =~= b);
    assert(text::occurs_at(a + b + c, b, a.len() as int));
    assert((a + b).skip(a.len() as int) =~= b);
    assert((a + b).take((a + b).len() - b.len()) =~= a);
}

} // verus!
