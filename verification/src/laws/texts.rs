//! How texts are trimmed, cut, joined, rewritten and read.
use vstd::prelude::*;
use crate::text;
use crate::text::NumberFault;

verus! {

/// Blanks, tabs and line ends are space; visible ASCII characters are not.
pub proof fn law_visible_characters_are_no_space(c: char)
    ensures
        '\u{21}' <= c <= '\u{7e}' ==> !text::is_space(c),
        c == ' ' || c == '\t' || c == '\n' || c == '\r' ==> text::is_space(c),
{
}

proof fn lemma_leading_space_goes(a: Seq<char>, x: Seq<char>)
    requires
        forall|i: int| 0 <= i < a.len() ==> text::is_space(#[trigger] a[i]),
        x.len() == 0 || !text::is_space(x[0]),
    ensures
        text::trimmed_start(a + x) == x,
    decreases a.len(),
{
    let s = a + x;
    if a.len() > 0 {
        assert(s[0] == a[0]);
        assert forall|i: int| 0 <= i < a.skip(1).len() implies text::is_space(#[trigger] a.skip(1)[i]) by {
            assert(a.skip(1)[i] == a[i + 1]);
        }
        lemma_leading_space_goes(a.skip(1), x);
        assert(s.skip(1) =~= a.skip(1) + x);
    } else {
        assert(s =~= x);
    }
}

proof fn lemma_trailing_space_goes(x: Seq<char>, b: Seq<char>)
    requires
        forall|i: int| 0 <= i < b.len() ==> text::is_space(#[trigger] b[i]),
        x.len() == 0 || !text::is_space(x.last()),
    ensures
        text::trimmed_end(x + b) == x,
    decreases b.len(),
{
    let s = x + b;
    if b.len() > 0 {
        assert(s.last() == b[b.len() - 1]);
        let front = b.drop_last();
        assert forall|i: int| 0 <= i < front.len() implies text::is_space(#[trigger] front[i]) by {
            assert(front[i] == b[i]);
        }
        lemma_trailing_space_goes(x, front);
        assert(s.drop_last() =~= x + front);
    } else {
        assert(s =~= x);
    }
}

/// Trimming takes off the space around a text and nothing else; of space alone
/// nothing stays.
pub proof fn law_only_the_space_around_a_text_is_trimmed(a: Seq<char>, x: Seq<char>, b: Seq<char>)
    requires
        forall|i: int| 0 <= i < a.len() ==> text::is_space(#[trigger] a[i]),
        forall|i: int| 0 <= i < b.len() ==> text::is_space(#[trigger] b[i]),
        x.len() > 0,
        !text::is_space(x[0]),
        !text::is_space(x.last()),
    ensures
        text::trimmed_start(a + (x + b)) == x + b,
        text::trimmed_end((a + x) + b) == a + x,
        text::trimmed(a + (x + b)) == x,
        text::trimmed(a) == Seq::<char>::empty(),
{
    assert((x + b)[0] == x[0]);
    lemma_leading_space_goes(a, x + b);
    lemma_trailing_space_goes(x, b);
    assert((a + x).last() == x.last());
    lemma_trailing_space_goes(a + x, b);
    lemma_leading_space_goes(a, Seq::empty());
    assert(a + Seq::<char>::empty() =~= a);
}

/// Characters at an end that are to go all go, and no other does.
pub proof fn law_the_characters_at_an_end_go(x: Seq<char>, c: char, n: nat)
    requires
        x.len() > 0,
        x[0] != c,
        x.last() != c,
    ensures
        text::without_leading(Seq::new(n, |i: int| c) + x, c) == x,
        text::without_trailing(x + Seq::new(n, |i: int| c), c) == x,
    decreases n,
{
    let run = Seq::new(n, |i: int| c);
    if n > 0 {
        let less = Seq::new((n - 1) as nat, |i: int| c);
        law_the_characters_at_an_end_go(x, c, (n - 1) as nat);
        assert((run + x).skip(1) =~= less + x);
        assert((x + run).drop_last() =~= x + less);
        assert((run + x)[0] == c);
        assert((x + run).last() == c);
    } else {
        assert(run + x =~= x);
        assert(x + run =~= x);
    }
}

/// Joining puts the separator between the parts and nowhere else.
pub proof fn law_joining_puts_the_separator_between(a: Seq<Seq<char>>, b: Seq<Seq<char>>, sep: Seq<char>)
    requires
        a.len() > 0,
        b.len() > 0,
    ensures
        text::joined(a + b, sep) == text::joined(a, sep) + sep + text::joined(b, sep),
        text::joined(seq![a[0]], sep) == a[0],
    decreases b.len(),
{
    let all = a + b;
    assert(all.last() == b.last());
    if b.len() == 1 {
        assert(all.drop_last() =~= a);
        assert(text::joined(b, sep) == b[0]);
    } else {
        law_joining_puts_the_separator_between(a, b.drop_last(), sep);
        assert(all.drop_last() =~= a + b.drop_last());
        assert(text::joined(all, sep) =~= text::joined(a, sep) + sep + (text::joined(b.drop_last(), sep) + sep
            + b.last()));
    }
}

proof fn lemma_pieces_join(s: Seq<char>, c: char, start: int, i: int)
    requires
        0 <= start <= i <= s.len(),
    ensures
        text::joined(text::pieces_from(s, c, start, i), seq![c]) == s.skip(start),
    decreases s.len() - i,
{
    if i >= s.len() {
        assert(s.subrange(start, s.len() as int) =~= s.skip(start));
        assert(text::pieces_from(s, c, start, i)[0] == s.skip(start));
    } else if s[i] == c {
        let rest = text::pieces_from(s, c, i + 1, i + 1);
        let first = seq![s.subrange(start, i)];
        text::lemma_pieces_nonempty(s, c, i + 1, i + 1);
        lemma_pieces_join(s, c, i + 1, i + 1);
        law_joining_puts_the_separator_between(first, rest, seq![c]);
        assert(text::joined(first, seq![c]) == first[0]);
        assert(s.subrange(start, i) + seq![c] + s.skip(i + 1) =~= s.skip(start));
    } else {
        lemma_pieces_join(s, c, start, i + 1);
    }
}

/// Cutting a text at a character and joining the pieces with it gives the text
/// back, and no piece holds the character.
pub proof fn law_the_pieces_of_a_text_make_it_up(s: Seq<char>, c: char, k: int)
    requires
        0 <= k < text::pieces(s, c).len(),
    ensures
        text::joined(text::pieces(s, c), seq![c]) == s,
        !text::pieces(s, c)[k].contains(c),
{
    lemma_pieces_join(s, c, 0, 0);
    assert(s.skip(0) =~= s);
    text::lemma_pieces_hold_no_separator(s, c, 0, 0);
}

/// Parts without the separator come back when what they were joined to is cut.
pub proof fn law_joined_parts_are_cut_apart_again(parts: Seq<Seq<char>>, c: char)
    requires
        parts.len() > 0,
        forall|k: int| 0 <= k < parts.len() ==> !(#[trigger] parts[k]).contains(c),
    ensures
        text::pieces(text::joined(parts, seq![c]), c) == parts,
{
    text::lemma_joined_parts_are_the_pieces(parts, c);
}

/// The lines of a text are what stands between its line ends: whether or not the
/// last one is ended, there is no empty line after it, and a carriage return
/// before a line end belongs to the end.
pub proof fn law_lines_are_ended_not_separated(all: Seq<Seq<char>>)
    requires
        all.len() > 0,
        forall|k: int| 0 <= k < all.len() ==> !(#[trigger] all[k]).contains('\n'),
        forall|k: int| 0 <= k < all.len() ==> (#[trigger] all[k]).len() > 0 && all[k].last() != '\r',
    ensures
        text::lines(text::joined(all, seq!['\n'])) == all,
        text::lines(text::joined(all, seq!['\n']) + seq!['\n']) == all,
{
    text::lemma_joined_parts_are_the_pieces(all, '\n');
    assert(all.drop_last().map_values(|p: Seq<char>| text::without_cr(p)) =~= all.drop_last());
    assert(all.drop_last().push(all.last()) =~= all);
    let more = all.push(Seq::empty());
    assert forall|k: int| 0 <= k < more.len() implies !(#[trigger] more[k]).contains('\n') by {
        if k < all.len() {
            assert(more[k] == all[k]);
        }
    }
    text::lemma_joined_parts_are_the_pieces(more, '\n');
    assert(more.drop_last() =~= all);
    assert(text::joined(more, seq!['\n']) =~= text::joined(all, seq!['\n']) + seq!['\n']);
    assert(all.map_values(|p: Seq<char>| text::without_cr(p)) =~= all);
}

/// A line's carriage return goes with its end, and stays where no end follows.
pub proof fn law_a_carriage_return_goes_with_its_line_end(a: Seq<char>)
    requires
        !a.contains('\n'),
    ensures
        text::lines(a + seq!['\r', '\n']) == seq![a],
        text::lines(a + seq!['\r']) == seq![a + seq!['\r']],
        text::lines(Seq::<char>::empty()).len() == 0,
{
    let b = a + seq!['\r'];
    crate::laws::words::lemma_neither_holds(a, seq!['\r'], '\n');
    let two = seq![b, Seq::<char>::empty()];
    text::lemma_joined_parts_are_the_pieces(two, '\n');
    reveal_with_fuel(text::joined, 3);
    assert(two.drop_last() =~= seq![b]);
    assert(text::joined(two, seq!['\n']) =~= a + seq!['\r', '\n']);
    assert(b.drop_last() =~= a);
    assert(text::lines(a + seq!['\r', '\n']) =~= seq![a]);
    text::lemma_joined_parts_are_the_pieces(seq![b], '\n');
    assert(seq![b].drop_last() =~= Seq::<Seq<char>>::empty());
    assert(text::lines(b) =~= seq![b]);
    let none = seq![Seq::<char>::empty()];
    text::lemma_joined_parts_are_the_pieces(none, '\n');
    assert(none.drop_last() =~= Seq::<Seq<char>>::empty());
}

proof fn lemma_some_stretch(s: Seq<char>)
    ensures
        text::between_spaces(s).len() > 0,
    decreases s.len(),
{
    if s.len() > 0 {
        lemma_some_stretch(s.drop_last());
    }
}

proof fn lemma_stretches_of_both(a: Seq<char>, c: char, b: Seq<char>)
    requires
        text::is_space(c),
    ensures
        text::between_spaces(a + seq![c] + b) == text::between_spaces(a) + text::between_spaces(b),
    decreases b.len(),
{
    let s = a + seq![c] + b;
    if b.len() == 0 {
        assert(s.drop_last() =~= a);
        assert(text::between_spaces(s) =~= text::between_spaces(a) + text::between_spaces(b));
    } else {
        lemma_stretches_of_both(a, c, b.drop_last());
        lemma_some_stretch(b.drop_last());
        assert(s.drop_last() =~= a + seq![c] + b.drop_last());
        assert(text::between_spaces(s) =~= text::between_spaces(a) + text::between_spaces(b));
    }
}

/// The words of a text are those before any of its spaces and those after it.
pub proof fn law_words_are_parted_by_space(a: Seq<char>, c: char, b: Seq<char>)
    requires
        text::is_space(c),
    ensures
        text::words(a + seq![c] + b) == text::words(a) + text::words(b),
{
    lemma_stretches_of_both(a, c, b);
    Seq::filter_distributes_over_add(
        text::between_spaces(a),
        text::between_spaces(b),
        |w: Seq<char>| w.len() > 0,
    );
}

/// A text without a space is one word, unless it is empty.
pub proof fn law_a_text_without_space_is_one_word(w: Seq<char>)
    requires
        forall|i: int| 0 <= i < w.len() ==> !text::is_space(#[trigger] w[i]),
    ensures
        text::words(w) == if w.len() == 0 { Seq::<Seq<char>>::empty() } else { seq![w] },
{
    reveal(Seq::filter);
    lemma_one_stretch(w);
    let f = |w: Seq<char>| w.len() > 0;
    assert(seq![w].drop_last() =~= Seq::<Seq<char>>::empty());
    assert(Seq::<Seq<char>>::empty().filter(f) =~= Seq::<Seq<char>>::empty());
    assert(seq![w].filter(f) =~= if w.len() == 0 { Seq::<Seq<char>>::empty() } else { seq![w] });
}

proof fn lemma_one_stretch(w: Seq<char>)
    requires
        forall|i: int| 0 <= i < w.len() ==> !text::is_space(#[trigger] w[i]),
    ensures
        text::between_spaces(w) == seq![w],
    decreases w.len(),
{
    if w.len() > 0 {
        let front = w.drop_last();
        assert forall|i: int| 0 <= i < front.len() implies !text::is_space(#[trigger] front[i]) by {
            assert(front[i] == w[i]);
        }
        lemma_one_stretch(front);
        assert(front.push(w.last()) =~= w);
        assert(text::between_spaces(w) =~= seq![w]);
    } else {
        assert(w =~= Seq::<char>::empty());
    }
}

proof fn lemma_without_the_text_from(s: Seq<char>, from: Seq<char>, to: Seq<char>, i: int)
    requires
        0 <= i <= s.len(),
        from.len() > 0,
        forall|j: int| i <= j ==> !text::occurs_at(s, from, j),
    ensures
        text::substituted_at(s, from, to, i) == s.skip(i),
    decreases s.len() - i,
{
    if i < s.len() {
        lemma_without_the_text_from(s, from, to, i + 1);
        assert(!text::occurs_at(s, from, i));
        assert(seq![s[i]] + s.skip(i + 1) =~= s.skip(i));
    } else {
        assert(s.skip(i) =~= Seq::<char>::empty());
    }
}

/// A text that does not hold what is to be replaced stays as it is.
pub proof fn law_what_does_not_occur_is_not_replaced(s: Seq<char>, from: Seq<char>, to: Seq<char>)
    requires
        from.len() > 0,
        !text::contains(s, from),
    ensures
        text::substituted(s, from, to) == s,
{
    lemma_without_the_text_from(s, from, to, 0);
    assert(s.skip(0) =~= s);
}

proof fn lemma_replaced_up_to(a: Seq<char>, from: Seq<char>, b: Seq<char>, to: Seq<char>, i: int)
    requires
        0 <= i <= a.len(),
        from.len() > 0,
        forall|j: int| 0 <= j < a.len() ==> !text::occurs_at(a + from + b, from, j),
    ensures
        text::substituted_at(a + from + b, from, to, i) == a.skip(i) + to + text::substituted(b, from, to),
    decreases a.len() - i,
{
    let s = a + from + b;
    if i < a.len() {
        lemma_replaced_up_to(a, from, b, to, i + 1);
        assert(!text::occurs_at(s, from, i));
        assert(s[i] == a[i]);
        assert(seq![a[i]] + (a.skip(i + 1) + to + text::substituted(b, from, to)) =~= a.skip(i) + to
            + text::substituted(b, from, to));
    } else {
        assert(s.subrange(i, i + from.len()) =~= from);
        assert(text::occurs_at(s, from, i));
        lemma_replaced_after(a + from, b, from, to, 0);
        assert(a.skip(i) + to + text::substituted(b, from, to) =~= to + text::substituted(b, from, to));
    }
}

proof fn lemma_replaced_after(a: Seq<char>, b: Seq<char>, from: Seq<char>, to: Seq<char>, i: int)
    requires
        0 <= i,
        from.len() > 0,
    ensures
        text::substituted_at(a + b, from, to, a.len() + i) == text::substituted_at(b, from, to, i),
    decreases b.len() - i,
{
    let s = a + b;
    if i < b.len() {
        assert(s[a.len() + i] == b[i]);
        if i + from.len() <= b.len() {
            assert(s.subrange(a.len() + i, a.len() + i + from.len()) =~= b.subrange(i, i + from.len()));
            lemma_replaced_after(a, b, from, to, i + from.len());
        }
        assert(text::occurs_at(s, from, a.len() + i) <==> text::occurs_at(b, from, i));
        lemma_replaced_after(a, b, from, to, i + 1);
    }
}

/// The first occurrence is replaced, what precedes it stays, and the rest is
/// treated alike.
pub proof fn law_the_first_occurrence_and_those_after_it_are_replaced(
    a: Seq<char>,
    from: Seq<char>,
    b: Seq<char>,
    to: Seq<char>,
)
    requires
        from.len() > 0,
        forall|j: int| 0 <= j < a.len() ==> !text::occurs_at(a + from + b, from, j),
    ensures
        text::substituted(a + from + b, from, to) == a + to + text::substituted(b, from, to),
{
    lemma_replaced_up_to(a, from, b, to, 0);
    assert(a.skip(0) =~= a);
}

/// Lowering leaves no capital letter, changes nothing but capitals, and texts
/// that differ in nothing else are lowered alike.
pub proof fn law_lowering_forgets_the_case_alone(s: Seq<char>, i: int)
    requires
        0 <= i < s.len(),
    ensures
        text::lowered(s).len() == s.len(),
        !('A' <= text::lowered(s)[i] <= 'Z'),
        !('A' <= s[i] <= 'Z') ==> text::lowered(s)[i] == s[i],
        'A' <= s[i] <= 'Z' ==> text::lowered(s)[i] as int - 'a' as int == s[i] as int - 'A' as int,
        text::lowered(text::lowered(s)) == text::lowered(s),
{
    assert(text::lowered(text::lowered(s)) =~= text::lowered(s));
}

/// A number is read with or without a plus sign where it does not exceed the
/// limit, and otherwise not at all.
pub proof fn law_a_number_within_the_limit_is_read(n: nat, max: nat)
    ensures
        text::parsed(text::decimal(n), max) == if n <= max { Some(n) } else { None::<nat> },
        text::parsed(seq!['+'] + text::decimal(n), max) == if n <= max { Some(n) } else { None::<nat> },
        n <= i64::MAX ==> text::parsed_signed(text::decimal(n)) == Some(n as int),
        n <= 0x8000_0000_0000_0000 ==> text::parsed_signed(seq!['-'] + text::decimal(n)) == Some(-(n as int)),
        n > 0x8000_0000_0000_0000 ==> text::parsed_signed(seq!['-'] + text::decimal(n)) is None,
{
    let d = text::decimal(n);
    text::law_a_written_number_reads_back(n);
    assert(text::is_digit(d[0]));
    assert((seq!['+'] + d).skip(1) =~= d);
    assert((seq!['-'] + d).skip(1) =~= d);
}

/// A character that is no digit makes a text no number, but for a sign in front.
pub proof fn law_a_text_with_another_character_is_no_number(s: Seq<char>, max: nat, i: int)
    requires
        0 <= i < s.len(),
        !('0' <= s[i] <= '9'),
        i > 0 || s[i] != '+',
    ensures
        text::parsed(s, max) is None,
        i > 0 || s[i] != '-' ==> text::parsed_signed(s) is None,
        text::parsed(Seq::<char>::empty(), max) is None,
        text::parsed(seq!['+'], max) is None,
{
    if i > 0 {
        assert(s.skip(1)[i - 1] == s[i]);
    }
    assert(seq!['+'].skip(1) =~= Seq::<char>::empty());
}

proof fn lemma_faultless_digits(s: Seq<char>, max: nat)
    ensures
        text::digits_fault(s, max) is None <==> text::all_digits(s) && (s.len() == 0 || text::digits_value(s) <= max),
    decreases s.len(),
{
    if s.len() > 0 {
        let front = s.drop_last();
        lemma_faultless_digits(front, max);
        assert(s.take(s.len() - 1) =~= front);
        text::lemma_digits_value_grows(s, s.len() - 1);
        if text::all_digits(s) {
            assert(text::is_digit(s[s.len() - 1]));
            assert forall|i: int| 0 <= i < front.len() implies text::is_digit(#[trigger] front[i]) by {
                assert(front[i] == s[i]);
            }
        }
        if text::all_digits(front) && text::is_digit(s.last()) {
            assert forall|i: int| 0 <= i < s.len() implies text::is_digit(#[trigger] s[i]) by {
                if i < front.len() {
                    assert(front[i] == s[i]);
                }
            }
        }
    }
}

/// A text has a fault exactly where it cannot be read as a number; of nothing it
/// is said that it is empty, and of a written number that it is too large.
pub proof fn law_a_fault_is_told_where_nothing_is_read(s: Seq<char>, max: nat, n: nat)
    ensures
        text::number_fault(s, max) is None <==> text::parsed(s, max) is Some,
        text::number_fault(s, max) == Some(NumberFault::Empty) ==> s.len() == 0,
        s.len() == 0 ==> text::number_fault(s, max) == Some(NumberFault::Empty),
        n > max ==> text::number_fault(text::decimal(n), max) == Some(NumberFault::TooLarge),
{
    lemma_faultless_digits(s, max);
    lemma_never_empty(s, max);
    if s.len() > 0 {
        lemma_faultless_digits(s.skip(1), max);
        lemma_never_empty(s.skip(1), max);
        if s[0] == '+' {
            if s.len() == 1 {
                assert(s =~= seq!['+']);
            } else {
                assert(s != seq!['+']);
            }
        }
    }
    text::law_a_written_number_reads_back(n);
    let d = text::decimal(n);
    assert(text::is_digit(d[0]));
    if n > max {
        lemma_digits_are_only_too_large(d, max);
        lemma_faultless_digits(d, max);
        assert(d != seq!['+']) by {
            assert(d[0] != '+');
        }
    }
}

proof fn lemma_never_empty(s: Seq<char>, max: nat)
    ensures
        text::digits_fault(s, max) != Some(NumberFault::Empty),
    decreases s.len(),
{
    if s.len() > 0 {
        lemma_never_empty(s.drop_last(), max);
    }
}

proof fn lemma_digits_are_only_too_large(s: Seq<char>, max: nat)
    requires
        text::all_digits(s),
    ensures
        text::digits_fault(s, max) != Some(NumberFault::InvalidDigit),
        text::digits_fault(s, max) != Some(NumberFault::Empty),
    decreases s.len(),
{
    if s.len() > 0 {
        let front = s.drop_last();
        assert forall|i: int| 0 <= i < front.len() implies text::is_digit(#[trigger] front[i]) by {
            assert(front[i] == s[i]);
        }
        assert(text::is_digit(s[s.len() - 1]));
        lemma_digits_are_only_too_large(front, max);
    }
}

} // verus!
