//! Strings as sequences of characters: the vocabulary that every contract of
//! this crate speaks, and the executable functions that compute it.
use vstd::prelude::*;
use vstd::string::*;

verus! {

/// `String::push` appends one character.
pub assume_specification[ String::push ](s: &mut String, c: char)
    ensures
        final(s)@ == old(s)@.push(c),
;

// ---------------------------------------------------------------------------
// Views of string collections
// ---------------------------------------------------------------------------

/// The views of a sequence of values.
pub open spec fn views<T: View>(v: Seq<T>) -> Seq<T::V> {
    v.map_values(|t: T| t@)
}

/// The character sequence of an optional string.
pub open spec fn view_opt(s: Option<String>) -> Option<Seq<char>> {
    match s {
        Some(s) => Some(s@),
        None => None,
    }
}

pub broadcast proof fn views_push<T: View>(v: Seq<T>, t: T)
    ensures
        #[trigger] views(v.push(t)) == views(v).push(t@),
{
    assert(views(v.push(t)) =~= views(v).push(t@));
}

pub broadcast proof fn views_empty<T: View>()
    ensures
        #[trigger] views(Seq::<T>::empty()) == Seq::<T::V>::empty(),
{
    assert(views(Seq::<T>::empty()) =~= Seq::<T::V>::empty());
}

pub broadcast proof fn views_index<T: View>(v: Seq<T>, i: int)
    requires
        0 <= i < v.len(),
    ensures
        #[trigger] views(v)[i] == v[i]@,
{
}

pub broadcast proof fn views_len<T: View>(v: Seq<T>)
    ensures
        #[trigger] views(v).len() == v.len(),
{
}

pub broadcast group group_views {
    views_push,
    views_empty,
    views_index,
    views_len,
}

// ---------------------------------------------------------------------------
// Conversions
// ---------------------------------------------------------------------------

/// The characters of `s`.
pub fn chars_of(s: &str) -> (out: Vec<char>)
    ensures
        out@ == s@,
{
    let mut out: Vec<char> = Vec::new();
    for c in it: s.chars()
        invariant
            it.seq() == s@,
            out@ == s@.take(it.index()),
    {
        assert(s@.take(it.index() + 1) == s@.take(it.index()).push(s@[it.index()]));
        out.push(c);
    }
    assert(s@.take(s@.len() as int) == s@);
    out
}

/// A copy of a list of strings.
pub fn copy_strings(v: &Vec<String>) -> (out: Vec<String>)
    ensures
        views(out@) == views(v@),
        out@.len() == v@.len(),
{
    broadcast use group_views;
    let mut out: Vec<String> = Vec::new();
    let mut i: usize = 0;
    while i < v.len()
        invariant
            i <= v.len(),
            views(out@) == views(v@).take(i as int),
        decreases v.len() - i,
    {
        broadcast use group_views;
        assert(views(v@).take(i + 1) == views(v@).take(i as int).push(views(v@)[i as int]));
        out.push(v[i].clone());
        i += 1;
    }
    assert(views(v@).take(v@.len() as int) == views(v@));
    out
}

/// Appends a copy of one list to another.
pub fn append_strings(found: &mut Vec<String>, more: &Vec<String>)
    ensures
        views(final(found)@) == views(old(found)@) + views(more@),
{
    broadcast use group_views;
    let ghost was = views(found@);
    let ghost all = views(more@);
    let mut i: usize = 0;
    assert(was + all.take(0) =~= was);
    while i < more.len()
        invariant
            i <= more.len(),
            all == views(more@),
            views(found@) == was + all.take(i as int),
        decreases more.len() - i,
    {
        broadcast use group_views;
        assert(was + all.take(i + 1) =~= (was + all.take(i as int)).push(more@[i as int]@));
        found.push(more[i].clone());
        i += 1;
    }
    assert(all.take(all.len() as int) =~= all);
}

/// Whether two strings hold the same characters.
pub fn same(a: &str, b: &str) -> (r: bool)
    ensures
        r == (a@ == b@),
{
    let x = a.to_owned();
    let y = b.to_owned();
    x == y
}

/// Two strings, one after the other.
pub fn concat2(a: &str, b: &str) -> (out: String)
    ensures
        out@ == a@ + b@,
{
    let mut out = String::from_str(a);
    out.append(b);
    out
}

/// Three strings, one after the other.
pub fn concat3(a: &str, b: &str, c: &str) -> (out: String)
    ensures
        out@ == a@ + b@ + c@,
{
    let mut out = String::from_str(a);
    out.append(b);
    out.append(c);
    out
}

/// Four strings, one after the other.
pub fn concat4(a: &str, b: &str, c: &str, d: &str) -> (out: String)
    ensures
        out@ == a@ + b@ + c@ + d@,
{
    let mut out = String::from_str(a);
    out.append(b);
    out.append(c);
    out.append(d);
    out
}

/// Five strings, one after the other.
pub fn concat5(a: &str, b: &str, c: &str, d: &str, e: &str) -> (out: String)
    ensures
        out@ == a@ + b@ + c@ + d@ + e@,
{
    let mut out = String::from_str(a);
    out.append(b);
    out.append(c);
    out.append(d);
    out.append(e);
    out
}

// ---------------------------------------------------------------------------
// Search
// ---------------------------------------------------------------------------

/// `p` stands in `s` at position `i`.
pub open spec fn occurs_at(s: Seq<char>, p: Seq<char>, i: int) -> bool {
    0 <= i && i + p.len() <= s.len() && s.subrange(i, i + p.len()) == p
}

/// `p` stands somewhere in `s`.
pub open spec fn contains(s: Seq<char>, p: Seq<char>) -> bool {
    exists|i: int| occurs_at(s, p, i)
}

pub open spec fn starts_with(s: Seq<char>, p: Seq<char>) -> bool {
    occurs_at(s, p, 0)
}

pub open spec fn ends_with(s: Seq<char>, p: Seq<char>) -> bool {
    occurs_at(s, p, s.len() - p.len())
}

/// The first position at or after `from` where `p` stands in `s`.
pub open spec fn first_at(s: Seq<char>, p: Seq<char>, from: int) -> Option<int>
    decreases s.len() + 1 - from,
{
    if from < 0 || from + p.len() > s.len() {
        None
    } else if occurs_at(s, p, from) {
        Some(from)
    } else {
        first_at(s, p, from + 1)
    }
}

/// The last position at or before `from` where `p` stands in `s`.
pub open spec fn last_at(s: Seq<char>, p: Seq<char>, from: int) -> Option<int>
    decreases from + 1,
{
    if from < 0 {
        None
    } else if occurs_at(s, p, from) {
        Some(from)
    } else {
        last_at(s, p, from - 1)
    }
}

pub open spec fn find(s: Seq<char>, p: Seq<char>) -> Option<int> {
    first_at(s, p, 0)
}

pub open spec fn rfind(s: Seq<char>, p: Seq<char>) -> Option<int> {
    last_at(s, p, s.len() - p.len())
}

/// What a first position says: nothing stands before it.
pub proof fn lemma_first_at(s: Seq<char>, p: Seq<char>, from: int)
    requires
        0 <= from,
    ensures
        match first_at(s, p, from) {
            Some(i) => from <= i && occurs_at(s, p, i) && forall|j: int|
                from <= j < i ==> !occurs_at(s, p, j),
            None => forall|j: int| from <= j ==> !occurs_at(s, p, j),
        },
    decreases s.len() + 1 - from,
{
    if from + p.len() <= s.len() && !occurs_at(s, p, from) {
        lemma_first_at(s, p, from + 1);
    }
}

/// What a last position says: nothing stands after it.
pub proof fn lemma_last_at(s: Seq<char>, p: Seq<char>, from: int)
    ensures
        match last_at(s, p, from) {
            Some(i) => 0 <= i <= from && occurs_at(s, p, i) && forall|j: int|
                i < j <= from ==> !occurs_at(s, p, j),
            None => forall|j: int| j <= from ==> !occurs_at(s, p, j),
        },
    decreases from + 1,
{
    if from >= 0 && !occurs_at(s, p, from) {
        lemma_last_at(s, p, from - 1);
    }
}

/// Containment is a first position.
pub proof fn lemma_contains_find(s: Seq<char>, p: Seq<char>)
    ensures
        contains(s, p) == (find(s, p) is Some),
{
    lemma_first_at(s, p, 0);
    if contains(s, p) {
        let i = choose|i: int| occurs_at(s, p, i);
        assert(occurs_at(s, p, i));
    }
}

fn occurs_in(s: &Vec<char>, p: &Vec<char>, i: usize) -> (r: bool)
    requires
        i + p.len() <= s.len(),
    ensures
        r == occurs_at(s@, p@, i as int),
{
    let mut k: usize = 0;
    while k < p.len()
        invariant
            k <= p.len(),
            i + p.len() <= s.len(),
            forall|j: int| 0 <= j < k ==> s@[i + j] == p@[j],
        decreases p.len() - k,
    {
        if s[i + k] != p[k] {
            assert(s@.subrange(i as int, i + p@.len())[k as int] != p@[k as int]);
            return false;
        }
        k += 1;
    }
    assert(s@.subrange(i as int, i + p@.len()) =~= p@);
    true
}

/// The first position at or after `from` where `p` stands in `s`.
pub fn find_from(s: &Vec<char>, p: &Vec<char>, from: usize) -> (r: Option<usize>)
    ensures
        match r {
            Some(i) => first_at(s@, p@, from as int) == Some(i as int),
            None => first_at(s@, p@, from as int) is None,
        },
{
    let mut i: usize = from;
    while i <= s.len() && p.len() <= s.len() - i
        invariant
            first_at(s@, p@, from as int) == first_at(s@, p@, i as int),
        decreases s.len() + 1 - i,
    {
        if occurs_in(s, p, i) {
            return Some(i);
        }
        if i == s.len() {
            assert(s@.subrange(i as int, i + p@.len()) =~= p@);
            return None;
        }
        i += 1;
    }
    None
}

/// The first position of `p` in `s`.
pub fn find_str(s: &str, p: &str) -> (r: Option<usize>)
    ensures
        match r {
            Some(i) => find(s@, p@) == Some(i as int) && i + p@.len() <= s@.len(),
            None => find(s@, p@) is None,
        },
{
    let sv = chars_of(s);
    let pv = chars_of(p);
    let r = find_from(&sv, &pv, 0);
    proof {
        lemma_first_at(s@, p@, 0);
    }
    r
}

/// The last position of `p` in `s`.
pub fn rfind_str(s: &str, p: &str) -> (r: Option<usize>)
    ensures
        match r {
            Some(i) => rfind(s@, p@) == Some(i as int) && i + p@.len() <= s@.len(),
            None => rfind(s@, p@) is None,
        },
{
    let sv = chars_of(s);
    let pv = chars_of(p);
    if pv.len() > sv.len() {
        return None;
    }
    let mut i: usize = sv.len() - pv.len();
    loop
        invariant
            sv@ == s@,
            pv@ == p@,
            i + pv@.len() <= sv@.len(),
            rfind(s@, p@) == last_at(s@, p@, i as int),
        decreases i,
    {
        if occurs_in(&sv, &pv, i) {
            return Some(i);
        }
        if i == 0 {
            assert(last_at(s@, p@, -1) is None);
            return None;
        }
        i -= 1;
    }
}

pub fn has(s: &str, p: &str) -> (r: bool)
    ensures
        r == contains(s@, p@),
{
    proof {
        lemma_contains_find(s@, p@);
    }
    find_str(s, p).is_some()
}

pub fn begins(s: &str, p: &str) -> (r: bool)
    ensures
        r == starts_with(s@, p@),
{
    let sv = chars_of(s);
    let pv = chars_of(p);
    pv.len() <= sv.len() && occurs_in(&sv, &pv, 0)
}

pub fn finishes(s: &str, p: &str) -> (r: bool)
    ensures
        r == ends_with(s@, p@),
{
    let sv = chars_of(s);
    let pv = chars_of(p);
    pv.len() <= sv.len() && occurs_in(&sv, &pv, sv.len() - pv.len())
}

/// What follows the prefix `p`.
pub open spec fn after_prefix(s: Seq<char>, p: Seq<char>) -> Option<Seq<char>> {
    if starts_with(s, p) {
        Some(s.skip(p.len() as int))
    } else {
        None
    }
}

/// What precedes the suffix `p`.
pub open spec fn before_suffix(s: Seq<char>, p: Seq<char>) -> Option<Seq<char>> {
    if ends_with(s, p) {
        Some(s.take(s.len() - p.len()))
    } else {
        None
    }
}

pub fn strip_prefix<'a>(s: &'a str, p: &str) -> (r: Option<&'a str>)
    ensures
        match r {
            Some(rest) => after_prefix(s@, p@) == Some(rest@),
            None => after_prefix(s@, p@) is None,
        },
{
    if begins(s, p) {
        let rest = s.substring_char(p.unicode_len(), s.unicode_len());
        assert(rest@ == s@.skip(p@.len() as int));
        Some(rest)
    } else {
        None
    }
}

pub fn strip_suffix<'a>(s: &'a str, p: &str) -> (r: Option<&'a str>)
    ensures
        match r {
            Some(rest) => before_suffix(s@, p@) == Some(rest@),
            None => before_suffix(s@, p@) is None,
        },
{
    if finishes(s, p) {
        let rest = s.substring_char(0, s.unicode_len() - p.unicode_len());
        assert(rest@ == s@.take(s@.len() - p@.len()));
        Some(rest)
    } else {
        None
    }
}

/// What stands before and after the first `p`.
pub open spec fn split_first(s: Seq<char>, p: Seq<char>) -> Option<(Seq<char>, Seq<char>)> {
    match find(s, p) {
        Some(i) => Some((s.take(i), s.skip(i + p.len()))),
        None => None,
    }
}

/// What stands before and after the last `p`.
pub open spec fn split_last(s: Seq<char>, p: Seq<char>) -> Option<(Seq<char>, Seq<char>)> {
    match rfind(s, p) {
        Some(i) => Some((s.take(i), s.skip(i + p.len()))),
        None => None,
    }
}

pub fn split_once<'a>(s: &'a str, p: &str) -> (r: Option<(&'a str, &'a str)>)
    ensures
        match r {
            Some((a, b)) => split_first(s@, p@) == Some((a@, b@)),
            None => split_first(s@, p@) is None,
        },
{
    match find_str(s, p) {
        Some(i) => {
            let n: usize = s.unicode_len();
            let a = s.substring_char(0, i);
            let b = s.substring_char(i + p.unicode_len(), n);
            assert(a@ == s@.take(i as int));
            assert(b@ == s@.skip(i + p@.len()));
            Some((a, b))
        },
        None => None,
    }
}

pub fn rsplit_once<'a>(s: &'a str, p: &str) -> (r: Option<(&'a str, &'a str)>)
    ensures
        match r {
            Some((a, b)) => split_last(s@, p@) == Some((a@, b@)),
            None => split_last(s@, p@) is None,
        },
{
    match rfind_str(s, p) {
        Some(i) => {
            let n: usize = s.unicode_len();
            let a = s.substring_char(0, i);
            let b = s.substring_char(i + p.unicode_len(), n);
            assert(a@ == s@.take(i as int));
            assert(b@ == s@.skip(i + p@.len()));
            Some((a, b))
        },
        None => None,
    }
}

// ---------------------------------------------------------------------------
// Splitting and joining
// ---------------------------------------------------------------------------

/// The pieces of `s` from `start` on, when the piece that begins at `start`
/// is known to reach `i`.
pub open spec fn pieces_from(s: Seq<char>, c: char, start: int, i: int) -> Seq<Seq<char>>
    decreases s.len() - i,
{
    if i >= s.len() {
        seq![s.subrange(start, s.len() as int)]
    } else if s[i] == c {
        seq![s.subrange(start, i)] + pieces_from(s, c, i + 1, i + 1)
    } else {
        pieces_from(s, c, start, i + 1)
    }
}

/// The pieces of `s` between the occurrences of `c`; always at least one.
pub open spec fn pieces(s: Seq<char>, c: char) -> Seq<Seq<char>> {
    pieces_from(s, c, 0, 0)
}

pub proof fn lemma_pieces_nonempty(s: Seq<char>, c: char, start: int, i: int)
    ensures
        pieces_from(s, c, start, i).len() >= 1,
    decreases s.len() - i,
{
    if i < s.len() {
        if s[i] == c {
            lemma_pieces_nonempty(s, c, i + 1, i + 1);
        } else {
            lemma_pieces_nonempty(s, c, start, i + 1);
        }
    }
}

/// Between two occurrences of `c` stands no `c`.
pub proof fn lemma_pieces_hold_no_separator(s: Seq<char>, c: char, start: int, i: int)
    requires
        0 <= start <= i <= s.len(),
        forall|j: int| start <= j < i ==> s[j] != c,
    ensures
        forall|k: int|
            0 <= k < pieces_from(s, c, start, i).len() ==> !(#[trigger] pieces_from(s, c, start, i)[k]).contains(c),
    decreases s.len() - i,
{
    assert(!s.subrange(start, i).contains(c)) by {
        let head = s.subrange(start, i);
        if head.contains(c) {
            let k = choose|k: int| 0 <= k < head.len() && head[k] == c;
            assert(s[start + k] == c);
        }
    }
    let all = pieces_from(s, c, start, i);
    if i >= s.len() {
        assert(all =~= seq![s.subrange(start, i)]);
        assert(all[0] == s.subrange(start, i));
    } else if s[i] == c {
        lemma_pieces_hold_no_separator(s, c, i + 1, i + 1);
        let rest = pieces_from(s, c, i + 1, i + 1);
        assert(all == seq![s.subrange(start, i)] + rest);
        assert forall|k: int| 0 <= k < all.len() implies !(#[trigger] all[k]).contains(c) by {
            if k > 0 {
                assert(all[k] == rest[k - 1]);
            }
        }
    } else {
        lemma_pieces_hold_no_separator(s, c, start, i + 1);
        assert(all == pieces_from(s, c, start, i + 1));
    }
}

proof fn lemma_one_piece(s: Seq<char>, c: char, start: int, i: int)
    requires
        0 <= start <= i <= s.len(),
        forall|j: int| i <= j < s.len() ==> s[j] != c,
    ensures
        pieces_from(s, c, start, i) == seq![s.subrange(start, s.len() as int)],
    decreases s.len() - i,
{
    if i < s.len() {
        lemma_one_piece(s, c, start, i + 1);
    }
}

proof fn lemma_piece_added(a: Seq<char>, b: Seq<char>, c: char, start: int, i: int)
    requires
        0 <= start <= i <= a.len(),
        !b.contains(c),
    ensures
        pieces_from(a + seq![c] + b, c, start, i) == pieces_from(a, c, start, i).push(b),
    decreases a.len() - i,
{
    let s = a + seq![c] + b;
    if i >= a.len() {
        assert(s[i] == c);
        assert forall|j: int| i + 1 <= j < s.len() implies s[j] != c by {
            assert(s[j] == b[j - i - 1]);
        }
        lemma_one_piece(s, c, i + 1, i + 1);
        assert(s.subrange(i + 1, s.len() as int) =~= b);
        assert(s.subrange(start, i) =~= a.subrange(start, a.len() as int));
        assert(pieces_from(s, c, start, i) =~= pieces_from(a, c, start, i).push(b));
    } else if a[i] == c {
        assert(s[i] == c);
        lemma_piece_added(a, b, c, i + 1, i + 1);
        assert(s.subrange(start, i) =~= a.subrange(start, i));
        assert(pieces_from(s, c, start, i) =~= pieces_from(a, c, start, i).push(b));
    } else {
        assert(s[i] == a[i]);
        lemma_piece_added(a, b, c, start, i + 1);
    }
}

/// Parts that hold no separator are what stands between the separators once
/// they are joined.
pub proof fn lemma_joined_parts_are_the_pieces(parts: Seq<Seq<char>>, c: char)
    requires
        parts.len() > 0,
        forall|k: int| 0 <= k < parts.len() ==> !(#[trigger] parts[k]).contains(c),
    ensures
        pieces(joined(parts, seq![c]), c) == parts,
    decreases parts.len(),
{
    if parts.len() == 1 {
        let s = parts[0];
        lemma_one_piece(s, c, 0, 0);
        assert(s.subrange(0, s.len() as int) =~= s);
        assert(pieces(s, c) =~= parts);
    } else {
        let front = parts.drop_last();
        assert forall|k: int| 0 <= k < front.len() implies !(#[trigger] front[k]).contains(c) by {
            assert(front[k] == parts[k]);
        }
        lemma_joined_parts_are_the_pieces(front, c);
        lemma_piece_added(joined(front, seq![c]), parts.last(), c, 0, 0);
        assert(front.push(parts.last()) =~= parts);
    }
}

pub fn split(s: &str, c: char) -> (out: Vec<String>)
    ensures
        views(out@) == pieces(s@, c),
        out@.len() >= 1,
{
    broadcast use group_views;
    let v = chars_of(s);
    let mut out: Vec<String> = Vec::new();
    let mut start: usize = 0;
    let mut piece = String::new();
    let mut i: usize = 0;
    while i < v.len()
        invariant
            v@ == s@,
            start <= i <= v.len(),
            piece@ == s@.subrange(start as int, i as int),
            pieces(s@, c) == views(out@) + pieces_from(s@, c, start as int, i as int),
        decreases v.len() - i,
    {
        broadcast use group_views;
        if v[i] == c {
            proof {
                let rest = pieces_from(s@, c, i + 1, i + 1);
                assert(views(out@) + (seq![piece@] + rest) =~= views(out@).push(piece@) + rest);
            }
            out.push(piece);
            piece = String::new();
            start = i + 1;
            assert(s@.subrange(start as int, i + 1) =~= Seq::<char>::empty());
        } else {
            assert(s@.subrange(start as int, i + 1) =~= s@.subrange(start as int, i as int).push(
                s@[i as int],
            ));
            piece.push(v[i]);
        }
        i += 1;
    }
    assert(views(out@) + seq![piece@] =~= views(out@).push(piece@));
    out.push(piece);
    out
}

/// `parts` with `sep` between neighbours.
pub open spec fn joined(parts: Seq<Seq<char>>, sep: Seq<char>) -> Seq<char>
    decreases parts.len(),
{
    if parts.len() == 0 {
        Seq::empty()
    } else if parts.len() == 1 {
        parts[0]
    } else {
        joined(parts.drop_last(), sep) + sep + parts.last()
    }
}

pub fn join(parts: &Vec<String>, sep: &str) -> (out: String)
    ensures
        out@ == joined(views(parts@), sep@),
{
    broadcast use group_views;
    let mut out = String::new();
    let mut i: usize = 0;
    while i < parts.len()
        invariant
            i <= parts.len(),
            out@ == joined(views(parts@).take(i as int), sep@),
        decreases parts.len() - i,
    {
        broadcast use group_views;
        assert(views(parts@).take(i + 1).drop_last() =~= views(parts@).take(i as int));
        if i > 0 {
            out.append(sep);
        } else {
            assert(out@ =~= Seq::<char>::empty());
            assert(Seq::<char>::empty() + parts@[0]@ =~= parts@[0]@);
        }
        out.append(parts[i].as_str());
        i += 1;
    }
    assert(views(parts@).take(parts@.len() as int) == views(parts@));
    out
}

/// A piece that a line feed ended, without one carriage return at its end.
pub open spec fn without_cr(s: Seq<char>) -> Seq<char> {
    if s.len() > 0 && s.last() == '\r' {
        s.drop_last()
    } else {
        s
    }
}

/// The lines of a text: the pieces between line feeds. A last piece that is
/// empty is no line, and a line that a line feed ended loses one carriage
/// return before it.
pub open spec fn lines(s: Seq<char>) -> Seq<Seq<char>> {
    let parts = pieces(s, '\n');
    let ended = parts.drop_last().map_values(|p: Seq<char>| without_cr(p));
    if parts.last().len() == 0 {
        ended
    } else {
        ended.push(parts.last())
    }
}

/// A text that is not empty has a line.
pub proof fn lemma_lines_nonempty(s: Seq<char>)
    requires
        s.len() > 0,
    ensures
        lines(s).len() > 0,
{
    lemma_pieces_nonempty(s, '\n', 0, 0);
    if pieces(s, '\n').len() == 1 {
        lemma_single_piece(s, '\n', 0, 0);
    }
}

proof fn lemma_single_piece(s: Seq<char>, c: char, start: int, i: int)
    requires
        0 <= start <= i <= s.len(),
        pieces_from(s, c, start, i).len() == 1,
    ensures
        pieces_from(s, c, start, i)[0] == s.subrange(start, s.len() as int),
    decreases s.len() - i,
{
    if i < s.len() {
        if s[i] == c {
            lemma_pieces_nonempty(s, c, i + 1, i + 1);
        } else {
            lemma_single_piece(s, c, start, i + 1);
        }
    }
}

/// The last piece holds no separator, and is empty exactly where the text
/// ends in one or is empty.
pub proof fn lemma_last_piece(s: Seq<char>, c: char, start: int, i: int)
    requires
        0 <= start <= i <= s.len(),
        forall|j: int| start <= j < i ==> s[j] != c,
    ensures
        pieces_from(s, c, start, i).len() > 0,
        forall|k: int|
            0 <= k < pieces_from(s, c, start, i).last().len() ==> #[trigger] pieces_from(
                s,
                c,
                start,
                i,
            ).last()[k] != c,
        pieces_from(s, c, start, i).last().len() == 0 <==> start == s.len() || s.last() == c,
    decreases s.len() - i,
{
    lemma_pieces_nonempty(s, c, start, i);
    if i < s.len() {
        if s[i] == c {
            lemma_last_piece(s, c, i + 1, i + 1);
        } else {
            lemma_last_piece(s, c, start, i + 1);
        }
    }
}

pub fn lines_of(s: &str) -> (out: Vec<String>)
    ensures
        views(out@) == lines(s@),
{
    broadcast use group_views;
    let parts = split(s, '\n');
    let ghost ended = views(parts@).drop_last().map_values(|p: Seq<char>| without_cr(p));
    let mut out: Vec<String> = Vec::new();
    let mut i: usize = 0;
    while i + 1 < parts.len()
        invariant
            parts@.len() >= 1,
            i < parts.len(),
            ended == views(parts@).drop_last().map_values(|p: Seq<char>| without_cr(p)),
            views(out@) == ended.take(i as int),
        decreases parts.len() - i,
    {
        broadcast use group_views;
        let v = chars_of(parts[i].as_str());
        assert(ended.take(i + 1) =~= ended.take(i as int).push(without_cr(parts@[i as int]@)));
        if v.len() > 0 && v[v.len() - 1] == '\r' {
            let line = parts[i].as_str().substring_char(0, v.len() - 1);
            assert(line@ =~= parts@[i as int]@.drop_last());
            out.push(line.to_owned());
        } else {
            out.push(parts[i].clone());
        }
        i += 1;
    }
    assert(ended.take(parts@.len() - 1) =~= ended);
    if !parts[i].as_str().is_empty() {
        out.push(parts[i].clone());
    }
    out
}

// ---------------------------------------------------------------------------
// Characters
// ---------------------------------------------------------------------------

/// The Unicode `White_Space` characters.
pub open spec fn is_space(c: char) -> bool {
    ||| '\u{9}' <= c <= '\u{d}'
    ||| c == '\u{20}'
    ||| c == '\u{85}'
    ||| c == '\u{a0}'
    ||| c == '\u{1680}'
    ||| '\u{2000}' <= c <= '\u{200a}'
    ||| c == '\u{2028}'
    ||| c == '\u{2029}'
    ||| c == '\u{202f}'
    ||| c == '\u{205f}'
    ||| c == '\u{3000}'
}

pub fn space(c: char) -> (r: bool)
    ensures
        r == is_space(c),
{
    ('\u{9}' <= c && c <= '\u{d}') || c == '\u{20}' || c == '\u{85}' || c == '\u{a0}' || c
        == '\u{1680}' || ('\u{2000}' <= c && c <= '\u{200a}') || c == '\u{2028}' || c == '\u{2029}'
        || c == '\u{202f}' || c == '\u{205f}' || c == '\u{3000}'
}

pub open spec fn is_digit(c: char) -> bool {
    '0' <= c <= '9'
}

pub fn digit(c: char) -> (r: bool)
    ensures
        r == is_digit(c),
{
    '0' <= c && c <= '9'
}

pub open spec fn is_letter(c: char) -> bool {
    ('a' <= c <= 'z') || ('A' <= c <= 'Z')
}

pub open spec fn is_alnum(c: char) -> bool {
    is_letter(c) || is_digit(c)
}

pub fn alnum(c: char) -> (r: bool)
    ensures
        r == is_alnum(c),
{
    ('a' <= c && c <= 'z') || ('A' <= c && c <= 'Z') || ('0' <= c && c <= '9')
}

pub open spec fn is_hex(c: char) -> bool {
    is_digit(c) || ('a' <= c <= 'f') || ('A' <= c <= 'F')
}

pub fn hex(c: char) -> (r: bool)
    ensures
        r == is_hex(c),
{
    ('0' <= c && c <= '9') || ('a' <= c && c <= 'f') || ('A' <= c && c <= 'F')
}

/// `s` without the `White_Space` characters at its start.
pub open spec fn trimmed_start(s: Seq<char>) -> Seq<char>
    decreases s.len(),
{
    if s.len() > 0 && is_space(s[0]) {
        trimmed_start(s.skip(1))
    } else {
        s
    }
}

/// `s` without the `White_Space` characters at its end.
pub open spec fn trimmed_end(s: Seq<char>) -> Seq<char>
    decreases s.len(),
{
    if s.len() > 0 && is_space(s.last()) {
        trimmed_end(s.drop_last())
    } else {
        s
    }
}

pub open spec fn trimmed(s: Seq<char>) -> Seq<char> {
    trimmed_end(trimmed_start(s))
}

pub fn trim_start<'a>(s: &'a str) -> (out: &'a str)
    ensures
        out@ == trimmed_start(s@),
{
    let v = chars_of(s);
    let mut i: usize = 0;
    assert(s@.skip(0) =~= s@);
    while i < v.len() && space(v[i])
        invariant
            v@ == s@,
            i <= v.len(),
            trimmed_start(s@) == trimmed_start(s@.skip(i as int)),
        decreases v.len() - i,
    {
        assert(s@.skip(i as int).skip(1) =~= s@.skip(i + 1));
        i += 1;
    }
    let out = s.substring_char(i, v.len());
    assert(out@ =~= s@.skip(i as int));
    out
}

pub fn trim_end<'a>(s: &'a str) -> (out: &'a str)
    ensures
        out@ == trimmed_end(s@),
{
    let v = chars_of(s);
    let mut n: usize = v.len();
    assert(s@.take(n as int) =~= s@);
    while n > 0 && space(v[n - 1])
        invariant
            v@ == s@,
            n <= v.len(),
            trimmed_end(s@) == trimmed_end(s@.take(n as int)),
        decreases n,
    {
        assert(s@.take(n as int).drop_last() =~= s@.take(n - 1));
        n -= 1;
    }
    let out = s.substring_char(0, n);
    assert(out@ =~= s@.take(n as int));
    out
}

pub fn trim<'a>(s: &'a str) -> (out: &'a str)
    ensures
        out@ == trimmed(s@),
{
    trim_end(trim_start(s))
}

/// `s` without the characters `c` at its start.
pub open spec fn without_leading(s: Seq<char>, c: char) -> Seq<char>
    decreases s.len(),
{
    if s.len() > 0 && s[0] == c {
        without_leading(s.skip(1), c)
    } else {
        s
    }
}

pub fn drop_leading<'a>(s: &'a str, c: char) -> (out: &'a str)
    ensures
        out@ == without_leading(s@, c),
{
    let v = chars_of(s);
    let mut i: usize = 0;
    assert(s@.skip(0) =~= s@);
    while i < v.len() && v[i] == c
        invariant
            v@ == s@,
            i <= v.len(),
            without_leading(s@, c) == without_leading(s@.skip(i as int), c),
        decreases v.len() - i,
    {
        assert(s@.skip(i as int).skip(1) =~= s@.skip(i + 1));
        i += 1;
    }
    let out = s.substring_char(i, v.len());
    assert(out@ =~= s@.skip(i as int));
    out
}

/// `s` without the characters `c` at its end.
pub open spec fn without_trailing(s: Seq<char>, c: char) -> Seq<char>
    decreases s.len(),
{
    if s.len() > 0 && s.last() == c {
        without_trailing(s.drop_last(), c)
    } else {
        s
    }
}

pub fn drop_trailing<'a>(s: &'a str, c: char) -> (out: &'a str)
    ensures
        out@ == without_trailing(s@, c),
{
    let v = chars_of(s);
    let mut n: usize = v.len();
    assert(s@.take(n as int) =~= s@);
    while n > 0 && v[n - 1] == c
        invariant
            v@ == s@,
            n <= v.len(),
            without_trailing(s@, c) == without_trailing(s@.take(n as int), c),
        decreases n,
    {
        assert(s@.take(n as int).drop_last() =~= s@.take(n - 1));
        n -= 1;
    }
    let out = s.substring_char(0, n);
    assert(out@ =~= s@.take(n as int));
    out
}

/// `c` with an ASCII capital made small.
pub open spec fn lower(c: char) -> char {
    if 'A' <= c <= 'Z' {
        ((c as u32) + 32) as char
    } else {
        c
    }
}

/// `s` with every ASCII capital made small.
pub open spec fn lowered(s: Seq<char>) -> Seq<char> {
    s.map_values(|c: char| lower(c))
}

fn lower_char(c: char) -> (r: char)
    ensures
        r == lower(c),
{
    if 'A' <= c && c <= 'Z' {
        ((c as u8) + 32) as char
    } else {
        c
    }
}

/// `s` with every ASCII capital made small.
pub fn lower_ascii(s: &str) -> (out: String)
    ensures
        out@ == lowered(s@),
{
    let v = chars_of(s);
    let mut out = String::new();
    let mut i: usize = 0;
    while i < v.len()
        invariant
            v@ == s@,
            i <= v.len(),
            out@ == lowered(s@).take(i as int),
        decreases v.len() - i,
    {
        assert(lowered(s@).take(i + 1) =~= lowered(s@).take(i as int).push(lower(s@[i as int])));
        out.push(lower_char(v[i]));
        i += 1;
    }
    assert(lowered(s@).take(s@.len() as int) =~= lowered(s@));
    out
}

/// Every character of `s` is an ASCII character.
pub open spec fn ascii(s: Seq<char>) -> bool {
    forall|i: int| 0 <= i < s.len() ==> (#[trigger] s[i]) < '\u{80}'
}

/// `s` in lower case, by the Unicode mapping.
pub uninterp spec fn lowercased(s: Seq<char>) -> Seq<char>;

/// `str::to_lowercase`: the lower-case form of a string by the Unicode
/// mapping. Of an ASCII string it makes the capital letters small and leaves
/// the rest.
#[verifier::external_body]
pub(crate) fn to_lowercase(s: &str) -> (out: String)
    ensures
        out@ == lowercased(s@),
        ascii(s@) ==> out@ == lowered(s@),
{
    s.to_lowercase()
}

/// `s` with every `from` turned into `to`.
pub open spec fn replaced(s: Seq<char>, from: char, to: char) -> Seq<char> {
    s.map_values(|c: char| if c == from { to } else { c })
}

pub fn replace_char(s: &str, from: char, to: char) -> (out: String)
    ensures
        out@ == replaced(s@, from, to),
{
    let v = chars_of(s);
    let ghost want = replaced(s@, from, to);
    let mut out = String::new();
    let mut i: usize = 0;
    while i < v.len()
        invariant
            v@ == s@,
            i <= v.len(),
            want == replaced(s@, from, to),
            out@ == want.take(i as int),
        decreases v.len() - i,
    {
        assert(want.take(i + 1) =~= want.take(i as int).push(want[i as int]));
        if v[i] == from {
            out.push(to);
        } else {
            out.push(v[i]);
        }
        i += 1;
    }
    assert(want.take(s@.len() as int) =~= want);
    out
}

/// `s` from position `i` on, with each `from` turned into `to`, scanning left
/// to right without overlap.
pub open spec fn substituted_at(s: Seq<char>, from: Seq<char>, to: Seq<char>, i: int) -> Seq<char>
    decreases s.len() - i,
{
    if i < 0 || i >= s.len() {
        Seq::empty()
    } else if from.len() > 0 && occurs_at(s, from, i) {
        to + substituted_at(s, from, to, i + from.len())
    } else {
        seq![s[i]] + substituted_at(s, from, to, i + 1)
    }
}

/// `s` with each `from` turned into `to`.
pub open spec fn substituted(s: Seq<char>, from: Seq<char>, to: Seq<char>) -> Seq<char> {
    substituted_at(s, from, to, 0)
}

pub fn substitute(s: &str, from: &str, to: &str) -> (out: String)
    requires
        from@.len() > 0,
    ensures
        out@ == substituted(s@, from@, to@),
{
    let v = chars_of(s);
    let p = chars_of(from);
    let mut out = String::new();
    let mut i: usize = 0;
    assert(out@ + substituted(s@, from@, to@) =~= substituted(s@, from@, to@));
    while i < v.len()
        invariant
            v@ == s@,
            p@ == from@,
            p@.len() > 0,
            i <= v.len(),
            substituted(s@, from@, to@) == out@ + substituted_at(s@, from@, to@, i as int),
        decreases v.len() - i,
    {
        if p.len() <= v.len() - i && occurs_in(&v, &p, i) {
            assert(out@ + (to@ + substituted_at(s@, from@, to@, i + from@.len())) =~= (out@ + to@)
                + substituted_at(s@, from@, to@, i + from@.len()));
            out.append(to);
            i += p.len();
        } else {
            assert(out@ + (seq![s@[i as int]] + substituted_at(s@, from@, to@, i + 1))
                =~= out@.push(s@[i as int]) + substituted_at(s@, from@, to@, i + 1));
            out.push(v[i]);
            i += 1;
        }
    }
    assert(out@ + Seq::<char>::empty() =~= out@);
    out
}

/// Whether two strings agree but for the case of ASCII letters.
pub fn same_ignoring_case(a: &str, b: &str) -> (r: bool)
    ensures
        r == (lowered(a@) == lowered(b@)),
{
    let x = lower_ascii(a);
    let y = lower_ascii(b);
    x == y
}

/// Every character of `s` is a hexadecimal digit.
pub open spec fn all_hex(s: Seq<char>) -> bool {
    forall|i: int| 0 <= i < s.len() ==> is_hex(#[trigger] s[i])
}

pub fn hex_only(s: &str) -> (r: bool)
    ensures
        r == all_hex(s@),
{
    let v = chars_of(s);
    let mut i: usize = 0;
    while i < v.len()
        invariant
            v@ == s@,
            i <= v.len(),
            forall|j: int| 0 <= j < i ==> is_hex(#[trigger] s@[j]),
        decreases v.len() - i,
    {
        if !hex(v[i]) {
            assert(!is_hex(s@[i as int]));
            return false;
        }
        i += 1;
    }
    true
}

// ---------------------------------------------------------------------------
// Numbers
// ---------------------------------------------------------------------------

/// The digit that stands for `d`.
pub open spec fn digit_char(d: nat) -> char {
    (48 + d) as char
}

/// `n` in decimal.
pub open spec fn decimal(n: nat) -> Seq<char>
    decreases n,
{
    if n < 10 {
        seq![digit_char(n)]
    } else {
        decimal(n / 10).push(digit_char(n % 10))
    }
}

/// `n` in decimal, with a minus sign where it is negative.
pub open spec fn signed(n: int) -> Seq<char> {
    if n < 0 {
        seq!['-'] + decimal((-n) as nat)
    } else {
        decimal(n as nat)
    }
}

pub fn decimal_of(n: u64) -> (out: String)
    ensures
        out@ == decimal(n as nat),
    decreases n,
{
    let d = ((n % 10) as u8 + 48) as char;
    if n < 10 {
        let mut out = String::new();
        out.push(d);
        assert(out@ =~= seq![digit_char(n as nat)]);
        out
    } else {
        let mut out = decimal_of(n / 10);
        out.push(d);
        out
    }
}

pub fn signed_of(n: i64) -> (out: String)
    ensures
        out@ == signed(n as int),
{
    if n < 0 {
        let m: u64 = ((0i64 - (n + 1)) as u64) + 1;
        let mut out = String::new();
        out.push('-');
        let rest = decimal_of(m);
        out.append(rest.as_str());
        assert(seq!['-'] =~= Seq::<char>::empty().push('-'));
        out
    } else {
        decimal_of(n as u64)
    }
}

pub open spec fn all_digits(s: Seq<char>) -> bool {
    forall|i: int| 0 <= i < s.len() ==> is_digit(#[trigger] s[i])
}

/// The value of a run of digits.
pub open spec fn digits_value(s: Seq<char>) -> nat
    decreases s.len(),
{
    if s.len() == 0 {
        0
    } else {
        digits_value(s.drop_last()) * 10 + (s.last() as nat - 48) as nat
    }
}

/// The number up to `max` that `s` writes: an optional plus sign and at least
/// one digit.
pub open spec fn parsed(s: Seq<char>, max: nat) -> Option<nat> {
    let body = if s.len() > 0 && s[0] == '+' {
        s.skip(1)
    } else {
        s
    };
    if body.len() > 0 && all_digits(body) && digits_value(body) <= max {
        Some(digits_value(body))
    } else {
        None
    }
}

pub proof fn lemma_digits_value_grows(s: Seq<char>, n: int)
    requires
        0 <= n <= s.len(),
    ensures
        digits_value(s.take(n)) <= digits_value(s),
    decreases s.len() - n,
{
    if n < s.len() {
        lemma_digits_value_grows(s, n + 1);
        assert(s.take(n + 1).drop_last() =~= s.take(n));
    } else {
        assert(s.take(n) =~= s);
    }
}

/// A number that is written in decimal reads back as itself.
pub proof fn law_a_written_number_reads_back(n: nat)
    ensures
        decimal(n).len() > 0,
        all_digits(decimal(n)),
        digits_value(decimal(n)) == n,
    decreases n,
{
    reveal_with_fuel(digits_value, 2);
    if n < 10 {
        assert(seq![digit_char(n)].drop_last() =~= Seq::<char>::empty());
    } else {
        law_a_written_number_reads_back(n / 10);
        assert(decimal(n).drop_last() =~= decimal(n / 10));
    }
}

/// What is wrong with a text that should write a number.
#[derive(Debug, Clone, Copy, PartialEq, Eq, Structural)]
pub enum NumberFault {
    Empty,
    InvalidDigit,
    TooLarge,
}

/// What is wrong with a run of digits, read from its first to its last: a
/// character that is none, or a value over `max`, whichever comes first.
pub open spec fn digits_fault(s: Seq<char>, max: nat) -> Option<NumberFault>
    decreases s.len(),
{
    if s.len() == 0 {
        None
    } else {
        match digits_fault(s.drop_last(), max) {
            Some(f) => Some(f),
            None => if !is_digit(s.last()) {
                Some(NumberFault::InvalidDigit)
            } else if digits_value(s) > max {
                Some(NumberFault::TooLarge)
            } else {
                None
            },
        }
    }
}

/// What is wrong with a text that should write a number up to `max`, with an
/// optional plus sign. A sign alone is no digit.
pub open spec fn number_fault(s: Seq<char>, max: nat) -> Option<NumberFault> {
    if s.len() == 0 {
        Some(NumberFault::Empty)
    } else if s == seq!['+'] {
        Some(NumberFault::InvalidDigit)
    } else if s[0] == '+' {
        digits_fault(s.skip(1), max)
    } else {
        digits_fault(s, max)
    }
}

/// What a number's fault says.
pub open spec fn fault_text(f: NumberFault) -> Seq<char> {
    match f {
        NumberFault::Empty => "cannot parse integer from empty string"@,
        NumberFault::InvalidDigit => "invalid digit found in string"@,
        NumberFault::TooLarge => "number too large to fit in target type"@,
    }
}

impl NumberFault {
    /// Says what is wrong.
    pub fn message(&self) -> (out: String)
        ensures
            out@ == fault_text(*self),
    {
        match self {
            NumberFault::Empty => "cannot parse integer from empty string".to_string(),
            NumberFault::InvalidDigit => "invalid digit found in string".to_string(),
            NumberFault::TooLarge => "number too large to fit in target type".to_string(),
        }
    }
}

proof fn lemma_digits_fault_stays(s: Seq<char>, max: nat, n: int)
    requires
        0 <= n <= s.len(),
        digits_fault(s.take(n), max) is Some,
    ensures
        digits_fault(s, max) == digits_fault(s.take(n), max),
    decreases s.len() - n,
{
    if n < s.len() {
        assert(s.take(n + 1).drop_last() =~= s.take(n));
        lemma_digits_fault_stays(s, max, n + 1);
    } else {
        assert(s.take(n) =~= s);
    }
}

/// Reads the number that `s` writes, if it does not exceed `max`, or says what
/// is wrong with it.
pub fn read_up_to(s: &str, max: u64) -> (r: Result<u64, NumberFault>)
    ensures
        match r {
            Ok(n) => parsed(s@, max as nat) == Some(n as nat) && number_fault(s@, max as nat) is None,
            Err(f) => parsed(s@, max as nat) is None && number_fault(s@, max as nat) == Some(f),
        },
{
    let v = chars_of(s);
    let from: usize = if v.len() > 0 && v[0] == '+' {
        1
    } else {
        0
    };
    let ghost body = s@.skip(from as int);
    assert(s@.skip(0) =~= s@);
    if v.len() == 0 {
        return Err(NumberFault::Empty);
    }
    if from >= v.len() {
        assert(s@ =~= seq!['+']);
        return Err(NumberFault::InvalidDigit);
    }
    assert(s@ != seq!['+']);
    let mut n: u64 = 0;
    let mut i: usize = from;
    assert(body.take(0) =~= Seq::<char>::empty());
    while i < v.len()
        invariant
            v@ == s@,
            from <= i <= v.len(),
            from < v.len(),
            s@ != seq!['+'],
            body == s@.skip(from as int),
            body == (if s@.len() > 0 && s@[0] == '+' {
                s@.skip(1)
            } else {
                s@
            }),
            body.len() == v.len() - from,
            n == digits_value(body.take(i - from)),
            n <= max,
            all_digits(body.take(i - from)),
            digits_fault(body.take(i - from), max as nat) is None,
        decreases v.len() - i,
    {
        let c = v[i];
        assert(body[i - from] == c);
        let ghost part = body.take(i - from + 1);
        assert(part.drop_last() =~= body.take(i - from));
        assert(part.last() == c);
        if !digit(c) {
            assert(!all_digits(body));
            proof {
                lemma_digits_fault_stays(body, max as nat, i - from + 1);
            }
            return Err(NumberFault::InvalidDigit);
        }
        let d: u64 = (c as u64) - 48;
        proof {
            lemma_digits_value_grows(body, i - from + 1);
        }
        if n > max / 10 || d > max - n * 10 {
            assert(digits_value(part) > max);
            proof {
                lemma_digits_fault_stays(body, max as nat, i - from + 1);
            }
            return Err(NumberFault::TooLarge);
        }
        n = n * 10 + d;
        assert forall|j: int| 0 <= j < i - from + 1 implies is_digit(#[trigger] part[j]) by {
            if j < i - from {
                assert(body.take(i - from)[j] == body[j]);
            }
        }
        i += 1;
    }
    assert(body.take(v@.len() - from) =~= body);
    Ok(n)
}

/// The number that `s` writes, if it does not exceed `max`.
pub fn parse_up_to(s: &str, max: u64) -> (r: Option<u64>)
    ensures
        match r {
            Some(n) => parsed(s@, max as nat) == Some(n as nat),
            None => parsed(s@, max as nat) is None,
        },
{
    match read_up_to(s, max) {
        Ok(n) => Some(n),
        Err(_) => None,
    }
}

// ---------------------------------------------------------------------------
// Words, and pieces between longer separators
// ---------------------------------------------------------------------------

/// What stands between the white space characters of `s`, empty pieces too.
pub open spec fn between_spaces(s: Seq<char>) -> Seq<Seq<char>>
    decreases s.len(),
{
    if s.len() == 0 {
        seq![Seq::<char>::empty()]
    } else {
        let front = between_spaces(s.drop_last());
        if is_space(s.last()) {
            front.push(Seq::empty())
        } else {
            front.drop_last().push(front.last().push(s.last()))
        }
    }
}

/// The words of `s`, as white space separates them.
pub open spec fn words(s: Seq<char>) -> Seq<Seq<char>> {
    between_spaces(s).filter(|w: Seq<char>| w.len() > 0)
}

/// Splits `s` into its words.
pub fn words_of(s: &str) -> (out: Vec<String>)
    ensures
        views(out@) == words(s@),
{
    broadcast use group_views;
    let cs = chars_of(s);
    let ghost full = |w: Seq<char>| w.len() > 0;
    let mut out: Vec<String> = Vec::new();
    let mut word = String::new();
    let mut len: usize = 0;
    let mut i: usize = 0;
    let ghost mut front: Seq<Seq<char>> = Seq::empty();
    assert(front.filter(full) =~= Seq::<Seq<char>>::empty()) by {
        reveal(Seq::filter);
    }
    while i < cs.len()
        invariant
            i <= cs.len(),
            cs@ == s@,
            full == (|w: Seq<char>| w.len() > 0),
            between_spaces(s@.take(i as int)) == front.push(word@),
            views(out@) == front.filter(full),
            len == word@.len(),
            len <= i,
        decreases cs.len() - i,
    {
        broadcast use group_views;
        proof {
            assert(s@.take(i + 1).drop_last() =~= s@.take(i as int));
            assert(s@.take(i + 1).last() == s@[i as int]);
            assert(front.push(word@).drop_last() =~= front);
        }
        if space(cs[i]) {
            proof {
                reveal(Seq::filter);
                assert(front.push(word@).drop_last() =~= front);
                front = front.push(word@);
            }
            if len > 0 {
                out.push(word);
            }
            word = String::new();
            len = 0;
            assert(word@ =~= Seq::<char>::empty());
        } else {
            word.push(cs[i]);
            len += 1;
        }
        i += 1;
    }
    proof {
        assert(s@.take(s@.len() as int) =~= s@);
        reveal(Seq::filter);
        assert(front.push(word@).drop_last() =~= front);
    }
    if len > 0 {
        out.push(word);
    }
    out
}

/// What stands between the occurrences of `sep`, found from the left.
pub open spec fn parted(s: Seq<char>, sep: Seq<char>) -> Seq<Seq<char>>
    decreases s.len(),
{
    if sep.len() == 0 {
        seq![s]
    } else {
        match find(s, sep) {
            Some(i) => if 0 <= i && i + sep.len() <= s.len() {
                seq![s.take(i)] + parted(s.skip(i + sep.len()), sep)
            } else {
                seq![s]
            },
            None => seq![s],
        }
    }
}

/// Splits `s` at every occurrence of `sep`, which is not empty.
pub fn split_str(s: &str, sep: &str) -> (out: Vec<String>)
    requires
        sep@.len() > 0,
    ensures
        views(out@) == parted(s@, sep@),
{
    broadcast use group_views;
    let mut out: Vec<String> = Vec::new();
    let mut rest = s;
    loop
        invariant
            sep@.len() > 0,
            parted(s@, sep@) == views(out@) + parted(rest@, sep@),
        ensures
            parted(s@, sep@) == views(out@).push(rest@),
        decreases rest@.len(),
    {
        broadcast use group_views;
        proof {
            lemma_first_at(rest@, sep@, 0);
        }
        match split_once(rest, sep) {
            Some((a, b)) => {
                let ghost before = views(out@);
                out.push(a.to_string());
                proof {
                    let i = find(rest@, sep@)->0;
                    assert(parted(rest@, sep@) == seq![a@] + parted(b@, sep@));
                    assert(before + (seq![a@] + parted(b@, sep@)) =~= before.push(a@) + parted(b@, sep@));
                }
                rest = b;
            },
            None => {
                assert(parted(rest@, sep@) =~= seq![rest@]);
                assert(views(out@) + seq![rest@] =~= views(out@).push(rest@));
                break;
            },
        }
    }
    out.push(rest.to_string());
    out
}

/// `char::is_uppercase` holds of the character.
pub uninterp spec fn uppercase(c: char) -> bool;

/// `char::is_uppercase`: the character has the Unicode property `Uppercase`.
/// Which ones have it beyond ASCII is left to the name.
#[verifier::external_body]
pub(crate) fn is_uppercase(c: char) -> (r: bool)
    ensures
        r == uppercase(c),
        c as u32 <= 127 ==> r == ('A' <= c <= 'Z'),
{
    c.is_uppercase()
}

/// The number that a decimal numeral with an optional sign names, where it fits
/// 64 bits.
pub open spec fn parsed_signed(s: Seq<char>) -> Option<int> {
    if s.len() > 0 && s[0] == '-' {
        let body = s.skip(1);
        if body.len() > 0 && all_digits(body) && digits_value(body) <= 0x8000_0000_0000_0000 {
            Some(-(digits_value(body) as int))
        } else {
            None
        }
    } else {
        match parsed(s, i64::MAX as nat) {
            Some(n) => Some(n as int),
            None => None,
        }
    }
}

pub fn parse_signed(s: &str) -> (r: Option<i64>)
    ensures
        match r {
            Some(n) => parsed_signed(s@) == Some(n as int),
            None => parsed_signed(s@) is None,
        },
{
    let n: usize = s.unicode_len();
    if n > 0 && s.get_char(0) == '-' {
        let body = s.substring_char(1, n);
        assert(body@ =~= s@.skip(1));
        if n == 1 || body.get_char(0) == '+' {
            assert(n > 1 ==> !is_digit(body@[0]));
            return None;
        }
        match parse_up_to(body, 0x8000_0000_0000_0000) {
            Some(0x8000_0000_0000_0000) => Some(i64::MIN),
            Some(v) => Some(-(v as i64)),
            None => None,
        }
    } else {
        match parse_up_to(s, i64::MAX as u64) {
            Some(v) => Some(v as i64),
            None => None,
        }
    }
}

} // verus!
