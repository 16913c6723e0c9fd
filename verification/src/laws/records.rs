//! How listings of paths are read, and which places lie around a symbol.
use vstd::prelude::*;
use crate::bundle;
use crate::drift_scan;
use crate::laws::places;
use crate::laws::words;
use crate::surroundings;
use crate::surroundings::Surroundings;
use crate::text;

verus! {

/// A listing holds the paths before any of its ends and those after it.
pub proof fn law_listed_paths_end_in_a_null(a: Seq<char>, b: Seq<char>)
    ensures
        drift_scan::listed(a + seq!['\0'] + b) == drift_scan::listed(a) + drift_scan::listed(b),
{
    places::lemma_pieces_of_both(a, b, '\0');
    Seq::filter_distributes_over_add(text::pieces(a, '\0'), text::pieces(b, '\0'), |p: Seq<char>| p.len() > 0);
}

/// What stands between two ends is one path, unless nothing does.
pub proof fn law_a_listed_path_stays_as_it_is(p: Seq<char>)
    requires
        !p.contains('\0'),
    ensures
        drift_scan::listed(p) == if p.len() == 0 { Seq::<Seq<char>>::empty() } else { seq![p] },
{
    reveal(Seq::filter);
    let one = seq![p];
    text::lemma_joined_parts_are_the_pieces(one, '\0');
    assert(text::joined(one, seq!['\0']) == p);
    let f = |p: Seq<char>| p.len() > 0;
    assert(one.drop_last() =~= Seq::<Seq<char>>::empty());
    assert(one.drop_last().filter(f) =~= Seq::<Seq<char>>::empty());
    assert(one.filter(f) =~= if p.len() == 0 { Seq::<Seq<char>>::empty() } else { one });
}

/// A record of a tree tells a symbolic link by its mode, and its path after the
/// tab.
pub proof fn law_a_symbolic_link_is_told_by_its_mode(meta: Seq<char>, path: Seq<char>)
    requires
        !meta.contains('\t'),
    ensures
        drift_scan::symlink_in(meta + seq!['\t'] + path) == if text::starts_with(meta, "120000 "@) {
            Some(path)
        } else {
            None
        },
        drift_scan::symlink_in(meta) is None,
{
    reveal_strlit("\t");
    assert("\t"@ =~= seq!['\t']);
    words::law_a_text_is_cut_at_its_first_separator(meta, path, '\t');
}

/// The symbolic links of two listings are those of the one and those of the
/// other.
pub proof fn law_symbolic_links_add_up(a: Seq<Seq<char>>, b: Seq<Seq<char>>)
    ensures
        drift_scan::symlinks_in(a + b) == drift_scan::symlinks_in(a) + drift_scan::symlinks_in(b),
        a.len() == 1 ==> drift_scan::symlinks_in(a) == match drift_scan::symlink_in(a[0]) {
            Some(p) => seq![p],
            None => Seq::empty(),
        },
    decreases b.len(),
{
    if a.len() == 1 {
        assert(a.drop_last() =~= Seq::<Seq<char>>::empty());
        assert(drift_scan::symlinks_in(a.drop_last()) =~= Seq::<Seq<char>>::empty());
        if let Some(p) = drift_scan::symlink_in(a[0]) {
            assert(drift_scan::symlinks_in(a) =~= seq![p]);
        }
    }
    if b.len() == 0 {
        assert(a + b =~= a);
        assert(drift_scan::symlinks_in(a) + drift_scan::symlinks_in(b) =~= drift_scan::symlinks_in(a));
    } else {
        law_symbolic_links_add_up(a, b.drop_last());
        assert((a + b).drop_last() =~= a + b.drop_last());
        assert(drift_scan::symlinks_in(a + b) =~= drift_scan::symlinks_in(a) + drift_scan::symlinks_in(b));
    }
}

/// An object is named by one to sixty-four hexadecimal digits.
pub proof fn law_an_object_is_named_in_hexadecimal(sha: Seq<char>)
    ensures
        drift_scan::object_name(sha) <==> 1 <= sha.len() <= 64 && forall|i: int|
            0 <= i < sha.len() ==> ('0' <= (#[trigger] sha[i]) <= '9') || ('a' <= sha[i] <= 'f') || ('A' <= sha[i] <= 'F'),
{
    if drift_scan::object_name(sha) {
        assert forall|i: int| 0 <= i < sha.len() implies ('0' <= (#[trigger] sha[i]) <= '9') || ('a' <= sha[i] <= 'f')
            || ('A' <= sha[i] <= 'F') by {
            assert(text::is_hex(sha[i]));
        }
    }
    if 1 <= sha.len() <= 64 && forall|i: int|
        0 <= i < sha.len() ==> ('0' <= (#[trigger] sha[i]) <= '9') || ('a' <= sha[i] <= 'f') || ('A' <= sha[i] <= 'F') {
        assert forall|i: int| 0 <= i < sha.len() implies text::is_hex(#[trigger] sha[i]) by {
        }
    }
}

proof fn lemma_places(around: Seq<Surroundings>, callers: bool, callees: bool, x: (Seq<char>, u32))
    ensures
        !callers && !callees ==> surroundings::places(around, callers, callees).len() == 0,
        !callees && surroundings::places(around, callers, callees).contains(x) ==> exists|i: int, k: int|
            0 <= i < around.len() && 0 <= k < (#[trigger] around[i]).callers@.len() && x == ((#[trigger] around[i].callers@[k]).from_file@, around[i].callers@[k].line),
    decreases around.len(),
{
    if around.len() > 0 {
        let less = around.drop_last();
        lemma_places(less, callers, callees, x);
        let out = surroundings::places(around, callers, callees);
        let front = surroundings::places(less, callers, callees);
        let last = around.last();
        if !callees && out.contains(x) {
            let m = choose|m: int| 0 <= m < out.len() && out[m] == x;
            if m < front.len() {
                assert(front[m] == x);
                let (i, k) = choose|i: int, k: int|
                    0 <= i < less.len() && 0 <= k < (#[trigger] less[i]).callers@.len() && x == ((#[trigger] less[i].callers@[k]).from_file@, less[i].callers@[k].line);
                assert(around[i] == less[i]);
                assert(around[i].callers@[k] == less[i].callers@[k]);
            } else {
                let k = m - front.len();
                assert(surroundings::caller_places(last.callers@)[k] == x);
                assert(around[around.len() - 1].callers@[k] == last.callers@[k]);
            }
        }
    }
}

/// Only what is asked for is listed: nothing where neither callers nor callees
/// are, and callers alone where callees are not.
pub proof fn law_only_the_places_asked_for_are_listed(around: Seq<Surroundings>, callers: bool, x: (Seq<char>, u32))
    ensures
        surroundings::places(around, false, false).len() == 0,
        surroundings::places(around, callers, false).contains(x) ==> exists|i: int, k: int|
            0 <= i < around.len() && 0 <= k < (#[trigger] around[i]).callers@.len() && x == ((#[trigger] around[i].callers@[k]).from_file@, around[i].callers@[k].line),
{
    lemma_places(around, false, false, x);
    lemma_places(around, callers, false, x);
}

/// Every caller is listed where callers are asked for, by its file and line.
pub proof fn law_every_caller_is_listed(around: Seq<Surroundings>, callees: bool, i: int, k: int)
    requires
        0 <= i < around.len(),
        0 <= k < around[i].callers@.len(),
    ensures
        surroundings::places(around, true, callees).contains(
            (around[i].callers@[k].from_file@, around[i].callers@[k].line),
        ),
    decreases around.len(),
{
    let less = around.drop_last();
    let out = surroundings::places(around, true, callees);
    let front = surroundings::places(less, true, callees);
    let x = (around[i].callers@[k].from_file@, around[i].callers@[k].line);
    if i < less.len() {
        assert(less[i] == around[i]);
        law_every_caller_is_listed(less, callees, i, k);
        let m = choose|m: int| 0 <= m < front.len() && front[m] == x;
        assert(out[m] == x);
    } else {
        assert(surroundings::caller_places(around.last().callers@)[k] == x);
        assert(out[front.len() + k] == x);
    }
}

/// The definitions that are called around a symbol are listed by where they
/// begin, each the first time that a call leads to it.
pub proof fn law_called_definitions_are_listed(around: Seq<Surroundings>, a: Surroundings, k: int)
    requires
        0 <= k < bundle::targets(a.calls@, a.resolved@, surroundings::called_around(around)).len(),
    ensures
        ({
            let d = bundle::targets(a.calls@, a.resolved@, surroundings::called_around(around))[k];
            surroundings::places(around.push(a), false, true).contains((d.file_path@, d.line_start))
        }),
{
    let all = around.push(a);
    assert(all.drop_last() =~= around);
    let found = bundle::targets(a.calls@, a.resolved@, surroundings::called_around(around));
    let out = surroundings::places(all, false, true);
    let front = surroundings::places(around, false, true);
    assert(surroundings::definition_places(found)[k] == (found[k].file_path@, found[k].line_start));
    assert(out[front.len() + k] == (found[k].file_path@, found[k].line_start));
}

} // verus!
