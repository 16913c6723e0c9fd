//! How paths are taken apart and put together.
use vstd::prelude::*;
use crate::laws::texts;
use crate::laws::words;
use crate::paths;
use crate::text;

verus! {

/// A component that stands in a path for a file or a directory.
pub open spec fn component(p: Seq<char>) -> bool {
    p.len() > 0 && p != seq!['.'] && !p.contains('/')
}

proof fn lemma_slash()
    ensures
        "/"@ == seq!['/'],
        "."@ == seq!['.'],
        ".."@ == seq!['.', '.'],
{
    reveal_strlit("/");
    reveal_strlit(".");
    reveal_strlit("..");
    assert("/"@ =~= seq!['/']);
    assert("."@ =~= seq!['.']);
    assert(".."@ =~= seq!['.', '.']);
}

proof fn lemma_all_pieces_are_clean(s: Seq<char>, c: char)
    ensures
        text::pieces(s, c).len() > 0,
        forall|k: int| 0 <= k < text::pieces(s, c).len() ==> !(#[trigger] text::pieces(s, c)[k]).contains(c),
        text::joined(text::pieces(s, c), seq![c]) == s,
{
    text::lemma_pieces_nonempty(s, c, 0, 0);
    text::lemma_pieces_hold_no_separator(s, c, 0, 0);
    texts::law_the_pieces_of_a_text_make_it_up(s, c, 0);
}

/// The pieces of a text are those before a separator and those after it.
pub proof fn lemma_pieces_of_both(a: Seq<char>, b: Seq<char>, c: char)
    ensures
        text::pieces(a + seq![c] + b, c) == text::pieces(a, c) + text::pieces(b, c),
{
    let (x, y) = (text::pieces(a, c), text::pieces(b, c));
    lemma_all_pieces_are_clean(a, c);
    lemma_all_pieces_are_clean(b, c);
    texts::law_joining_puts_the_separator_between(x, y, seq![c]);
    let all = x + y;
    assert forall|k: int| 0 <= k < all.len() implies !(#[trigger] all[k]).contains(c) by {
        if k < x.len() {
            assert(all[k] == x[k]);
        } else {
            assert(all[k] == y[k - x.len()]);
        }
    }
    text::lemma_joined_parts_are_the_pieces(all, c);
}

/// The components of a path are those before any of its slashes and those after
/// it.
pub proof fn law_components_are_parted_by_slashes(a: Seq<char>, b: Seq<char>)
    ensures
        paths::parts(a + seq!['/'] + b) == paths::parts(a) + paths::parts(b),
{
    lemma_pieces_of_both(a, b, '/');
    Seq::filter_distributes_over_add(
        text::pieces(a, '/'),
        text::pieces(b, '/'),
        |p: Seq<char>| paths::names_something(p),
    );
}

/// A name without a slash is its own one component; nothing and a single dot
/// are none.
pub proof fn law_a_name_is_one_component(name: Seq<char>)
    requires
        !name.contains('/'),
    ensures
        paths::parts(name) == if name.len() == 0 || name == seq!['.'] {
            Seq::<Seq<char>>::empty()
        } else {
            seq![name]
        },
{
    reveal(Seq::filter);
    lemma_slash();
    let one = seq![name];
    texts::law_joined_parts_are_cut_apart_again(one, '/');
    assert(text::joined(one, seq!['/']) == name);
    let f = |p: Seq<char>| paths::names_something(p);
    assert(one.drop_last() =~= Seq::<Seq<char>>::empty());
    assert(one.drop_last().filter(f) =~= Seq::<Seq<char>>::empty());
    assert(one.filter(f) =~= if paths::names_something(name) { one } else { Seq::<Seq<char>>::empty() });
}

proof fn lemma_components_of_joined(ps: Seq<Seq<char>>)
    requires
        forall|k: int| 0 <= k < ps.len() ==> component(#[trigger] ps[k]),
    ensures
        paths::parts(text::joined(ps, seq!['/'])) == ps,
    decreases ps.len(),
{
    if ps.len() == 0 {
        law_a_name_is_one_component(Seq::empty());
        assert(paths::parts(text::joined(ps, seq!['/'])) =~= ps);
    } else {
        let front = ps.drop_last();
        assert(component(ps[ps.len() - 1]));
        assert forall|k: int| 0 <= k < front.len() implies component(#[trigger] front[k]) by {
            assert(front[k] == ps[k]);
        }
        lemma_components_of_joined(front);
        law_a_name_is_one_component(ps.last());
        if ps.len() == 1 {
            assert(ps =~= seq![ps.last()]);
        } else {
            law_components_are_parted_by_slashes(text::joined(front, seq!['/']), ps.last());
            assert(front + seq![ps.last()] =~= ps);
        }
    }
}

proof fn lemma_parts_are_components(s: Seq<char>)
    ensures
        forall|k: int| 0 <= k < paths::parts(s).len() ==> component(#[trigger] paths::parts(s)[k]),
{
    broadcast use {vstd::seq_lib::group_filter_ensures, vstd::seq::Seq::lemma_filter_contains_rev};

    lemma_slash();
    lemma_all_pieces_are_clean(s, '/');
    let all = paths::parts(s);
    assert forall|k: int| 0 <= k < all.len() implies component(#[trigger] all[k]) by {
        let f = |p: Seq<char>| paths::names_something(p);
        assert(all == text::pieces(s, '/').filter(f));
        assert(f(all[k]));
        assert(all.contains(all[k]));
        assert(text::pieces(s, '/').contains(all[k]));
    }
}

/// A path that is neither below the root nor absolute keeps its components; an
/// absolute one stays absolute. What remains of a path below the root are the
/// components after those of the root.
pub proof fn law_a_path_is_told_from_the_root(root: Option<Seq<char>>, path: Seq<char>)
    ensures
        ({
            let s = text::trimmed(path);
            let out = paths::normalized(root, path);
            &&& !paths::below(s, root) ==> paths::parts(out) == paths::parts(s)
            &&& !paths::below(s, root) ==> (paths::absolute(out) <==> paths::absolute(s))
            &&& paths::below(s, root) ==> paths::parts(root->0) + paths::parts(out) == paths::parts(s)
                && !paths::absolute(out)
        }),
{
    lemma_slash();
    let s = text::trimmed(path);
    let ps = paths::parts(s);
    lemma_parts_are_components(s);
    lemma_components_of_joined(ps);
    lemma_joined_is_relative(ps);
    if paths::below(s, root) {
        let n = paths::parts(root->0).len() as int;
        let rest = ps.skip(n);
        assert forall|k: int| 0 <= k < rest.len() implies component(#[trigger] rest[k]) by {
            assert(rest[k] == ps[k + n]);
        }
        lemma_components_of_joined(rest);
        lemma_joined_is_relative(rest);
        assert(paths::parts(root->0) + rest =~= ps);
    } else if paths::absolute(s) {
        let j = text::joined(ps, seq!['/']);
        law_components_are_parted_by_slashes(Seq::empty(), j);
        law_a_name_is_one_component(Seq::empty());
        assert(Seq::<char>::empty() + seq!['/'] + j =~= "/"@ + j);
        assert(Seq::<Seq<char>>::empty() + ps =~= ps);
    }
}

proof fn lemma_joined_is_relative(ps: Seq<Seq<char>>)
    requires
        forall|k: int| 0 <= k < ps.len() ==> component(#[trigger] ps[k]),
    ensures
        !paths::absolute(text::joined(ps, seq!['/'])),
        ps.len() > 0 ==> text::joined(ps, seq!['/']).len() > 0,
    decreases ps.len(),
{
    if ps.len() == 1 {
        assert(component(ps[0]));
        assert(ps[0].contains(ps[0][0]));
    } else if ps.len() > 1 {
        let front = ps.drop_last();
        assert forall|k: int| 0 <= k < front.len() implies component(#[trigger] front[k]) by {
            assert(front[k] == ps[k]);
        }
        lemma_joined_is_relative(front);
    }
}

/// A path that is written component by component stays as it is, and below a
/// root it is what was written after the root.
pub proof fn law_a_plain_path_stays_as_it_is(root: Seq<char>, ps: Seq<Seq<char>>)
    requires
        ps.len() > 0,
        forall|k: int| 0 <= k < ps.len() ==> component(#[trigger] ps[k]),
        paths::absolute(root),
        text::trimmed(text::joined(ps, seq!['/'])) == text::joined(ps, seq!['/']),
        text::trimmed(root + seq!['/'] + text::joined(ps, seq!['/'])) == root + seq!['/'] + text::joined(ps, seq!['/']),
    ensures
        paths::normalized(None, text::joined(ps, seq!['/'])) == text::joined(ps, seq!['/']),
        paths::normalized(Some(root), text::joined(ps, seq!['/'])) == text::joined(ps, seq!['/']),
        paths::normalized(Some(root), root + seq!['/'] + text::joined(ps, seq!['/'])) == text::joined(ps, seq!['/']),
{
    lemma_slash();
    let s = text::joined(ps, seq!['/']);
    let full = root + seq!['/'] + s;
    lemma_components_of_joined(ps);
    lemma_joined_is_relative(ps);
    law_components_are_parted_by_slashes(root, s);
    assert(full[0] == root[0]);
    assert(paths::parts(root).is_prefix_of(paths::parts(full)));
    assert(paths::parts(full).skip(paths::parts(root).len() as int) =~= ps);
}

proof fn lemma_tidy_end_keeps_parts(s: Seq<char>)
    ensures
        paths::parts(paths::tidy_end(s)) == paths::parts(s),
    decreases s.len(),
{
    if s.len() > 1 && s.last() == '/' {
        let front = s.drop_last();
        lemma_tidy_end_keeps_parts(front);
        law_components_are_parted_by_slashes(front, Seq::empty());
        law_a_name_is_one_component(Seq::empty());
        assert(front + seq!['/'] + Seq::<char>::empty() =~= s);
        assert(paths::parts(s) =~= paths::parts(front));
    } else if s.len() > 1 && s.last() == '.' && s[s.len() - 2] == '/' {
        let front = s.drop_last();
        let dir = front.drop_last();
        lemma_tidy_end_keeps_parts(front);
        law_components_are_parted_by_slashes(dir, Seq::empty());
        law_components_are_parted_by_slashes(dir, seq!['.']);
        law_a_name_is_one_component(Seq::empty());
        law_a_name_is_one_component(seq!['.']);
        assert(dir + seq!['/'] + Seq::<char>::empty() =~= front);
        assert(dir + seq!['/'] + seq!['.'] =~= s);
        assert(paths::parts(s) =~= paths::parts(front));
    }
}

proof fn lemma_tidy_start_keeps_parts(s: Seq<char>)
    ensures
        paths::parts(paths::tidy_start(s)) == paths::parts(s),
        !paths::absolute(paths::tidy_start(s)),
        paths::tidy_start(s).len() > 0 ==> !(paths::tidy_start(s)[0] == '.' && (paths::tidy_start(s).len() == 1
            || paths::tidy_start(s)[1] == '/')),
    decreases s.len(),
{
    if s.len() > 0 && s[0] == '/' {
        let rest = s.skip(1);
        lemma_tidy_start_keeps_parts(rest);
        law_components_are_parted_by_slashes(Seq::empty(), rest);
        law_a_name_is_one_component(Seq::empty());
        assert(Seq::<char>::empty() + seq!['/'] + rest =~= s);
        assert(paths::parts(s) =~= paths::parts(rest));
    } else if s.len() > 0 && s[0] == '.' && (s.len() == 1 || s[1] == '/') {
        let rest = s.skip(1);
        lemma_tidy_start_keeps_parts(rest);
        law_a_name_is_one_component(Seq::empty());
        law_a_name_is_one_component(seq!['.']);
        if s.len() == 1 {
            assert(s =~= seq!['.']);
            assert(rest =~= Seq::<char>::empty());
        } else {
            let more = rest.skip(1);
            law_components_are_parted_by_slashes(seq!['.'], more);
            law_components_are_parted_by_slashes(Seq::empty(), more);
            assert(seq!['.'] + seq!['/'] + more =~= s);
            assert(Seq::<char>::empty() + seq!['/'] + more =~= rest);
            assert(paths::parts(s) =~= paths::parts(rest));
        }
    }
}

proof fn lemma_after_parts(s: Seq<char>, n: nat)
    requires
        n <= paths::parts(s).len(),
    ensures
        paths::parts(paths::after_parts(s, n)) == paths::parts(s).skip(n as int),
        !paths::absolute(paths::after_parts(s, n)),
    decreases n,
{
    lemma_slash();
    let t = paths::tidy_start(s);
    lemma_tidy_start_keeps_parts(s);
    if n == 0 {
        assert(paths::parts(s).skip(0) =~= paths::parts(s));
    } else {
        text::lemma_first_at(t, seq!['/'], 0);
        match text::find(t, seq!['/']) {
            Some(i) => {
                let name = t.take(i);
                let rest = t.skip(i + 1);
                assert(t.subrange(i, i + 1)[0] == '/');
                assert(t[i] == '/');
                assert(!name.contains('/')) by {
                    if name.contains('/') {
                        let k = choose|k: int| 0 <= k < name.len() && name[k] == '/';
                        assert(t.subrange(k, k + 1) =~= seq!['/']);
                        assert(text::occurs_at(t, seq!['/'], k));
                    }
                }
                assert(i > 0);
                assert(name != seq!['.']) by {
                    if name == seq!['.'] {
                        assert(name.len() == 1);
                        assert(name[0] == t[0]);
                        assert(t[1] == '/');
                    }
                }
                law_components_are_parted_by_slashes(name, rest);
                law_components_are_parted_by_slashes(Seq::empty(), rest);
                law_a_name_is_one_component(name);
                law_a_name_is_one_component(Seq::empty());
                assert(name + seq!['/'] + rest =~= t);
                assert(Seq::<char>::empty() + seq!['/'] + rest =~= t.skip(i));
                assert(paths::parts(t.skip(i)) =~= paths::parts(s).skip(1));
                lemma_after_parts(t.skip(i), (n - 1) as nat);
                assert(paths::parts(s).skip(1).skip(n - 1) =~= paths::parts(s).skip(n as int));
            },
            None => {
                assert(!t.contains('/')) by {
                    if t.contains('/') {
                        let k = choose|k: int| 0 <= k < t.len() && t[k] == '/';
                        assert(t.subrange(k, k + 1) =~= seq!['/']);
                        assert(text::occurs_at(t, seq!['/'], k));
                    }
                }
                law_a_name_is_one_component(t);
                law_a_name_is_one_component(Seq::empty());
                assert(paths::parts(s).skip(n as int) =~= Seq::<Seq<char>>::empty());
            },
        }
    }
}

/// What stays of a path once a directory is taken off has the components after
/// those of the directory; a directory that the path does not begin with cannot
/// be taken off.
pub proof fn law_a_directory_is_taken_off_component_by_component(s: Seq<char>, dir: Seq<char>)
    ensures
        paths::stripped(s, dir) matches Some(rest) ==> paths::parts(dir) + paths::parts(rest) == paths::parts(s),
        dir.len() > 0 && !paths::parts(dir).is_prefix_of(paths::parts(s)) ==> paths::stripped(s, dir) is None,
        dir.len() > 0 && paths::absolute(s) && paths::absolute(dir) && paths::parts(dir).is_prefix_of(paths::parts(s))
            ==> paths::stripped(s, dir) is Some,
        dir.len() > 0 && paths::absolute(s) != paths::absolute(dir) ==> paths::stripped(s, dir) is None,
{
    reveal_strlit(".");
    reveal_strlit("./");
    if dir.len() == 0 {
        lemma_tidy_end_keeps_parts(s);
        assert(dir =~= Seq::<char>::empty());
        law_a_name_is_one_component(dir);
        assert(Seq::<Seq<char>>::empty() + paths::parts(s) =~= paths::parts(s));
    } else if paths::parts(dir).is_prefix_of(paths::parts(s)) {
        let n = paths::parts(dir).len();
        lemma_after_parts(s, n);
        lemma_tidy_end_keeps_parts(paths::after_parts(s, n));
        assert(paths::parts(dir) + paths::parts(s).skip(n as int) =~= paths::parts(s));
        if paths::absolute(s) && paths::absolute(dir) {
            lemma_no_dot_first(s);
            lemma_no_dot_first(dir);
        }
    }
}

proof fn lemma_no_dot_first(s: Seq<char>)
    requires
        paths::absolute(s),
    ensures
        !paths::dotted(s),
{
    reveal_strlit(".");
    reveal_strlit("./");
    if s == "."@ {
        assert(s[0] == '.');
    }
    if text::starts_with(s, "./"@) {
        assert(s.subrange(0, 2)[0] == '.');
    }
}

proof fn lemma_tidy(dir: Seq<char>, name: Seq<char>)
    requires
        component(name),
    ensures
        paths::tidy_end(dir + seq!['/'] + name) == dir + seq!['/'] + name,
{
    let s = dir + seq!['/'] + name;
    assert(s.last() == name.last());
    assert(name.contains(name.last()));
    if name.len() == 1 && name.last() == '.' {
        assert(name =~= seq!['.']);
    }
    if name.len() > 1 {
        assert(s[s.len() - 2] == name[name.len() - 2]);
        assert(name.contains(name[name.len() - 2]));
    }
}

/// A directory and a name make a path whose parent is the directory and whose
/// last component is the name.
pub proof fn law_a_file_lies_in_its_directory(dir: Seq<char>, name: Seq<char>)
    requires
        component(name),
        dir.len() > 0,
        dir.last() != '/',
        dir.last() != '.',
    ensures
        paths::pushed(dir, name) == dir + seq!['/'] + name,
        paths::parent(paths::pushed(dir, name)) == Some(dir),
        paths::parent(name) == Some(Seq::<char>::empty()),
        name != seq!['.', '.'] ==> paths::file_name(paths::pushed(dir, name)) == Some(name),
        paths::parts(paths::pushed(dir, name)) == paths::parts(dir).push(name),
{
    lemma_slash();
    let s = dir + seq!['/'] + name;
    assert(name.contains(name[0]));
    lemma_tidy(dir, name);
    words::law_a_text_is_cut_at_its_last_separator(dir, name, '/');
    assert(s.take(dir.len() as int + 1) =~= dir + seq!['/']);
    assert((dir + seq!['/']).drop_last() =~= dir);
    assert(paths::tidy_end(dir) == dir);
    assert(s != seq!['/']) by {
        assert(s.len() > 1);
    }
    assert(paths::tidy_end(dir + seq!['/']) == dir);
    assert(paths::tidy_end(name) == name) by {
        assert(name.contains(name.last()));
        if name.len() > 1 {
            assert(name.contains(name[name.len() - 2]));
        }
    }
    text::lemma_last_at(name, seq!['/'], name.len() - 1);
    assert(name != seq!['/']) by {
        if name == seq!['/'] {
            assert(name[0] == '/');
        }
    }
    law_components_are_parted_by_slashes(dir, name);
    law_a_name_is_one_component(name);
    assert(paths::parts(dir) + seq![name] =~= paths::parts(dir).push(name));
}

/// An absolute path replaces what it is put behind.
pub proof fn law_an_absolute_path_stands_alone(base: Seq<char>, p: Seq<char>)
    ensures
        paths::absolute(p) ==> paths::pushed(base, p) == p,
        !paths::absolute(p) ==> paths::parts(paths::pushed(base, p)) == paths::parts(base) + paths::parts(p),
        !paths::absolute(p) && base.len() > 0 ==> (paths::absolute(paths::pushed(base, p)) <==> paths::absolute(base)),
{
    lemma_slash();
    if !paths::absolute(p) {
        law_a_name_is_one_component(Seq::empty());
        if base.len() == 0 {
            assert(base =~= Seq::<char>::empty());
            assert(base + p =~= p);
            assert(Seq::<Seq<char>>::empty() + paths::parts(p) =~= paths::parts(p));
        } else if base.last() == '/' {
            let front = base.drop_last();
            law_components_are_parted_by_slashes(front, p);
            law_components_are_parted_by_slashes(front, Seq::empty());
            assert(front + seq!['/'] + p =~= base + p);
            assert(front + seq!['/'] + Seq::<char>::empty() =~= base);
            assert(paths::parts(base) =~= paths::parts(front));
        } else {
            law_components_are_parted_by_slashes(base, p);
        }
    }
}

/// A file's extension is what follows the last dot of its name, its stem what
/// precedes it. A dot in front of a name makes no extension.
pub proof fn law_a_name_ends_in_its_extension(dir: Seq<char>, stem: Seq<char>, ext: Seq<char>)
    requires
        stem.len() > 0,
        ext.len() > 0,
        !stem.contains('/'),
        !ext.contains('/'),
        !ext.contains('.'),
    ensures
        paths::extension(dir + seq!['/'] + (stem + seq!['.'] + ext)) == Some(ext),
        paths::stem(dir + seq!['/'] + (stem + seq!['.'] + ext)) == stem,
        paths::extension(dir + seq!['/'] + ext) is None,
        paths::stem(dir + seq!['/'] + ext) == ext,
        paths::extension(dir + seq!['/'] + (seq!['.'] + ext)) is None,
        paths::stem(dir + seq!['/'] + (seq!['.'] + ext)) == seq!['.'] + ext,
{
    let name = stem + seq!['.'] + ext;
    let hidden = seq!['.'] + ext;
    words::lemma_neither_holds(stem, seq!['.'], '/');
    words::lemma_neither_holds(stem + seq!['.'], ext, '/');
    words::lemma_neither_holds(seq!['.'], ext, '/');
    lemma_slash();
    assert(ext.contains(ext[0]));
    assert(ext.contains(ext.last()));
    assert(name.last() == ext.last());
    assert(name != seq!['.', '.']) by {
        if name == seq!['.', '.'] {
            assert(name.last() == '.');
        }
    }
    assert(hidden.last() == ext.last());
    lemma_name_of(dir, name);
    lemma_name_of(dir, ext);
    lemma_name_of(dir, hidden);
    words::law_a_text_is_cut_at_its_last_separator(stem, ext, '.');
    words::law_a_text_is_cut_at_its_last_separator(Seq::empty(), ext, '.');
    assert(Seq::<char>::empty() + seq!['.'] + ext =~= hidden);
    assert(name.take(stem.len() as int) =~= stem);
    assert(name.skip(stem.len() as int + 1) =~= ext);
    text::lemma_last_at(ext, seq!['.'], ext.len() - 1);
    assert(text::rfind(ext, seq!['.']) is None);
    assert(ext != seq!['.', '.']);
    assert(ext != seq!['.']);
    assert(hidden != seq!['.', '.']);
    assert(hidden != seq!['.']) by {
        assert(hidden.len() > 1);
    }
    assert(name != seq!['.']) by {
        assert(name.len() > 1);
    }
}

proof fn lemma_name_of(dir: Seq<char>, name: Seq<char>)
    requires
        name.len() > 0,
        !name.contains('/'),
        name.last() != '.',
    ensures
        ({
            let t = paths::tidy_end(dir + seq!['/'] + name);
            &&& text::rfind(t, "/"@) == Some(dir.len() as int)
            &&& t.skip(dir.len() as int + 1) == name
        }),
{
    lemma_slash();
    assert(name != seq!['.']) by {
        if name == seq!['.'] {
            assert(name.last() == '.');
        }
    }
    lemma_tidy(dir, name);
    words::law_a_text_is_cut_at_its_last_separator(dir, name, '/');
    assert((dir + seq!['/'] + name).skip(dir.len() as int + 1) =~= name);
}

} // verus!
