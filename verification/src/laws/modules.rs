//! Which module of a crate a file is.
use vstd::prelude::*;
use crate::history::crates;
use crate::history::crates::CrateView;
use crate::laws::texts;
use crate::laws::words;
use crate::text;

verus! {

/// The path of what is written behind the source directory of a crate.
pub open spec fn in_sources(k: CrateView, rest: Seq<char>) -> Seq<char> {
    k.dir + "/"@ + "src"@ + "/"@ + rest
}

proof fn lemma_common_beginning(h: Seq<char>, a: Seq<char>, b: Seq<char>)
    ensures
        text::after_prefix(h + a, h + b) == text::after_prefix(a, b),
{
    if b.len() <= a.len() {
        let (x, y) = ((h + a).subrange(0, (h.len() + b.len()) as int), a.subrange(0, b.len() as int));
        assert(x =~= h + y);
        if x == h + b {
            assert forall|i: int| 0 <= i < b.len() implies y[i] == b[i] by {
                assert(x[h.len() + i] == (h + b)[h.len() + i]);
            }
            assert(y =~= b);
        }
        assert((h + a).skip((h.len() + b.len()) as int) =~= a.skip(b.len() as int));
    }
}

proof fn lemma_below_sources(k: CrateView, rest: Seq<char>)
    requires
        k.dir.len() > 0,
    ensures
        crates::rest_below(k, in_sources(k, rest), "src"@) == Some(rest),
        crates::rest_below(k, in_sources(k, rest), "src/bin"@) == text::after_prefix(rest, "bin/"@),
{
    reveal_strlit("src");
    reveal_strlit("bin/");
    reveal_strlit("src/bin");
    reveal_strlit("/");
    let head = k.dir + "/"@ + "src"@ + "/"@;
    words::law_a_text_begins_and_ends_with_its_parts(head, rest, Seq::empty());
    assert(k.dir + "/"@ + "src/bin"@ + "/"@ =~= head + "bin/"@);
    lemma_common_beginning(head, rest, "bin/"@);
}

proof fn lemma_without_slash(s: Seq<char>)
    requires
        !s.contains('/'),
    ensures
        !text::contains(s, "/"@),
        text::find(s, "/"@) is None,
        text::after_prefix(s, "bin/"@) is None,
        text::before_suffix(s, "/mod"@) is None,
        text::substituted(s, "/"@, "::"@) == s,
{
    reveal_strlit("/");
    reveal_strlit("bin/");
    reveal_strlit("/mod");
    assert forall|i: int| !text::occurs_at(s, "/"@, i) by {
        if text::occurs_at(s, "/"@, i) {
            assert(s.subrange(i, i + 1)[0] == s[i]);
        }
    }
    if text::starts_with(s, "bin/"@) {
        assert(s.subrange(0, 4)[3] == s[3]);
    }
    if text::ends_with(s, "/mod"@) {
        assert(s.subrange(s.len() - 4, s.len() as int)[0] == s[s.len() - 4]);
    }
    text::lemma_first_at(s, "/"@, 0);
    texts::law_what_does_not_occur_is_not_replaced(s, "/"@, "::"@);
}

proof fn lemma_suffix_without_slash()
    ensures
        !".rs"@.contains('/'),
{
    reveal_strlit(".rs");
}

proof fn lemma_rust_source(m: Seq<char>)
    ensures
        text::before_suffix(m + ".rs"@, ".rs"@) == Some(m),
        !m.contains('/') ==> !(m + ".rs"@).contains('/'),
{
    lemma_suffix_without_slash();
    if !m.contains('/') {
        words::lemma_neither_holds(m, ".rs"@, '/');
    }
    assert(text::before_suffix(m + ".rs"@, ".rs"@) == Some(m)) by {
        words::law_a_text_begins_and_ends_with_its_parts(m, ".rs"@, Seq::empty());
    }
}

/// A source file of a crate is the module of its name; the root files are the
/// root, whatever is no Rust file is no module.
pub proof fn law_a_source_file_is_the_module_of_its_name(k: CrateView, m: Seq<char>)
    requires
        k.dir.len() > 0,
        !m.contains('/'),
    ensures
        crates::module_name_path(k, in_sources(k, m + ".rs"@)) == Some(
            if m == "lib"@ || m == "main"@ {
                Seq::<char>::empty()
            } else {
                m
            },
        ),
        !text::ends_with(m, ".rs"@) ==> crates::module_name_path(k, in_sources(k, m)) is None,
        crates::directory_binary(k, in_sources(k, m + ".rs"@)) is None,
{
    reveal_strlit("");
    assert(""@ =~= Seq::<char>::empty());
    lemma_rust_source(m);
    lemma_below_sources(k, m + ".rs"@);
    lemma_below_sources(k, m);
    lemma_without_slash(m);
    lemma_without_slash(m + ".rs"@);
}

proof fn lemma_one_directory(a: Seq<char>, b: Seq<char>)
    requires
        !a.contains('/'),
        !b.contains('/'),
        a != "bin"@,
    ensures
        text::after_prefix(a + seq!['/'] + b, "bin/"@) is None,
        text::substituted(a + seq!['/'] + b, "/"@, "::"@) == a + "::"@ + b,
        b != "mod"@ ==> text::before_suffix(a + seq!['/'] + b, "/mod"@) is None,
        b == "mod"@ ==> text::before_suffix(a + seq!['/'] + b, "/mod"@) == Some(a),
        a + seq!['/'] + b != "lib"@,
        a + seq!['/'] + b != "main"@,
{
    reveal_strlit("/");
    reveal_strlit("bin");
    reveal_strlit("bin/");
    reveal_strlit("mod");
    reveal_strlit("/mod");
    reveal_strlit("lib");
    reveal_strlit("main");
    let s = a + seq!['/'] + b;
    assert("/"@ =~= seq!['/']);
    assert(s[a.len() as int] == '/');
    if text::starts_with(s, "bin/"@) {
        let h = s.subrange(0, 4);
        assert(h[0] == s[0] && h[1] == s[1] && h[2] == s[2] && h[3] == s[3]);
        if a.len() > 3 {
            assert(a[3] == '/');
        } else if a.len() == 3 {
            assert(a =~= "bin"@);
        }
    }
    assert forall|j: int| 0 <= j < a.len() implies !text::occurs_at(a + "/"@ + b, "/"@, j) by {
        if text::occurs_at(s, "/"@, j) {
            assert(s.subrange(j, j + 1)[0] == s[j]);
            assert(a[j] == '/');
        }
    }
    texts::law_the_first_occurrence_and_those_after_it_are_replaced(a, "/"@, b, "::"@);
    lemma_without_slash(b);
    if b == "mod"@ {
        assert(s =~= a + "/mod"@);
        words::law_a_text_begins_and_ends_with_its_parts(a, "/mod"@, Seq::empty());
    } else if text::ends_with(s, "/mod"@) {
        let e = s.subrange(s.len() - 4, s.len() as int);
        assert(e[0] == s[s.len() - 4] && e[1] == s[s.len() - 3] && e[2] == s[s.len() - 2] && e[3] == s[s.len() - 1]);
        if b.len() > 3 {
            assert(b[b.len() - 4] == '/');
        } else if b.len() == 3 {
            assert(b =~= "mod"@);
        } else {
            assert(e[3 - b.len()] == '/');
        }
    }
    assert(s.contains('/'));
}

/// A file one directory down is the module below the directory's; the file that
/// is named for its directory's module is that module.
pub proof fn law_a_directory_is_a_module(k: CrateView, a: Seq<char>, b: Seq<char>)
    requires
        k.dir.len() > 0,
        !a.contains('/'),
        !b.contains('/'),
        a != "bin"@,
    ensures
        crates::module_name_path(k, in_sources(k, a + seq!['/'] + b + ".rs"@)) == Some(
            if b == "mod"@ {
                a
            } else {
                a + "::"@ + b
            },
        ),
        crates::directory_binary(k, in_sources(k, a + seq!['/'] + b + ".rs"@)) is None,
{
    let m = a + seq!['/'] + b;
    lemma_rust_source(m);
    lemma_rust_source(b);
    lemma_below_sources(k, m + ".rs"@);
    lemma_one_directory(a, b);
    lemma_one_directory(a, b + ".rs"@);
    assert(a + seq!['/'] + (b + ".rs"@) =~= m + ".rs"@);
    lemma_without_slash(a);
}

/// A file of the binaries is the root of its own; a directory there is a binary
/// whose files are modules of it.
pub proof fn law_a_binary_is_a_root_of_its_own(k: CrateView, name: Seq<char>, m: Seq<char>)
    requires
        k.dir.len() > 0,
        !name.contains('/'),
        !m.contains('/'),
    ensures
        crates::module_name_path(k, in_sources(k, "bin/"@ + (name + ".rs"@))) == Some(Seq::<char>::empty()),
        crates::directory_binary(k, in_sources(k, "bin/"@ + (name + ".rs"@))) is None,
        crates::directory_binary(k, in_sources(k, "bin/"@ + (name + seq!['/'] + (m + ".rs"@)))) == Some(name),
        crates::module_name_path(k, in_sources(k, "bin/"@ + (name + seq!['/'] + (m + ".rs"@)))) == Some(
            if m == "main"@ || m == "lib"@ {
                Seq::<char>::empty()
            } else {
                m
            },
        ),
{
    reveal_strlit("/");
    reveal_strlit("");
    assert(""@ =~= Seq::<char>::empty());
    assert("/"@ =~= seq!['/']);
    let one = name + ".rs"@;
    let deep = name + seq!['/'] + (m + ".rs"@);
    lemma_rust_source(name);
    lemma_rust_source(m);
    lemma_below_sources(k, "bin/"@ + one);
    lemma_below_sources(k, "bin/"@ + deep);
    words::law_a_text_begins_and_ends_with_its_parts("bin/"@, one, Seq::empty());
    words::law_a_text_begins_and_ends_with_its_parts("bin/"@, deep, Seq::empty());
    lemma_without_slash(one);
    lemma_without_slash(m);
    words::law_a_text_is_cut_at_its_first_separator(name, m + ".rs"@, '/');
    text::lemma_contains_find(deep, "/"@);
}

proof fn lemma_first_boundary(parts: Seq<Seq<char>>, i: int, n: int)
    requires
        0 <= i <= n < parts.len(),
        forall|k: int| i <= k < n ==> (#[trigger] parts[k]) != "src"@ && parts[k] != "tests"@,
        parts[n] == "src"@ || parts[n] == "tests"@,
    ensures
        crates::boundary_from(parts, i) == Some(n),
    decreases n - i,
{
    if i < n {
        assert(parts[i] != "src"@);
        lemma_first_boundary(parts, i + 1, n);
    }
}

/// Without manifests, a crate is taken to lie where its sources or its tests do.
pub proof fn law_a_crate_is_guessed_above_its_sources(parts: Seq<Seq<char>>, n: int)
    requires
        0 <= n < parts.len(),
        forall|k: int| 0 <= k < parts.len() ==> !(#[trigger] parts[k]).contains('/'),
        forall|k: int| 0 <= k < n ==> (#[trigger] parts[k]) != "src"@ && parts[k] != "tests"@,
        parts[n] == "src"@ || parts[n] == "tests"@,
    ensures
        crates::crate_of(None, text::joined(parts, seq!['/'])) == (CrateView {
            dir: text::joined(parts.take(n), seq!['/']),
            name: None,
        }),
{
    reveal_strlit("/");
    assert("/"@ =~= seq!['/']);
    texts::law_joined_parts_are_cut_apart_again(parts, '/');
    lemma_first_boundary(parts, 0, n);
}

} // verus!
