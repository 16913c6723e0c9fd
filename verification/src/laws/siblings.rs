//! Which tests stand beside a file by convention.
use vstd::prelude::*;
use crate::history::siblings;
use crate::imports;
use crate::laws::words;
use crate::text;

verus! {

/// A test that may stand beside a file: it is indexed, and another file.
pub open spec fn stands(index: Seq<Seq<char>>, path: Seq<char>, test: Seq<char>) -> bool {
    index.contains(test) && test != path
}

/// A list joined with another holds what either holds.
pub proof fn lemma_joined_unique(found: Seq<Seq<char>>, more: Seq<Seq<char>>, x: Seq<char>)
    ensures
        siblings::joined_unique(found, more).contains(x) <==> found.contains(x) || more.contains(x),
    decreases more.len(),
{
    let all = siblings::joined_unique(found, more);
    if more.len() > 0 {
        let less = more.drop_last();
        let front = siblings::joined_unique(found, less);
        lemma_joined_unique(found, less, x);
        assert(more[more.len() - 1] == more.last());
        if less.contains(x) {
            let i = choose|i: int| 0 <= i < less.len() && less[i] == x;
            assert(more[i] == x);
        }
        if more.contains(x) {
            let i = choose|i: int| 0 <= i < more.len() && more[i] == x;
            if i < less.len() {
                assert(less[i] == x);
            }
        }
        if !front.contains(more.last()) {
            assert(all[front.len() as int] == more.last());
            if front.contains(x) {
                let i = choose|i: int| 0 <= i < front.len() && front[i] == x;
                assert(all[i] == x);
            }
            if all.contains(x) {
                let i = choose|i: int| 0 <= i < all.len() && all[i] == x;
                if i < front.len() {
                    assert(front[i] == x);
                }
            }
        }
    }
}

proof fn lemma_indexed_others(candidates: Seq<Seq<char>>, index: Seq<Seq<char>>, path: Seq<char>, x: Seq<char>)
    requires
        candidates.contains(x),
        x.len() > 0,
        x[0] != '/',
        stands(index, path, x),
    ensures
        siblings::indexed_others(candidates, index, path).contains(x),
{
    let m = candidates.map_values(|c: Seq<char>| text::without_leading(c, '/'));
    let i = choose|i: int| 0 <= i < candidates.len() && candidates[i] == x;
    assert(m[i] == x);
    m.lemma_filter_contains(siblings::other_indexed(index, path), i);
}

proof fn lemma_named_tests(index: Seq<Seq<char>>, path: Seq<char>, x: Seq<char>)
    requires
        siblings::first_stem(path).len() > 0,
        x.len() > 0,
        x[0] != '/',
        stands(index, path, x),
    ensures
        siblings::conventional(imports::directory(path), siblings::first_stem(path)).contains(x)
            ==> siblings::sibling_tests(index, path).0.contains(x),
        siblings::c_names(path).contains(x) ==> siblings::sibling_tests(index, path).0.contains(x),
        siblings::mirror_names(path).contains(x) ==> siblings::sibling_tests(index, path).0.contains(x),
        siblings::rust_tests(index, path).contains(x) ==> siblings::sibling_tests(index, path).0.contains(x),
{
    let names = siblings::conventional(imports::directory(path), siblings::first_stem(path));
    let named = siblings::indexed_others(names, index, path);
    let rust = siblings::rust_tests(index, path);
    let with_rust = siblings::joined_unique(named, rust);
    let phpt = siblings::phpt_tests(index, path, with_rust);
    let listed = if phpt.len() <= siblings::PHPT_LIST_CAP {
        with_rust + phpt
    } else {
        with_rust
    };
    let m = siblings::mirror_names(path);
    let known = |c: Seq<char>| index.contains(c);
    let mirrors = siblings::joined_unique(listed, m.filter(known));
    let c = siblings::indexed_others(siblings::c_names(path), index, path);
    let all = siblings::joined_unique(mirrors, c);
    assert(all == siblings::sibling_tests(index, path).0);
    lemma_joined_unique(named, rust, x);
    lemma_joined_unique(listed, m.filter(known), x);
    lemma_joined_unique(mirrors, c, x);
    if names.contains(x) {
        lemma_indexed_others(names, index, path, x);
    }
    if siblings::c_names(path).contains(x) {
        lemma_indexed_others(siblings::c_names(path), index, path, x);
    }
    if m.contains(x) {
        let i = choose|i: int| 0 <= i < m.len() && m[i] == x;
        m.lemma_filter_contains(known, i);
    }
    if with_rust.contains(x) {
        let i = choose|i: int| 0 <= i < with_rust.len() && with_rust[i] == x;
        assert((with_rust + phpt)[i] == x);
        assert(listed.contains(x));
    }
}

/// The path of a file: its directory, its name up to the first dot, and what
/// follows the dot.
pub open spec fn at(dir: Seq<char>, stem: Seq<char>, ext: Seq<char>) -> Seq<char> {
    dir + "/"@ + stem + "."@ + ext
}

/// A directory, a stem and an extension that make up a path in one way only.
pub open spec fn well_parted(dir: Seq<char>, stem: Seq<char>, ext: Seq<char>) -> bool {
    &&& dir.len() > 0 && dir[0] != '/'
    &&& stem.len() > 0 && !stem.contains('/') && !stem.contains('.')
    &&& !ext.contains('/')
}

proof fn lemma_parts(dir: Seq<char>, stem: Seq<char>, ext: Seq<char>)
    requires
        well_parted(dir, stem, ext),
    ensures
        imports::directory(at(dir, stem, ext)) == dir,
        siblings::first_stem(at(dir, stem, ext)) == stem,
{
    reveal_strlit("/");
    reveal_strlit(".");
    let name = stem + seq!['.'] + ext;
    assert("/"@ =~= seq!['/']);
    assert("."@ =~= seq!['.']);
    assert(at(dir, stem, ext) =~= dir + seq!['/'] + name);
    assert(!name.contains('/')) by {
        if name.contains('/') {
            let i = choose|i: int| 0 <= i < name.len() && name[i] == '/';
            if i < stem.len() {
                assert(stem[i] == '/');
            } else if i > stem.len() {
                assert(ext[i - stem.len() - 1] == '/');
            }
        }
    }
    words::law_a_text_is_cut_at_its_last_separator(dir, name, '/');
    words::law_a_text_is_cut_at_its_first_separator(stem, ext, '.');
}

/// The tests that a naming convention gives a file are found where they are
/// indexed: those named after the file beside it and those under `tests/`.
pub proof fn law_tests_named_after_a_file_are_found(
    index: Seq<Seq<char>>,
    dir: Seq<char>,
    stem: Seq<char>,
    ext: Seq<char>,
    test: Seq<char>,
)
    requires
        well_parted(dir, stem, ext),
        stands(index, at(dir, stem, ext), test),
        test == dir + "/"@ + stem + "Test.php"@ || test == "tests/Unit/"@ + stem + "Test.php"@ || test
            == "tests/Feature/"@ + stem + "Test.php"@ || test == dir + "/test_"@ + stem + ".py"@ || test == dir + "/"@
            + stem + "_test.py"@ || test == "tests/test_"@ + stem + ".py"@ || test == dir + "/"@ + stem + "_test.go"@
            || test == dir + "/"@ + stem + ".test.ts"@ || test == dir + "/"@ + stem + ".test.tsx"@ || test == dir + "/"@
            + stem + ".test.js"@ || test == dir + "/"@ + stem + ".spec.ts"@ || test == dir + "/"@ + stem + ".spec.tsx"@
            || test == dir + "/"@ + stem + ".spec.js"@ || test == dir + "/"@ + stem + "Test.java"@,
    ensures
        siblings::sibling_tests(index, at(dir, stem, ext)).0.contains(test),
{
    let path = at(dir, stem, ext);
    lemma_parts(dir, stem, ext);
    let names = siblings::conventional(dir, stem);
    reveal_strlit("tests/Unit/");
    reveal_strlit("tests/Feature/");
    reveal_strlit("tests/test_");
    assert(names.len() == 14);
    assert(names.contains(test)) by {
        assert(test == names[0] || test == names[1] || test == names[2] || test == names[3] || test == names[4] || test
            == names[5] || test == names[6] || test == names[7] || test == names[8] || test == names[9] || test
            == names[10] || test == names[11] || test == names[12] || test == names[13]);
    }
    assert(test.len() > 0 && test[0] != '/') by {
        assert(dir[0] != '/');
        assert("tests/Unit/"@[0] == 't' && "tests/Feature/"@[0] == 't' && "tests/test_"@[0] == 't');
    }
    lemma_named_tests(index, path, test);
}

/// The extensions of C and C++ files.
pub open spec fn c_like(ext: Seq<char>) -> bool {
    ext == "c"@ || ext == "h"@ || ext == "cc"@ || ext == "cpp"@ || ext == "cxx"@ || ext == "hpp"@
}

/// A C or C++ file is tested by the files named after it with the same
/// extension, beside it or under `tests/`.
pub proof fn law_c_tests_share_the_extension(
    index: Seq<Seq<char>>,
    dir: Seq<char>,
    stem: Seq<char>,
    ext: Seq<char>,
    test: Seq<char>,
)
    requires
        well_parted(dir, stem, ext),
        c_like(ext),
        stands(index, at(dir, stem, ext), test),
        test == dir + "/"@ + stem + "_test."@ + ext || test == dir + "/test_"@ + stem + "."@ + ext || test == "tests/"@
            + stem + "_test."@ + ext || test == "tests/test_"@ + stem + "."@ + ext,
    ensures
        siblings::sibling_tests(index, at(dir, stem, ext)).0.contains(test),
{
    let path = at(dir, stem, ext);
    lemma_parts(dir, stem, ext);
    reveal_strlit("tests/");
    reveal_strlit("tests/test_");
    lemma_c_extension(dir + "/"@ + stem, ext);
    assert(siblings::c_extension(path) == Some(ext));
    let names = siblings::c_names(path);
    assert(names.contains(test)) by {
        assert(test == names[0] || test == names[1] || test == names[2] || test == names[3]);
    }
    assert(test.len() > 0 && test[0] != '/') by {
        assert("tests/"@[0] == 't' && "tests/test_"@[0] == 't');
    }
    lemma_named_tests(index, path, test);
}

proof fn lemma_suffix(a: Seq<char>, ext: Seq<char>, x: Seq<char>, dotted: Seq<char>)
    requires
        !ext.contains('.'),
        !x.contains('.'),
        dotted == seq!['.'] + x,
    ensures
        text::ends_with(a + seq!['.'] + ext, dotted) <==> x == ext,
{
    let path = a + seq!['.'] + ext;
    words::law_a_text_is_cut_at_its_last_separator(a, ext, '.');
    if text::ends_with(path, dotted) {
        let head = path.take(path.len() - dotted.len());
        assert(path =~= head + seq!['.'] + x) by {
            assert(path =~= head + path.subrange(path.len() - dotted.len(), path.len() as int));
        }
        words::law_a_text_is_cut_at_its_last_separator(head, x, '.');
    }
    if x == ext {
        assert(path =~= a + dotted);
        words::law_a_text_begins_and_ends_with_its_parts(a, dotted, Seq::empty());
    }
}

proof fn lemma_c_extension(a: Seq<char>, ext: Seq<char>)
    requires
        c_like(ext),
    ensures
        siblings::c_extension(a + "."@ + ext) == Some(ext),
{
    reveal_strlit(".");
    reveal_strlit("c");
    reveal_strlit("h");
    reveal_strlit("cc");
    reveal_strlit("cpp");
    reveal_strlit("cxx");
    reveal_strlit("hpp");
    reveal_strlit(".c");
    reveal_strlit(".h");
    reveal_strlit(".cc");
    reveal_strlit(".cpp");
    reveal_strlit(".cxx");
    reveal_strlit(".hpp");
    assert("."@ =~= seq!['.']);
    assert(".c"@ =~= seq!['.'] + "c"@);
    assert(".h"@ =~= seq!['.'] + "h"@);
    assert(".cc"@ =~= seq!['.'] + "cc"@);
    assert(".cpp"@ =~= seq!['.'] + "cpp"@);
    assert(".cxx"@ =~= seq!['.'] + "cxx"@);
    assert(".hpp"@ =~= seq!['.'] + "hpp"@);
    lemma_suffix(a, ext, "c"@, ".c"@);
    lemma_suffix(a, ext, "h"@, ".h"@);
    lemma_suffix(a, ext, "cc"@, ".cc"@);
    lemma_suffix(a, ext, "cpp"@, ".cpp"@);
    lemma_suffix(a, ext, "cxx"@, ".cxx"@);
    lemma_suffix(a, ext, "hpp"@, ".hpp"@);
}

/// A PHP file under `app/` is tested by its mirrors under the four test roots;
/// one under `src/` by its mirror under `tests/`.
pub proof fn law_php_tests_mirror_the_sources(
    index: Seq<Seq<char>>,
    dir: Seq<char>,
    stem: Seq<char>,
    test: Seq<char>,
)
    requires
        dir.len() > 0,
        stem.len() > 0,
        !stem.contains('/'),
        !stem.contains('.'),
    ensures
        ({
            let app = "app/"@ + dir + "/"@ + stem + "."@ + "php"@;
            let src = "src/"@ + dir + "/"@ + stem + "."@ + "php"@;
            &&& stands(index, app, test) && (test == "tests/Unit/"@ + dir + "/"@ + stem + "Test.php"@ || test
                == "tests/Feature/"@ + dir + "/"@ + stem + "Test.php"@ || test == "tests/Integration/"@ + dir + "/"@
                + stem + "Test.php"@ || test == "tests/Browser/"@ + dir + "/"@ + stem + "Test.php"@)
                ==> siblings::sibling_tests(index, app).0.contains(test)
            &&& stands(index, src, test) && test == "tests/"@ + dir + "/"@ + stem + "Test.php"@
                ==> siblings::sibling_tests(index, src).0.contains(test)
        }),
{
    reveal_strlit("app/");
    reveal_strlit("src/");
    reveal_strlit("php");
    reveal_strlit(".php");
    reveal_strlit(".");
    reveal_strlit("/");
    reveal_strlit("tests/Unit/");
    reveal_strlit("tests/Feature/");
    reveal_strlit("tests/Integration/");
    reveal_strlit("tests/Browser/");
    reveal_strlit("tests/");
    let app = "app/"@ + dir + "/"@ + stem + "."@ + "php"@;
    let src = "src/"@ + dir + "/"@ + stem + "."@ + "php"@;
    lemma_mirrored("app/"@, dir, stem, "php"@);
    lemma_mirrored("src/"@, dir, stem, "php"@);
    assert(app =~= at("app/"@ + dir, stem, "php"@));
    assert(src =~= at("src/"@ + dir, stem, "php"@));
    lemma_parts("app/"@ + dir, stem, "php"@);
    lemma_parts("src/"@ + dir, stem, "php"@);
    assert("."@ + "php"@ =~= ".php"@);
    assert(app =~= ("app/"@ + dir + "/"@ + stem) + ".php"@);
    assert(src =~= ("src/"@ + dir + "/"@ + stem) + ".php"@);
    words::law_a_text_begins_and_ends_with_its_parts("app/"@ + dir + "/"@ + stem, ".php"@, Seq::empty());
    words::law_a_text_begins_and_ends_with_its_parts("src/"@ + dir + "/"@ + stem, ".php"@, Seq::empty());
    let ma = siblings::mirror_names(app);
    let ms = siblings::mirror_names(src);
    assert(!text::starts_with(src, "app/"@)) by {
        if text::starts_with(src, "app/"@) {
            assert(src.subrange(0, 4)[0] == "app/"@[0]);
            assert(src[0] == 's');
        }
    }
    if stands(index, app, test) && (test == "tests/Unit/"@ + dir + "/"@ + stem + "Test.php"@ || test
        == "tests/Feature/"@ + dir + "/"@ + stem + "Test.php"@ || test == "tests/Integration/"@ + dir + "/"@ + stem
        + "Test.php"@ || test == "tests/Browser/"@ + dir + "/"@ + stem + "Test.php"@) {
        assert(ma.contains(test)) by {
            assert(ma[0] == "tests/Unit/"@ + dir + "/"@ + stem + "Test.php"@);
            assert(ma[1] == "tests/Feature/"@ + dir + "/"@ + stem + "Test.php"@);
            assert(ma[2] == "tests/Integration/"@ + dir + "/"@ + stem + "Test.php"@);
            assert(ma[3] == "tests/Browser/"@ + dir + "/"@ + stem + "Test.php"@);
        }
        assert(test[0] == 't');
        lemma_named_tests(index, app, test);
    }
    if stands(index, src, test) && test == "tests/"@ + dir + "/"@ + stem + "Test.php"@ {
        assert(ms[0] == test);
        assert(test[0] == 't');
        lemma_named_tests(index, src, test);
    }
}

proof fn lemma_mirrored(prefix: Seq<char>, dir: Seq<char>, stem: Seq<char>, ext: Seq<char>)
    requires
        !stem.contains('/'),
        !ext.contains('/'),
        !ext.contains('.'),
    ensures
        siblings::mirrored(prefix + dir + "/"@ + stem + "."@ + ext, prefix) == Some((dir, stem)),
{
    reveal_strlit("/");
    reveal_strlit(".");
    assert("/"@ =~= seq!['/']);
    assert("."@ =~= seq!['.']);
    let name = stem + seq!['.'] + ext;
    let rest = dir + seq!['/'] + name;
    let path = prefix + dir + "/"@ + stem + "."@ + ext;
    assert(path =~= prefix + rest);
    words::law_a_text_begins_and_ends_with_its_parts(prefix, rest, Seq::empty());
    assert(!name.contains('/')) by {
        if name.contains('/') {
            let i = choose|i: int| 0 <= i < name.len() && name[i] == '/';
            if i < stem.len() {
                assert(stem[i] == '/');
            } else if i > stem.len() {
                assert(ext[i - stem.len() - 1] == '/');
            }
        }
    }
    words::law_a_text_is_cut_at_its_last_separator(dir, name, '/');
    words::law_a_text_is_cut_at_its_last_separator(stem, ext, '.');
}

/// A Rust source of a crate is tested by every file of its `tests/` directory
/// that ends in `.rs` and is no fixture, and by nothing else there.
pub proof fn law_rust_tests_stand_beside_the_sources(
    index: Seq<Seq<char>>,
    path: Seq<char>,
    at: int,
    test: Seq<char>,
)
    requires
        text::ends_with(path, ".rs"@),
    ensures
        text::rfind(path, "/src/"@) == Some(at) ==> (siblings::rust_tests(index, path).contains(test)
            <==> index.contains(test) && text::starts_with(test, path.take(at) + "/tests/"@) && text::ends_with(
            test,
            ".rs"@,
        ) && !siblings::fixture(test)),
        text::rfind(path, "/src/"@) is None && text::starts_with(path, "src/"@) ==> (siblings::rust_tests(
            index,
            path,
        ).contains(test) <==> index.contains(test) && text::starts_with(test, "tests/"@) && text::ends_with(
            test,
            ".rs"@,
        ) && !siblings::fixture(test)),
        siblings::first_stem(path).len() > 0 && test.len() > 0 && test[0] != '/' && stands(index, path, test)
            && siblings::rust_tests(index, path).contains(test) ==> siblings::sibling_tests(index, path).0.contains(test),
{
    if text::rfind(path, "/src/"@) == Some(at) {
        lemma_listing(index, path.take(at) + "/tests/"@, ".rs"@, false, test);
    }
    lemma_listing(index, "tests/"@, ".rs"@, false, test);
    if siblings::first_stem(path).len() > 0 && test.len() > 0 && test[0] != '/' && stands(index, path, test) {
        lemma_named_tests(index, path, test);
    }
}

proof fn lemma_listing(index: Seq<Seq<char>>, prefix: Seq<char>, suffix: Seq<char>, fixtures: bool, x: Seq<char>)
    ensures
        siblings::listing(index, prefix, suffix, fixtures).contains(x) <==> index.contains(x) && text::starts_with(
            x,
            prefix,
        ) && text::ends_with(x, suffix) && (fixtures || !siblings::fixture(x)),
{
    broadcast use {vstd::seq_lib::group_filter_ensures, vstd::seq::Seq::lemma_filter_contains_rev};

    let l = siblings::listing(index, prefix, suffix, fixtures);
    if l.contains(x) {
        let i = choose|i: int| 0 <= i < l.len() && l[i] == x;
        assert(text::starts_with(l[i], prefix) && text::ends_with(l[i], suffix) && (fixtures || !siblings::fixture(l[i])));
    }
    if index.contains(x) && text::starts_with(x, prefix) && text::ends_with(x, suffix) && (fixtures
        || !siblings::fixture(x)) {
        let i = choose|i: int| 0 <= i < index.len() && index[i] == x;
        assert(l.contains(index[i]));
    }
}

/// The `.phpt` tests of a C source are listed while there are at most fifty of
/// them; more are withheld, all of them.
pub proof fn law_many_phpt_tests_are_withheld(index: Seq<Seq<char>>, dir: Seq<char>, name: Seq<char>, test: Seq<char>)
    requires
        siblings::first_stem(dir + seq!['/'] + name).len() > 0,
        !name.contains('/'),
        text::ends_with(dir + seq!['/'] + name, ".c"@) || text::ends_with(dir + seq!['/'] + name, ".h"@),
        index.contains(test),
        text::starts_with(test, dir + "/tests/"@),
        text::ends_with(test, ".phpt"@),
    ensures
        ({
            let (listed, withheld) = siblings::sibling_tests(index, dir + seq!['/'] + name);
            &&& listed.contains(test) || withheld.contains(test)
            &&& withheld.len() == 0 || withheld.len() > 50
            &&& index.len() <= 50 ==> withheld.len() == 0
        }),
{
    let path = dir + seq!['/'] + name;
    reveal_strlit("/");
    assert("/"@ =~= seq!['/']);
    words::law_a_text_is_cut_at_its_last_separator(dir, name, '/');
    let names = siblings::conventional(imports::directory(path), siblings::first_stem(path));
    let named = siblings::indexed_others(names, index, path);
    let with_rust = siblings::joined_unique(named, siblings::rust_tests(index, path));
    let l = siblings::listing(index, dir + "/tests/"@, ".phpt"@, true);
    let fresh = |p: Seq<char>| !with_rust.contains(p);
    let phpt = l.filter(fresh);
    assert(phpt == siblings::phpt_tests(index, path, with_rust));
    lemma_listing(index, dir + "/tests/"@, ".phpt"@, true, test);
    let i = choose|i: int| 0 <= i < l.len() && l[i] == test;
    if fresh(test) {
        l.lemma_filter_contains(fresh, i);
    }
    l.lemma_filter_len(fresh);
    lemma_listing_len(index, dir + "/tests/"@, ".phpt"@);
    let listed = if phpt.len() <= siblings::PHPT_LIST_CAP {
        with_rust + phpt
    } else {
        with_rust
    };
    let m = siblings::mirror_names(path);
    let known = |c: Seq<char>| index.contains(c);
    let mirrors = siblings::joined_unique(listed, m.filter(known));
    let c = siblings::indexed_others(siblings::c_names(path), index, path);
    assert(siblings::joined_unique(mirrors, c) == siblings::sibling_tests(index, path).0);
    lemma_joined_unique(listed, m.filter(known), test);
    lemma_joined_unique(mirrors, c, test);
    if with_rust.contains(test) {
        let j = choose|j: int| 0 <= j < with_rust.len() && with_rust[j] == test;
        assert((with_rust + phpt)[j] == test);
        assert(listed.contains(test));
    } else if phpt.len() <= siblings::PHPT_LIST_CAP {
        let j = choose|j: int| 0 <= j < phpt.len() && phpt[j] == test;
        assert((with_rust + phpt)[with_rust.len() + j] == test);
        assert(listed.contains(test));
    }
}

proof fn lemma_listing_len(index: Seq<Seq<char>>, prefix: Seq<char>, suffix: Seq<char>)
    ensures
        siblings::listing(index, prefix, suffix, true).len() <= index.len(),
{
    broadcast use vstd::seq_lib::group_filter_ensures;

    assert(siblings::listing(index, prefix, suffix, true).len() <= index.len());
}

// ---------------------------------------------------------------------------
// Fixtures
// ---------------------------------------------------------------------------

/// The names of directories that hold fixtures.
pub open spec fn fixture_directory(d: Seq<char>) -> bool {
    d == "fixtures"@ || d == "fixture"@ || d == "stubs"@ || d == "testdata"@ || d == "__fixtures__"@ || d
        == "__snapshots__"@
}

/// A file below a directory of fixtures is one, at any depth and at the root.
pub proof fn law_files_below_a_fixture_directory_are_fixtures(a: Seq<char>, d: Seq<char>, b: Seq<char>)
    requires
        fixture_directory(d),
    ensures
        siblings::fixture_lowered(a + "/"@ + d + "/"@ + b),
        siblings::fixture_lowered(d + "/"@ + b),
{
    words::law_a_text_begins_and_ends_with_its_parts(a, "/"@ + d + "/"@, b);
    assert(a + "/"@ + d + "/"@ + b =~= a + ("/"@ + d + "/"@) + b);
    words::law_a_text_begins_and_ends_with_its_parts(d + "/"@, b, Seq::empty());
    let p = a + "/"@ + d + "/"@ + b;
    assert(siblings::has_segment(p, d));
    assert(siblings::has_segment(d + "/"@ + b, d));
}

/// Nothing else is a fixture: one names such a directory.
pub proof fn law_a_fixture_lies_below_a_fixture_directory(p: Seq<char>)
    requires
        siblings::fixture_lowered(p),
    ensures
        exists|d: Seq<char>|
            #[trigger] fixture_directory(d) && (text::contains(p, "/"@ + d + "/"@) || text::starts_with(p, d + "/"@)),
{
    let d = if siblings::has_segment(p, "fixtures"@) {
        "fixtures"@
    } else if siblings::has_segment(p, "fixture"@) {
        "fixture"@
    } else if siblings::has_segment(p, "stubs"@) {
        "stubs"@
    } else if siblings::has_segment(p, "testdata"@) {
        "testdata"@
    } else if siblings::has_segment(p, "__fixtures__"@) {
        "__fixtures__"@
    } else {
        "__snapshots__"@
    };
    assert(fixture_directory(d));
    assert(text::contains(p, "/"@ + d + "/"@) || text::starts_with(p, d + "/"@));
}

} // verus!
