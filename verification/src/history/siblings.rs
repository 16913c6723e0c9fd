//! The tests of a file by the conventions of its language.
use vstd::prelude::*;
use vstd::string::*;
use crate::imports;
use crate::imports::directory_of;
use crate::order::among;
use crate::text;
use crate::text::{
    begins, concat2, concat3, concat4, concat5, drop_leading, finishes, has, rfind_str, rsplit_once, same,
    split_once, strip_prefix, to_lowercase,
};

verus! {

/// Largest `.phpt` directory that is listed file by file.
pub const PHPT_LIST_CAP: usize = 50;

/// `dir` names a directory segment of `path`, which is in lower case.
pub open spec fn has_segment(path: Seq<char>, dir: Seq<char>) -> bool {
    text::contains(path, "/"@ + dir + "/"@) || text::starts_with(path, dir + "/"@)
}

/// The path stands under a directory that holds inputs to tests.
pub open spec fn fixture(path: Seq<char>) -> bool {
    let p = text::lowercased(path);
    fixture_lowered(p)
}

/// The lower-case path stands under a directory that holds inputs to tests.
pub open spec fn fixture_lowered(p: Seq<char>) -> bool {
    has_segment(p, "fixtures"@) || has_segment(p, "fixture"@) || has_segment(p, "stubs"@)
        || has_segment(p, "testdata"@) || has_segment(p, "__fixtures__"@) || has_segment(
        p,
        "__snapshots__"@,
    )
}

fn has_dir_segment(path: &str, dir: &str) -> (r: bool)
    ensures
        r == has_segment(path@, dir@),
{
    let inner = concat3("/", dir, "/");
    let outer = concat2(dir, "/");
    has(path, inner.as_str()) || begins(path, outer.as_str())
}

/// Whether a path in lower case stands under a fixture directory.
pub fn is_fixture_lowered(p: &str) -> (r: bool)
    ensures
        r == fixture_lowered(p@),
{
    has_dir_segment(p, "fixtures") || has_dir_segment(p, "fixture") || has_dir_segment(p, "stubs")
        || has_dir_segment(p, "testdata") || has_dir_segment(p, "__fixtures__") || has_dir_segment(
        p,
        "__snapshots__",
    )
}

/// Whether a path stands under a fixture directory, in whatever case: what
/// stands there is never a test to run.
pub fn is_fixture(path: &str) -> (r: bool)
    ensures
        r == fixture(path@),
{
    let lower = to_lowercase(path);
    is_fixture_lowered(lower.as_str())
}

/// The last segment of a path.
pub open spec fn base_name(path: Seq<char>) -> Seq<char> {
    match text::split_last(path, "/"@) {
        Some((_, name)) => name,
        None => path,
    }
}

/// The last segment of a path up to its first dot.
pub open spec fn first_stem(path: Seq<char>) -> Seq<char> {
    match text::split_first(base_name(path), "."@) {
        Some((stem, _)) => stem,
        None => base_name(path),
    }
}

fn first_stem_of<'a>(path: &'a str) -> (out: &'a str)
    ensures
        out@ == first_stem(path@),
{
    let name = match rsplit_once(path, "/") {
        Some((_, name)) => name,
        None => path,
    };
    match split_once(name, ".") {
        Some((stem, _)) => stem,
        None => name,
    }
}

/// The names that the common conventions give to a test of `stem`.
pub open spec fn conventional(dir: Seq<char>, stem: Seq<char>) -> Seq<Seq<char>> {
    seq![
        dir + "/"@ + stem + "Test.php"@,
        "tests/Unit/"@ + stem + "Test.php"@,
        "tests/Feature/"@ + stem + "Test.php"@,
        dir + "/test_"@ + stem + ".py"@,
        dir + "/"@ + stem + "_test.py"@,
        "tests/test_"@ + stem + ".py"@,
        dir + "/"@ + stem + "_test.go"@,
        dir + "/"@ + stem + ".test.ts"@,
        dir + "/"@ + stem + ".test.tsx"@,
        dir + "/"@ + stem + ".test.js"@,
        dir + "/"@ + stem + ".spec.ts"@,
        dir + "/"@ + stem + ".spec.tsx"@,
        dir + "/"@ + stem + ".spec.js"@,
        dir + "/"@ + stem + "Test.java"@,
    ]
}

fn conventional_names(dir: &str, stem: &str) -> (out: Vec<String>)
    ensures
        text::views(out@) == conventional(dir@, stem@),
{
    broadcast use text::group_views;
    let mut out: Vec<String> = Vec::new();
    out.push(concat4(dir, "/", stem, "Test.php"));
    out.push(concat3("tests/Unit/", stem, "Test.php"));
    out.push(concat3("tests/Feature/", stem, "Test.php"));
    out.push(concat4(dir, "/test_", stem, ".py"));
    out.push(concat4(dir, "/", stem, "_test.py"));
    out.push(concat3("tests/test_", stem, ".py"));
    out.push(concat4(dir, "/", stem, "_test.go"));
    out.push(concat4(dir, "/", stem, ".test.ts"));
    out.push(concat4(dir, "/", stem, ".test.tsx"));
    out.push(concat4(dir, "/", stem, ".test.js"));
    out.push(concat4(dir, "/", stem, ".spec.ts"));
    out.push(concat4(dir, "/", stem, ".spec.tsx"));
    out.push(concat4(dir, "/", stem, ".spec.js"));
    out.push(concat4(dir, "/", stem, "Test.java"));
    assert(text::views(out@) =~= conventional(dir@, stem@));
    out
}

/// A path that the index holds, other than `path`.
pub open spec fn other_indexed(index: Seq<Seq<char>>, path: Seq<char>) -> spec_fn(Seq<char>) -> bool {
    |c: Seq<char>| c != path && index.contains(c)
}

/// Those of `candidates` that the index holds, without a leading slash. The
/// edited file is never its own test.
pub open spec fn indexed_others(
    candidates: Seq<Seq<char>>,
    index: Seq<Seq<char>>,
    path: Seq<char>,
) -> Seq<Seq<char>> {
    candidates.map_values(|c: Seq<char>| text::without_leading(c, '/')).filter(
        other_indexed(index, path),
    )
}

fn indexed_others_of(candidates: &Vec<String>, index: &Vec<String>, path: &str) -> (out: Vec<String>)
    ensures
        text::views(out@) == indexed_others(text::views(candidates@), text::views(index@), path@),
{
    broadcast use text::group_views;
    let ghost bare = text::views(candidates@).map_values(
        |c: Seq<char>| text::without_leading(c, '/'),
    );
    let ghost keep = other_indexed(text::views(index@), path@);
    let mut out: Vec<String> = Vec::new();
    let mut i: usize = 0;
    proof {
        assert(bare.take(0) =~= Seq::empty());
        reveal(Seq::filter);
    }
    while i < candidates.len()
        invariant
            i <= candidates.len(),
            bare == text::views(candidates@).map_values(
                |c: Seq<char>| text::without_leading(c, '/'),
            ),
            keep == other_indexed(text::views(index@), path@),
            text::views(out@) == bare.take(i as int).filter(keep),
        decreases candidates.len() - i,
    {
        broadcast use text::group_views;
        let c = drop_leading(candidates[i].as_str(), '/');
        proof {
            assert(text::views(candidates@)[i as int] == candidates@[i as int]@);
            assert(bare.take(i + 1).drop_last() =~= bare.take(i as int));
            assert(bare.take(i + 1).last() == c@);
            reveal(Seq::filter);
        }
        if !same(c, path) && among(index, c) {
            out.push(c.to_owned());
        }
        i += 1;
    }
    assert(bare.take(bare.len() as int) =~= bare);
    out
}

/// `found` with those of `more` that it does not hold, in turn.
pub open spec fn joined_unique(found: Seq<Seq<char>>, more: Seq<Seq<char>>) -> Seq<Seq<char>>
    decreases more.len(),
{
    if more.len() == 0 {
        found
    } else {
        let front = joined_unique(found, more.drop_last());
        if front.contains(more.last()) {
            front
        } else {
            front.push(more.last())
        }
    }
}

pub fn join_unique(found: &mut Vec<String>, more: &Vec<String>)
    ensures
        text::views(final(found)@) == joined_unique(text::views(old(found)@), text::views(more@)),
{
    broadcast use text::group_views;
    let ghost was = text::views(found@);
    let ghost all = text::views(more@);
    let mut i: usize = 0;
    assert(all.take(0) =~= Seq::empty());
    while i < more.len()
        invariant
            i <= more.len(),
            all == text::views(more@),
            text::views(found@) == joined_unique(was, all.take(i as int)),
        decreases more.len() - i,
    {
        broadcast use text::group_views;
        assert(all.take(i + 1).drop_last() =~= all.take(i as int));
        assert(all.take(i + 1).last() == more@[i as int]@);
        if !among(found, more[i].as_str()) {
            found.push(more[i].clone());
        }
        i += 1;
    }
    assert(all.take(all.len() as int) =~= all);
}

/// The indexed files under `prefix` that end in `suffix`; `inputs` says
/// whether fixtures count.
pub open spec fn listing(
    index: Seq<Seq<char>>,
    prefix: Seq<char>,
    suffix: Seq<char>,
    fixtures: bool,
) -> Seq<Seq<char>> {
    index.filter(
        |p: Seq<char>|
            text::starts_with(p, prefix) && text::ends_with(p, suffix) && (fixtures || !fixture(p)),
    )
}

fn listing_of(index: &Vec<String>, prefix: &str, suffix: &str, fixtures: bool) -> (out: Vec<String>)
    ensures
        text::views(out@) == listing(text::views(index@), prefix@, suffix@, fixtures),
{
    broadcast use text::group_views;
    let ghost all = text::views(index@);
    let ghost keep = |p: Seq<char>|
        text::starts_with(p, prefix@) && text::ends_with(p, suffix@) && (fixtures || !fixture(p));
    let mut out: Vec<String> = Vec::new();
    let mut i: usize = 0;
    proof {
        assert(all.take(0) =~= Seq::empty());
        reveal(Seq::filter);
    }
    while i < index.len()
        invariant
            i <= index.len(),
            all == text::views(index@),
            keep == (|p: Seq<char>|
                text::starts_with(p, prefix@) && text::ends_with(p, suffix@) && (fixtures
                    || !fixture(p))),
            text::views(out@) == all.take(i as int).filter(keep),
        decreases index.len() - i,
    {
        broadcast use text::group_views;
        let p = index[i].as_str();
        proof {
            assert(all.take(i + 1).drop_last() =~= all.take(i as int));
            assert(all.take(i + 1).last() == p@);
            reveal(Seq::filter);
        }
        if begins(p, prefix) && finishes(p, suffix) && (fixtures || !is_fixture(p)) {
            out.push(p.to_owned());
        }
        i += 1;
    }
    assert(all.take(all.len() as int) =~= all);
    out
}

/// The integration tests of a Rust file's crate: those beside the last `src`
/// directory above it, or at the root for a root crate.
pub open spec fn rust_tests(index: Seq<Seq<char>>, path: Seq<char>) -> Seq<Seq<char>> {
    if !text::ends_with(path, ".rs"@) {
        Seq::empty()
    } else {
        match text::rfind(path, "/src/"@) {
            Some(i) => listing(index, path.take(i) + "/tests/"@, ".rs"@, false),
            None => if text::starts_with(path, "src/"@) {
                listing(index, "tests/"@, ".rs"@, false)
            } else {
                Seq::empty()
            },
        }
    }
}

fn rust_tests_of(index: &Vec<String>, path: &str) -> (out: Vec<String>)
    ensures
        text::views(out@) == rust_tests(text::views(index@), path@),
{
    broadcast use text::group_views;
    if !finishes(path, ".rs") {
        return Vec::new();
    }
    match rfind_str(path, "/src/") {
        Some(i) => {
            let n: usize = path.unicode_len();
            let root = path.substring_char(0, i);
            assert(root@ =~= path@.take(i as int));
            let prefix = concat2(root, "/tests/");
            listing_of(index, prefix.as_str(), ".rs", false)
        },
        None => if begins(path, "src/") {
            listing_of(index, "tests/", ".rs", false)
        } else {
            Vec::new()
        },
    }
}

/// The `.phpt` tests beside a C file that `found` does not hold.
pub open spec fn phpt_tests(
    index: Seq<Seq<char>>,
    path: Seq<char>,
    found: Seq<Seq<char>>,
) -> Seq<Seq<char>> {
    if text::ends_with(path, ".c"@) || text::ends_with(path, ".h"@) {
        match text::split_last(path, "/"@) {
            Some((dir, _)) => listing(index, dir + "/tests/"@, ".phpt"@, true).filter(
                |p: Seq<char>| !found.contains(p),
            ),
            None => Seq::empty(),
        }
    } else {
        Seq::empty()
    }
}

fn phpt_tests_of(index: &Vec<String>, path: &str, found: &Vec<String>) -> (out: Vec<String>)
    ensures
        text::views(out@) == phpt_tests(text::views(index@), path@, text::views(found@)),
{
    broadcast use text::group_views;
    let mut out: Vec<String> = Vec::new();
    if finishes(path, ".c") || finishes(path, ".h") {
        if let Some((dir, _)) = rsplit_once(path, "/") {
            let prefix = concat2(dir, "/tests/");
            let all = listing_of(index, prefix.as_str(), ".phpt", true);
            let ghost seen = text::views(all@);
            let ghost keep = |p: Seq<char>| !text::views(found@).contains(p);
            let mut i: usize = 0;
            proof {
                assert(seen.take(0) =~= Seq::empty());
                reveal(Seq::filter);
            }
            while i < all.len()
                invariant
                    i <= all.len(),
                    seen == text::views(all@),
                    keep == (|p: Seq<char>| !text::views(found@).contains(p)),
                    text::views(out@) == seen.take(i as int).filter(keep),
                decreases all.len() - i,
            {
                broadcast use text::group_views;
                proof {
                    assert(seen.take(i + 1).drop_last() =~= seen.take(i as int));
                    assert(seen.take(i + 1).last() == all@[i as int]@);
                    reveal(Seq::filter);
                }
                if !among(found, all[i].as_str()) {
                    out.push(all[i].clone());
                }
                i += 1;
            }
            assert(seen.take(seen.len() as int) =~= seen);
        }
    }
    out
}

/// The directory and the stem of what stands below `prefix` in a path, where
/// there is a directory and an extension.
pub open spec fn mirrored(path: Seq<char>, prefix: Seq<char>) -> Option<(Seq<char>, Seq<char>)> {
    match text::after_prefix(path, prefix) {
        Some(rest) => match text::split_last(rest, "/"@) {
            Some((dir, name)) => match text::split_last(name, "."@) {
                Some((stem, _)) => Some((dir, stem)),
                None => None,
            },
            None => None,
        },
        None => None,
    }
}

fn mirrored_of<'a>(path: &'a str, prefix: &str) -> (out: Option<(&'a str, &'a str)>)
    ensures
        match out {
            Some((dir, stem)) => mirrored(path@, prefix@) == Some((dir@, stem@)),
            None => mirrored(path@, prefix@) is None,
        },
{
    match strip_prefix(path, prefix) {
        Some(rest) => match rsplit_once(rest, "/") {
            Some((dir, name)) => match rsplit_once(name, ".") {
                Some((stem, _)) => Some((dir, stem)),
                None => None,
            },
            None => None,
        },
        None => None,
    }
}

/// The places where a mirrored test tree holds the test of a file.
pub open spec fn mirror_names(path: Seq<char>) -> Seq<Seq<char>> {
    (if text::ends_with(path, ".php"@) {
        (match mirrored(path, "app/"@) {
            Some((dir, stem)) => seq![
                "tests/Unit/"@ + dir + "/"@ + stem + "Test.php"@,
                "tests/Feature/"@ + dir + "/"@ + stem + "Test.php"@,
                "tests/Integration/"@ + dir + "/"@ + stem + "Test.php"@,
                "tests/Browser/"@ + dir + "/"@ + stem + "Test.php"@,
            ],
            None => Seq::empty(),
        }) + (match mirrored(path, "src/"@) {
            Some((dir, stem)) => seq!["tests/"@ + dir + "/"@ + stem + "Test.php"@],
            None => Seq::empty(),
        })
    } else {
        Seq::empty()
    }) + (if text::ends_with(path, ".java"@) {
        match text::after_prefix(path, "src/main/java/"@) {
            Some(rest) => match text::split_last(rest, "/"@) {
                Some((dir, _)) => seq![
                    "src/test/java/"@ + dir + "/"@ + first_stem(path) + "Test.java"@,
                ],
                None => Seq::empty(),
            },
            None => Seq::empty(),
        }
    } else {
        Seq::empty()
    })
}

fn mirror_names_of(path: &str) -> (out: Vec<String>)
    ensures
        text::views(out@) == mirror_names(path@),
{
    broadcast use text::group_views;
    let mut out: Vec<String> = Vec::new();
    if finishes(path, ".php") {
        if let Some((dir, stem)) = mirrored_of(path, "app/") {
            out.push(concat5("tests/Unit/", dir, "/", stem, "Test.php"));
            out.push(concat5("tests/Feature/", dir, "/", stem, "Test.php"));
            out.push(concat5("tests/Integration/", dir, "/", stem, "Test.php"));
            out.push(concat5("tests/Browser/", dir, "/", stem, "Test.php"));
        }
        if let Some((dir, stem)) = mirrored_of(path, "src/") {
            out.push(concat5("tests/", dir, "/", stem, "Test.php"));
        }
    }
    if finishes(path, ".java") {
        if let Some(rest) = strip_prefix(path, "src/main/java/") {
            if let Some((dir, _)) = rsplit_once(rest, "/") {
                let stem = first_stem_of(path);
                out.push(concat5("src/test/java/", dir, "/", stem, "Test.java"));
            }
        }
    }
    assert(text::views(out@) =~= mirror_names(path@));
    out
}

/// The extension of a C or C++ file.
pub open spec fn c_extension(path: Seq<char>) -> Option<Seq<char>> {
    if text::ends_with(path, ".c"@) {
        Some("c"@)
    } else if text::ends_with(path, ".h"@) {
        Some("h"@)
    } else if text::ends_with(path, ".cc"@) {
        Some("cc"@)
    } else if text::ends_with(path, ".cpp"@) {
        Some("cpp"@)
    } else if text::ends_with(path, ".cxx"@) {
        Some("cxx"@)
    } else if text::ends_with(path, ".hpp"@) {
        Some("hpp"@)
    } else {
        None
    }
}

fn c_extension_of(path: &str) -> (out: Option<&'static str>)
    ensures
        match out {
            Some(e) => c_extension(path@) == Some(e@),
            None => c_extension(path@) is None,
        },
{
    if finishes(path, ".c") {
        Some("c")
    } else if finishes(path, ".h") {
        Some("h")
    } else if finishes(path, ".cc") {
        Some("cc")
    } else if finishes(path, ".cpp") {
        Some("cpp")
    } else if finishes(path, ".cxx") {
        Some("cxx")
    } else if finishes(path, ".hpp") {
        Some("hpp")
    } else {
        None
    }
}

/// The names that C and C++ projects give to the test of a file, beside it or
/// under `tests/`, with its own extension.
pub open spec fn c_names(path: Seq<char>) -> Seq<Seq<char>> {
    let dir = imports::directory(path);
    let stem = first_stem(path);
    match c_extension(path) {
        Some(e) => seq![
            dir + "/"@ + stem + "_test."@ + e,
            dir + "/test_"@ + stem + "."@ + e,
            "tests/"@ + stem + "_test."@ + e,
            "tests/test_"@ + stem + "."@ + e,
        ],
        None => Seq::empty(),
    }
}

fn c_names_of(path: &str) -> (out: Vec<String>)
    ensures
        text::views(out@) == c_names(path@),
{
    broadcast use text::group_views;
    let dir = directory_of(path);
    let stem = first_stem_of(path);
    let mut out: Vec<String> = Vec::new();
    if let Some(e) = c_extension_of(path) {
        out.push(concat5(dir, "/", stem, "_test.", e));
        out.push(concat5(dir, "/test_", stem, ".", e));
        out.push(concat4("tests/", stem, "_test.", e));
        out.push(concat4("tests/test_", stem, ".", e));
    }
    assert(text::views(out@) =~= c_names(path@));
    out
}

/// The tests of a file that conventions name: those by name, those of its
/// Rust crate, those of its `.phpt` directory unless it is too large to list,
/// those of a mirrored tree, and those of the C convention. A `.phpt`
/// directory that is too large is withheld: its tests exist.
pub open spec fn sibling_tests(index: Seq<Seq<char>>, path: Seq<char>) -> (
    Seq<Seq<char>>,
    Seq<Seq<char>>,
) {
    if first_stem(path).len() == 0 {
        (Seq::empty(), Seq::empty())
    } else {
        let named = indexed_others(
            conventional(imports::directory(path), first_stem(path)),
            index,
            path,
        );
        let with_rust = joined_unique(named, rust_tests(index, path));
        let phpt = phpt_tests(index, path, with_rust);
        let listed = if phpt.len() <= PHPT_LIST_CAP {
            with_rust + phpt
        } else {
            with_rust
        };
        let mirrors = joined_unique(
            listed,
            mirror_names(path).filter(|c: Seq<char>| index.contains(c)),
        );
        let all = joined_unique(mirrors, indexed_others(c_names(path), index, path));
        (all, if phpt.len() <= PHPT_LIST_CAP {
            Seq::empty()
        } else {
            phpt
        })
    }
}

/// Every listed path is indexed and is not the edited one.
pub open spec fn indexed_and_other(list: Seq<Seq<char>>, index: Seq<Seq<char>>, path: Seq<char>) -> bool {
    forall|x: Seq<char>| #[trigger] list.contains(x) ==> index.contains(x) && x != path
}

proof fn lemma_joined_unique(
    found: Seq<Seq<char>>,
    more: Seq<Seq<char>>,
    index: Seq<Seq<char>>,
    path: Seq<char>,
)
    requires
        indexed_and_other(found, index, path),
        indexed_and_other(more, index, path),
    ensures
        indexed_and_other(joined_unique(found, more), index, path),
    decreases more.len(),
{
    if more.len() > 0 {
        let less = more.drop_last();
        assert forall|x: Seq<char>| #[trigger] less.contains(x) implies index.contains(x) && x
            != path by {
            let k = choose|k: int| 0 <= k < less.len() && less[k] == x;
            assert(more[k] == x);
            assert(more.contains(x));
        }
        lemma_joined_unique(found, less, index, path);
        let front = joined_unique(found, less);
        assert(more[more.len() - 1] == more.last());
        assert(more.contains(more.last()));
        assert forall|x: Seq<char>| #[trigger] joined_unique(found, more).contains(x) implies index.contains(
            x,
        ) && x != path by {
            let out = joined_unique(found, more);
            let k = choose|k: int| 0 <= k < out.len() && out[k] == x;
            if k < front.len() {
                assert(front[k] == x);
                assert(front.contains(x));
            }
        }
    }
}

proof fn lemma_begins(s: Seq<char>, p: Seq<char>, i: int)
    requires
        text::starts_with(s, p),
        0 <= i < p.len(),
    ensures
        s[i] == p[i],
{
    assert(s.subrange(0, p.len() as int)[i] == s[i]);
}

proof fn lemma_ends(s: Seq<char>, p: Seq<char>)
    requires
        text::ends_with(s, p),
        p.len() > 0,
    ensures
        s.len() > 0,
        s.last() == p.last(),
{
    let at = s.len() - p.len();
    assert(s.subrange(at, s.len() as int)[p.len() - 1] == s[s.len() - 1]);
}

proof fn lemma_filtered(s: Seq<Seq<char>>, p: spec_fn(Seq<char>) -> bool, x: Seq<char>)
    requires
        s.filter(p).contains(x),
    ensures
        p(x),
        s.contains(x),
{
    let k = choose|k: int| 0 <= k < s.filter(p).len() && s.filter(p)[k] == x;
    s.lemma_filter_pred(p, k);
    s.lemma_filter_contains_rev(p, x);
}

proof fn lemma_listing_is_other(
    index: Seq<Seq<char>>,
    prefix: Seq<char>,
    suffix: Seq<char>,
    fixtures: bool,
    path: Seq<char>,
)
    requires
        !(text::starts_with(path, prefix) && text::ends_with(path, suffix)),
    ensures
        indexed_and_other(listing(index, prefix, suffix, fixtures), index, path),
{
    let keep = |p: Seq<char>|
        text::starts_with(p, prefix) && text::ends_with(p, suffix) && (fixtures || !fixture(p));
    assert forall|x: Seq<char>| #[trigger] listing(index, prefix, suffix, fixtures).contains(
        x,
    ) implies index.contains(x) && x != path by {
        lemma_filtered(index, keep, x);
    }
}

proof fn lemma_named_are_others(candidates: Seq<Seq<char>>, index: Seq<Seq<char>>, path: Seq<char>)
    ensures
        indexed_and_other(indexed_others(candidates, index, path), index, path),
{
    assert forall|x: Seq<char>| #[trigger] indexed_others(candidates, index, path).contains(
        x,
    ) implies index.contains(x) && x != path by {
        lemma_filtered(
            candidates.map_values(|c: Seq<char>| text::without_leading(c, '/')),
            other_indexed(index, path),
            x,
        );
    }
}

proof fn lemma_rust_tests_are_others(index: Seq<Seq<char>>, path: Seq<char>)
    ensures
        indexed_and_other(rust_tests(index, path), index, path),
{
    reveal_strlit("/src/");
    reveal_strlit("/tests/");
    reveal_strlit("src/");
    reveal_strlit("tests/");
    if text::ends_with(path, ".rs"@) {
        match text::rfind(path, "/src/"@) {
            Some(i) => {
                text::lemma_last_at(path, "/src/"@, path.len() - 5);
                let prefix = path.take(i) + "/tests/"@;
                assert(path.subrange(i, i + 5)[1] == path[i + 1]);
                if text::starts_with(path, prefix) {
                    lemma_begins(path, prefix, i + 1);
                    assert(prefix[i + 1] == 't');
                }
                lemma_listing_is_other(index, prefix, ".rs"@, false, path);
            },
            None => if text::starts_with(path, "src/"@) {
                lemma_begins(path, "src/"@, 0);
                if text::starts_with(path, "tests/"@) {
                    lemma_begins(path, "tests/"@, 0);
                }
                lemma_listing_is_other(index, "tests/"@, ".rs"@, false, path);
            },
        }
    }
}

proof fn lemma_phpt_tests_are_others(index: Seq<Seq<char>>, path: Seq<char>, found: Seq<Seq<char>>)
    ensures
        indexed_and_other(phpt_tests(index, path, found), index, path),
{
    reveal_strlit(".c");
    reveal_strlit(".h");
    reveal_strlit(".phpt");
    if text::ends_with(path, ".c"@) || text::ends_with(path, ".h"@) {
        if text::ends_with(path, ".c"@) {
            lemma_ends(path, ".c"@);
        } else {
            lemma_ends(path, ".h"@);
        }
        if text::ends_with(path, ".phpt"@) {
            lemma_ends(path, ".phpt"@);
        }
        if let Some((dir, _)) = text::split_last(path, "/"@) {
            let all = listing(index, dir + "/tests/"@, ".phpt"@, true);
            lemma_listing_is_other(index, dir + "/tests/"@, ".phpt"@, true, path);
            assert forall|x: Seq<char>| #[trigger] phpt_tests(index, path, found).contains(
                x,
            ) implies index.contains(x) && x != path by {
                lemma_filtered(all, |p: Seq<char>| !found.contains(p), x);
            }
        }
    }
}

proof fn lemma_mirrors_are_others(path: Seq<char>)
    ensures
        !mirror_names(path).contains(path),
{
    reveal_strlit("app/");
    reveal_strlit("src/");
    reveal_strlit("tests/");
    reveal_strlit("tests/Unit/");
    reveal_strlit("tests/Feature/");
    reveal_strlit("tests/Integration/");
    reveal_strlit("tests/Browser/");
    reveal_strlit("src/main/java/");
    reveal_strlit("src/test/java/");
    if mirror_names(path).contains(path) {
        let names = mirror_names(path);
        let k = choose|k: int| 0 <= k < names.len() && names[k] == path;
        if text::starts_with(path, "app/"@) {
            lemma_begins(path, "app/"@, 0);
        }
        if text::starts_with(path, "src/"@) {
            lemma_begins(path, "src/"@, 0);
        }
        if text::starts_with(path, "src/main/java/"@) {
            lemma_begins(path, "src/main/java/"@, 0);
            lemma_begins(path, "src/main/java/"@, 4);
        }
        assert(names[k][0] == 't' || (names[k][0] == 's' && names[k][4] == 't'));
    }
}

/// The tests that conventions name are indexed, and no file is its own test.
pub proof fn law_no_file_is_its_own_test(index: Seq<Seq<char>>, path: Seq<char>)
    ensures
        indexed_and_other(sibling_tests(index, path).0, index, path),
        indexed_and_other(sibling_tests(index, path).1, index, path),
{
    if first_stem(path).len() > 0 {
        let named = indexed_others(
            conventional(imports::directory(path), first_stem(path)),
            index,
            path,
        );
        lemma_named_are_others(
            conventional(imports::directory(path), first_stem(path)),
            index,
            path,
        );
        lemma_rust_tests_are_others(index, path);
        lemma_joined_unique(named, rust_tests(index, path), index, path);
        let with_rust = joined_unique(named, rust_tests(index, path));
        let phpt = phpt_tests(index, path, with_rust);
        lemma_phpt_tests_are_others(index, path, with_rust);
        let listed = if phpt.len() <= PHPT_LIST_CAP {
            with_rust + phpt
        } else {
            with_rust
        };
        assert forall|x: Seq<char>| #[trigger] listed.contains(x) implies index.contains(x) && x
            != path by {
            let k = choose|k: int| 0 <= k < listed.len() && listed[k] == x;
            if k < with_rust.len() {
                assert(with_rust[k] == x);
                assert(with_rust.contains(x));
            } else {
                assert(phpt[k - with_rust.len()] == x);
                assert(phpt.contains(x));
            }
        }
        let keep = |c: Seq<char>| index.contains(c);
        let mirrors = mirror_names(path).filter(keep);
        lemma_mirrors_are_others(path);
        assert forall|x: Seq<char>| #[trigger] mirrors.contains(x) implies index.contains(x) && x
            != path by {
            lemma_filtered(mirror_names(path), keep, x);
        }
        lemma_joined_unique(listed, mirrors, index, path);
        lemma_named_are_others(c_names(path), index, path);
        lemma_joined_unique(
            joined_unique(listed, mirrors),
            indexed_others(c_names(path), index, path),
            index,
            path,
        );
    }
}

fn indexed_only(candidates: &Vec<String>, index: &Vec<String>) -> (out: Vec<String>)
    ensures
        text::views(out@) == text::views(candidates@).filter(
            |c: Seq<char>| text::views(index@).contains(c),
        ),
{
    broadcast use text::group_views;
    let ghost all = text::views(candidates@);
    let ghost keep = |c: Seq<char>| text::views(index@).contains(c);
    let mut out: Vec<String> = Vec::new();
    let mut i: usize = 0;
    proof {
        assert(all.take(0) =~= Seq::empty());
        reveal(Seq::filter);
    }
    while i < candidates.len()
        invariant
            i <= candidates.len(),
            all == text::views(candidates@),
            keep == (|c: Seq<char>| text::views(index@).contains(c)),
            text::views(out@) == all.take(i as int).filter(keep),
        decreases candidates.len() - i,
    {
        broadcast use text::group_views;
        proof {
            assert(all.take(i + 1).drop_last() =~= all.take(i as int));
            assert(all.take(i + 1).last() == candidates@[i as int]@);
            reveal(Seq::filter);
        }
        if among(index, candidates[i].as_str()) {
            out.push(candidates[i].clone());
        }
        i += 1;
    }
    assert(all.take(all.len() as int) =~= all);
    out
}

/// The tests of a file that conventions name and the index holds, and those
/// that are withheld because there are too many to list.
pub fn test_sibling_paths(index: &Vec<String>, file_path: &str) -> (out: (Vec<String>, Vec<String>))
    ensures
        (text::views(out.0@), text::views(out.1@)) == sibling_tests(
            text::views(index@),
            file_path@,
        ),
{
    broadcast use text::group_views;
    let stem = first_stem_of(file_path);
    if stem.is_empty() {
        return (Vec::new(), Vec::new());
    }
    let dir = directory_of(file_path);
    let names = conventional_names(dir, stem);
    let mut found = indexed_others_of(&names, index, file_path);
    let crate_tests = rust_tests_of(index, file_path);
    join_unique(&mut found, &crate_tests);
    let phpt = phpt_tests_of(index, file_path, &found);
    let mut withheld: Vec<String> = Vec::new();
    if phpt.len() <= PHPT_LIST_CAP {
        append_all(&mut found, &phpt);
    } else {
        withheld = phpt;
    }
    let mirrors = mirror_names_of(file_path);
    let mirrored_tests = indexed_only(&mirrors, index);
    join_unique(&mut found, &mirrored_tests);
    let c_tests = c_names_of(file_path);
    let c_found = indexed_others_of(&c_tests, index, file_path);
    join_unique(&mut found, &c_found);
    (found, withheld)
}

fn append_all(found: &mut Vec<String>, more: &Vec<String>)
    ensures
        text::views(final(found)@) == text::views(old(found)@) + text::views(more@),
{
    broadcast use text::group_views;
    let ghost was = text::views(found@);
    let ghost all = text::views(more@);
    let mut i: usize = 0;
    assert(was + all.take(0) =~= was);
    while i < more.len()
        invariant
            i <= more.len(),
            all == text::views(more@),
            text::views(found@) == was + all.take(i as int),
        decreases more.len() - i,
    {
        broadcast use text::group_views;
        assert(was + all.take(i + 1) =~= (was + all.take(i as int)).push(more@[i as int]@));
        found.push(more[i].clone());
        i += 1;
    }
    assert(all.take(all.len() as int) =~= all);
}

/// Whether any indexed file looks like a test of `file_path`. Withheld tests
/// count: too many to list is the opposite of none.
pub fn test_sibling_exists(index: &Vec<String>, file_path: &str) -> (r: bool)
    ensures
        r == (sibling_tests(text::views(index@), file_path@).0.len() > 0 || sibling_tests(
            text::views(index@),
            file_path@,
        ).1.len() > 0),
{
    let (paths, withheld) = test_sibling_paths(index, file_path);
    assert(text::views(paths@).len() == paths@.len());
    assert(text::views(withheld@).len() == withheld@.len());
    paths.len() > 0 || withheld.len() > 0
}

} // verus!
