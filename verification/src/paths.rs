//! Slash-separated paths, read the way a Unix path is.
use vstd::prelude::*;
use vstd::string::*;
use crate::text;
use crate::text::{begins, chars_of, concat2, concat3, find_str, join, rfind_str, same, split, trim};

verus! {

/// A path without the separators and `.` components at its end; a lone root
/// stays.
pub open spec fn tidy_end(s: Seq<char>) -> Seq<char>
    decreases s.len(),
{
    if s.len() > 1 && s.last() == '/' {
        tidy_end(s.drop_last())
    } else if s.len() > 1 && s.last() == '.' && s[s.len() - 2] == '/' {
        tidy_end(s.drop_last())
    } else {
        s
    }
}

/// The path without its last component; `None` for an empty path and for a
/// root.
pub open spec fn parent(s: Seq<char>) -> Option<Seq<char>> {
    let t = tidy_end(s);
    if t.len() == 0 || t == "/"@ {
        None
    } else {
        match text::rfind(t, "/"@) {
            Some(i) => Some(tidy_end(t.take(i + 1))),
            None => Some(Seq::empty()),
        }
    }
}

fn tidy<'a>(s: &'a str) -> (out: &'a str)
    ensures
        out@ == tidy_end(s@),
{
    let v = chars_of(s);
    let mut n: usize = v.len();
    assert(s@.take(n as int) =~= s@);
    while n > 1 && (v[n - 1] == '/' || (v[n - 1] == '.' && v[n - 2] == '/'))
        invariant
            v@ == s@,
            n <= v.len(),
            tidy_end(s@) == tidy_end(s@.take(n as int)),
        decreases n,
    {
        assert(s@.take(n as int).drop_last() =~= s@.take(n - 1));
        n -= 1;
    }
    let out = s.substring_char(0, n);
    assert(out@ =~= s@.take(n as int));
    out
}

/// The path without its last component.
pub fn parent_of<'a>(s: &'a str) -> (out: Option<&'a str>)
    ensures
        match out {
            Some(p) => parent(s@) == Some(p@),
            None => parent(s@) is None,
        },
{
    let t = tidy(s);
    if t.is_empty() || text::same(t, "/") {
        return None;
    }
    match rfind_str(t, "/") {
        Some(i) => {
            proof {
                reveal_strlit("/");
            }
            let n: usize = t.unicode_len();
            let front = t.substring_char(0, i + 1);
            assert(front@ =~= t@.take(i + 1));
            Some(tidy(front))
        },
        None => {
            let none = t.substring_char(0, 0);
            assert(none@ =~= Seq::<char>::empty());
            Some(none)
        },
    }
}

/// A path that begins at the root.
pub open spec fn absolute(s: Seq<char>) -> bool {
    s.len() > 0 && s[0] == '/'
}

/// A component that names something: neither empty nor `.`.
pub open spec fn names_something(p: Seq<char>) -> bool {
    p.len() > 0 && p != "."@
}

/// The components of a path below its root, if it has one.
pub open spec fn parts(s: Seq<char>) -> Seq<Seq<char>> {
    text::pieces(s, '/').filter(|p: Seq<char>| names_something(p))
}

pub fn is_absolute(s: &str) -> (r: bool)
    ensures
        r == absolute(s@),
{
    let v = chars_of(s);
    v.len() > 0 && v[0] == '/'
}

pub fn parts_of(s: &str) -> (out: Vec<String>)
    ensures
        text::views(out@) == parts(s@),
{
    broadcast use text::group_views;
    let all = split(s, '/');
    let ghost pieces = text::pieces(s@, '/');
    let ghost keep = |p: Seq<char>| names_something(p);
    let mut out: Vec<String> = Vec::new();
    let mut i: usize = 0;
    proof {
        assert(pieces.take(0) =~= Seq::empty());
        reveal(Seq::filter);
    }
    while i < all.len()
        invariant
            i <= all.len(),
            pieces == text::views(all@),
            keep == (|p: Seq<char>| names_something(p)),
            text::views(out@) == pieces.take(i as int).filter(keep),
        decreases all.len() - i,
    {
        broadcast use text::group_views;
        proof {
            assert(pieces.take(i + 1).drop_last() =~= pieces.take(i as int));
            assert(pieces.take(i + 1).last() == all@[i as int]@);
            reveal(Seq::filter);
        }
        if !all[i].as_str().is_empty() && !same(all[i].as_str(), ".") {
            out.push(all[i].clone());
        }
        i += 1;
    }
    assert(pieces.take(pieces.len() as int) =~= pieces);
    out
}

/// The absolute path `s` stands at or below the absolute path `root`.
pub open spec fn below(s: Seq<char>, root: Option<Seq<char>>) -> bool {
    match root {
        Some(r) => absolute(s) && absolute(r) && parts(r).is_prefix_of(parts(s)),
        None => false,
    }
}

/// The form of a path that an index uses: `.` components and repeated
/// separators are dropped, and an absolute path under `root` is made relative
/// to it. `..` is not resolved.
pub open spec fn normalized(root: Option<Seq<char>>, path: Seq<char>) -> Seq<char> {
    let s = text::trimmed(path);
    if below(s, root) {
        text::joined(parts(s).skip(parts(root->0).len() as int), "/"@)
    } else if absolute(s) {
        "/"@ + text::joined(parts(s), "/"@)
    } else {
        text::joined(parts(s), "/"@)
    }
}

fn starts_with_parts(s: &Vec<String>, p: &Vec<String>) -> (r: bool)
    ensures
        r == text::views(p@).is_prefix_of(text::views(s@)),
{
    broadcast use text::group_views;
    let ghost x = text::views(s@);
    let ghost y = text::views(p@);
    if p.len() > s.len() {
        return false;
    }
    let mut i: usize = 0;
    while i < p.len()
        invariant
            i <= p.len() <= s.len(),
            x == text::views(s@),
            y == text::views(p@),
            forall|j: int| 0 <= j < i ==> x[j] == y[j],
        decreases p.len() - i,
    {
        broadcast use text::group_views;
        assert(x[i as int] == s@[i as int]@ && y[i as int] == p@[i as int]@);
        if !same(s[i].as_str(), p[i].as_str()) {
            assert(x.subrange(0, y.len() as int)[i as int] != y[i as int]);
            return false;
        }
        i += 1;
    }
    assert(x.subrange(0, y.len() as int) =~= y);
    true
}

/// The form of a user-supplied path that an index uses.
pub fn normalize_input_path(root: Option<&str>, path: &str) -> (out: String)
    ensures
        out@ == normalized(
            match root {
                Some(r) => Some(r@),
                None => None,
            },
            path@,
        ),
{
    broadcast use text::group_views;
    let s = trim(path);
    let segments = parts_of(s);
    let rooted = is_absolute(s);
    if let Some(r) = root {
        if rooted && is_absolute(r) {
            let prefix = parts_of(r);
            if starts_with_parts(&segments, &prefix) {
                let ghost rest = parts(s@).skip(parts(r@).len() as int);
                let mut out: Vec<String> = Vec::new();
                let mut i: usize = prefix.len();
                while i < segments.len()
                    invariant
                        prefix.len() <= i <= segments.len(),
                        text::views(segments@) == parts(s@),
                        text::views(prefix@) == parts(r@),
                        rest == parts(s@).skip(parts(r@).len() as int),
                        text::views(out@) == rest.take(i - prefix.len()),
                    decreases segments.len() - i,
                {
                    broadcast use text::group_views;
                    assert(text::views(segments@)[i as int] == segments@[i as int]@);
                    assert(rest.take(i - prefix.len() + 1) =~= rest.take(i - prefix.len()).push(
                        segments@[i as int]@,
                    ));
                    out.push(segments[i].clone());
                    i += 1;
                }
                assert(rest.take(segments.len() - prefix.len()) =~= rest);
                return join(&out, "/");
            }
        }
    }
    let tail = join(&segments, "/");
    if rooted {
        concat2("/", tail.as_str())
    } else {
        tail
    }
}

/// The extension of a path's last component: what follows its last dot,
/// unless the dot begins the name.
pub open spec fn extension(path: Seq<char>) -> Option<Seq<char>> {
    let t = tidy_end(path);
    let name = match text::rfind(t, "/"@) {
        Some(i) => t.skip(i + 1),
        None => t,
    };
    if name == ".."@ {
        None
    } else {
        match text::rfind(name, "."@) {
            Some(i) => if i > 0 {
                Some(name.skip(i + 1))
            } else {
                None
            },
            None => None,
        }
    }
}

pub fn extension_of<'a>(path: &'a str) -> (out: Option<&'a str>)
    ensures
        match out {
            Some(e) => extension(path@) == Some(e@),
            None => extension(path@) is None,
        },
{
    proof {
        reveal_strlit("/");
        reveal_strlit(".");
    }
    let t = tidy(path);
    let n: usize = t.unicode_len();
    let name = match rfind_str(t, "/") {
        Some(i) => {
            let name = t.substring_char(i + 1, n);
            assert(name@ =~= t@.skip(i + 1));
            name
        },
        None => t,
    };
    if same(name, "..") {
        return None;
    }
    let m: usize = name.unicode_len();
    match rfind_str(name, ".") {
        Some(i) => if i > 0 {
            let e = name.substring_char(i + 1, m);
            assert(e@ =~= name@.skip(i + 1));
            Some(e)
        } else {
            None
        },
        None => None,
    }
}


/// The last component of a path without its extension; nothing where there is
/// no name.
pub open spec fn stem(path: Seq<char>) -> Seq<char> {
    let t = tidy_end(path);
    let name = match text::rfind(t, "/"@) {
        Some(i) => t.skip(i + 1),
        None => t,
    };
    if name == "."@ || name == ".."@ {
        Seq::empty()
    } else {
        match text::rfind(name, "."@) {
            Some(i) => if i > 0 {
                name.take(i)
            } else {
                name
            },
            None => name,
        }
    }
}

pub fn stem_of(path: &str) -> (out: String)
    ensures
        out@ == stem(path@),
{
    proof {
        reveal_strlit("/");
        reveal_strlit(".");
        reveal_strlit("");
    }
    let t = tidy(path);
    let n: usize = t.unicode_len();
    let name = match rfind_str(t, "/") {
        Some(i) => {
            let name = t.substring_char(i + 1, n);
            assert(name@ =~= t@.skip(i + 1));
            name
        },
        None => t,
    };
    if same(name, ".") || same(name, "..") {
        return String::new();
    }
    match rfind_str(name, ".") {
        Some(i) => if i > 0 {
            let stem = name.substring_char(0, i);
            assert(stem@ =~= name@.take(i as int));
            stem.to_string()
        } else {
            name.to_string()
        },
        None => name.to_string(),
    }
}

// ---------------------------------------------------------------------------
// Joining
// ---------------------------------------------------------------------------

/// A path with another appended: an absolute one replaces it, and a separator
/// stands between the two where the first does not end in one.
pub open spec fn pushed(base: Seq<char>, p: Seq<char>) -> Seq<char> {
    if absolute(p) {
        p
    } else if base.len() == 0 || base.last() == '/' {
        base + p
    } else {
        base + "/"@ + p
    }
}

/// Appends one path to another.
pub fn append_path(base: &str, p: &str) -> (out: String)
    ensures
        out@ == pushed(base@, p@),
{
    let n: usize = base.unicode_len();
    if is_absolute(p) {
        p.to_string()
    } else if n == 0 || base.get_char(n - 1) == '/' {
        concat2(base, p)
    } else {
        concat3(base, "/", p)
    }
}

// ---------------------------------------------------------------------------
// Stripping
// ---------------------------------------------------------------------------

/// A path whose first component is `.`.
pub open spec fn dotted(s: Seq<char>) -> bool {
    s == "."@ || text::starts_with(s, "./"@)
}

/// A path without the separators and `.` components at its beginning.
pub open spec fn tidy_start(s: Seq<char>) -> Seq<char>
    decreases s.len(),
{
    if s.len() > 0 && s[0] == '/' {
        tidy_start(s.skip(1))
    } else if s.len() > 0 && s[0] == '.' && (s.len() == 1 || s[1] == '/') {
        tidy_start(s.skip(1))
    } else {
        s
    }
}

/// What follows the first `n` components of a path.
pub open spec fn after_parts(s: Seq<char>, n: nat) -> Seq<char>
    decreases n,
{
    let t = tidy_start(s);
    if n == 0 {
        t
    } else {
        match text::find(t, "/"@) {
            Some(i) => after_parts(t.skip(i), (n - 1) as nat),
            None => Seq::empty(),
        }
    }
}

/// A path below a directory, written from there; `None` where its components
/// do not begin with those of the directory.
pub open spec fn stripped(s: Seq<char>, dir: Seq<char>) -> Option<Seq<char>> {
    if dir.len() == 0 {
        Some(tidy_end(s))
    } else if absolute(s) == absolute(dir) && dotted(s) == dotted(dir) && parts(dir).is_prefix_of(
        parts(s),
    ) {
        Some(tidy_end(after_parts(s, parts(dir).len())))
    } else {
        None
    }
}

fn drop_start<'a>(s: &'a str) -> (out: &'a str)
    ensures
        out@ == tidy_start(s@),
{
    let v = chars_of(s);
    let mut i: usize = 0;
    assert(s@.skip(0) =~= s@);
    while i < v.len() && (v[i] == '/' || (v[i] == '.' && (i == v.len() - 1 || v[i + 1] == '/')))
        invariant
            v@ == s@,
            i <= v.len(),
            tidy_start(s@) == tidy_start(s@.skip(i as int)),
        decreases v.len() - i,
    {
        assert(s@.skip(i as int).skip(1) =~= s@.skip(i + 1));
        i += 1;
    }
    let out = s.substring_char(i, v.len());
    assert(out@ =~= s@.skip(i as int));
    out
}

fn drop_parts<'a>(s: &'a str, n: usize) -> (out: &'a str)
    ensures
        out@ == after_parts(s@, n as nat),
    decreases n,
{
    let t = drop_start(s);
    if n == 0 {
        return t;
    }
    let len: usize = t.unicode_len();
    match find_str(t, "/") {
        Some(i) => {
            let rest = t.substring_char(i, len);
            assert(rest@ =~= t@.skip(i as int));
            drop_parts(rest, n - 1)
        },
        None => {
            let none = t.substring_char(0, 0);
            assert(none@ =~= Seq::<char>::empty());
            none
        },
    }
}

/// A path below a directory, written from there.
pub fn strip_root<'a>(s: &'a str, dir: &str) -> (out: Option<&'a str>)
    ensures
        match out {
            Some(rest) => stripped(s@, dir@) == Some(rest@),
            None => stripped(s@, dir@) is None,
        },
{
    if dir.unicode_len() == 0 {
        return Some(tidy(s));
    }
    let dots = same(s, ".") || begins(s, "./");
    let root_dots = same(dir, ".") || begins(dir, "./");
    let all = parts_of(s);
    let front = parts_of(dir);
    if is_absolute(s) == is_absolute(dir) && dots == root_dots && starts_with_parts(&all, &front) {
        assert(text::views(front@).len() == front@.len());
        Some(tidy(drop_parts(s, front.len())))
    } else {
        None
    }
}

/// The last component of a path, unless it is `..`.
pub open spec fn file_name(s: Seq<char>) -> Option<Seq<char>> {
    let all = parts(s);
    if all.len() == 0 || all.last() == ".."@ {
        None
    } else {
        Some(all.last())
    }
}

/// Whether the last component of a path is `name`.
pub fn is_named(s: &str, name: &str) -> (r: bool)
    ensures
        r == (file_name(s@) == Some(name@)),
{
    let all = parts_of(s);
    assert(text::views(all@).len() == all@.len());
    if all.len() == 0 {
        return false;
    }
    let last: usize = all.len() - 1;
    assert(text::views(all@).last() == all@[last as int]@);
    !same(all[last].as_str(), "..") && same(all[last].as_str(), name)
}

} // verus!
