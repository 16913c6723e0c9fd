//! Which file an import, include or `use` directive names.
use vstd::prelude::*;
use vstd::string::*;
use crate::order::among;
use crate::text;
use crate::text::{
    begins, concat2, concat3, finishes, has, join, rsplit_once, same, split, strip_prefix,
    substitute,
};

verus! {

// ---------------------------------------------------------------------------
// Joining paths
// ---------------------------------------------------------------------------

/// Walks `segs` from position `i`: an empty segment or `.` stays, `..` goes up
/// one directory, and any other segment goes down into it. `None` where the
/// walk goes above the start of `stack`.
pub open spec fn walked(stack: Seq<Seq<char>>, segs: Seq<Seq<char>>, i: int) -> Option<Seq<Seq<char>>>
    decreases segs.len() - i,
{
    if i >= segs.len() {
        Some(stack)
    } else if segs[i] == ""@ || segs[i] == "."@ {
        walked(stack, segs, i + 1)
    } else if segs[i] == ".."@ {
        if stack.len() == 0 {
            None
        } else {
            walked(stack.drop_last(), segs, i + 1)
        }
    } else {
        walked(stack.push(segs[i]), segs, i + 1)
    }
}

/// The directories that a base path names.
pub open spec fn base_segments(base: Seq<char>) -> Seq<Seq<char>> {
    if base.len() == 0 {
        Seq::empty()
    } else {
        text::pieces(base, '/')
    }
}

/// `spec` resolved against `base`, both relative to the project root.
pub open spec fn joined_path(base: Seq<char>, spec: Seq<char>) -> Option<Seq<char>> {
    match walked(base_segments(base), text::pieces(spec, '/'), 0) {
        Some(stack) => Some(text::joined(stack, "/"@)),
        None => None,
    }
}

/// Joins `spec` onto `base`, resolving `.` and `..` textually. `None` when the
/// specifier escapes above the project root, which cannot name an indexed
/// file.
pub fn lexical_join(base: &str, spec: &str) -> (out: Option<String>)
    ensures
        text::view_opt(out) == joined_path(base@, spec@),
{
    broadcast use text::group_views;
    let mut parts: Vec<String> = if base.is_empty() {
        Vec::new()
    } else {
        split(base, '/')
    };
    assert(text::views(parts@) =~= base_segments(base@));
    let segs = split(spec, '/');
    let mut i: usize = 0;
    while i < segs.len()
        invariant
            i <= segs.len(),
            text::views(segs@) == text::pieces(spec@, '/'),
            walked(base_segments(base@), text::pieces(spec@, '/'), 0) == walked(
                text::views(parts@),
                text::pieces(spec@, '/'),
                i as int,
            ),
        decreases segs.len() - i,
    {
        broadcast use text::group_views;
        let seg = segs[i].as_str();
        if same(seg, "") || same(seg, ".") {
        } else if same(seg, "..") {
            let ghost stack = text::views(parts@);
            if parts.pop().is_none() {
                return None;
            }
            assert(text::views(parts@) =~= stack.drop_last());
        } else {
            parts.push(seg.to_owned());
        }
        i += 1;
    }
    Some(join(&parts, "/"))
}

/// How far below the root a walk stands after `i` segments, when it starts
/// `depth` directories below it.
pub open spec fn height(depth: int, segs: Seq<Seq<char>>, i: int) -> int
    decreases i,
{
    if i <= 0 {
        depth
    } else {
        let before = height(depth, segs, i - 1);
        if segs[i - 1] == ""@ || segs[i - 1] == "."@ {
            before
        } else if segs[i - 1] == ".."@ {
            before - 1
        } else {
            before + 1
        }
    }
}

proof fn lemma_walk_heights(stack: Seq<Seq<char>>, depth: int, segs: Seq<Seq<char>>, i: int)
    requires
        0 <= i <= segs.len(),
        stack.len() == height(depth, segs, i),
    ensures
        (walked(stack, segs, i) is None) == (exists|j: int|
            i <= j <= segs.len() && #[trigger] height(depth, segs, j) < 0),
    decreases segs.len() - i,
{
    if i < segs.len() {
        let seg = segs[i];
        if seg == ""@ || seg == "."@ {
            lemma_walk_heights(stack, depth, segs, i + 1);
        } else if seg == ".."@ {
            if stack.len() == 0 {
                assert(height(depth, segs, i + 1) < 0);
            } else {
                lemma_walk_heights(stack.drop_last(), depth, segs, i + 1);
            }
        } else {
            lemma_walk_heights(stack.push(seg), depth, segs, i + 1);
        }
        assert(height(depth, segs, i) >= 0);
    }
}

/// A specifier resolves to nothing exactly when, read from the left, it
/// climbs above the project root at some point.
pub proof fn law_join_fails_iff_it_climbs_above_the_root(base: Seq<char>, spec: Seq<char>)
    ensures
        (joined_path(base, spec) is None) == (exists|j: int|
            0 <= j <= text::pieces(spec, '/').len() && #[trigger] height(
                base_segments(base).len() as int,
                text::pieces(spec, '/'),
                j,
            ) < 0),
{
    lemma_walk_heights(
        base_segments(base),
        base_segments(base).len() as int,
        text::pieces(spec, '/'),
        0,
    );
}

/// A segment that names something below where it stands.
pub open spec fn names_below(seg: Seq<char>) -> bool {
    seg != ""@ && seg != "."@ && seg != ".."@
}

/// Every segment names something below where it stands.
pub open spec fn all_name_below(segs: Seq<Seq<char>>) -> bool {
    forall|k: int| 0 <= k < segs.len() ==> names_below(#[trigger] segs[k])
}

/// A path without empty, `.` and `..` segments.
pub open spec fn in_normal_form(path: Seq<char>) -> bool {
    all_name_below(base_segments(path))
}

spec fn slash_free(segs: Seq<Seq<char>>) -> bool {
    forall|k: int| 0 <= k < segs.len() ==> !(#[trigger] segs[k]).contains('/')
}

proof fn lemma_walk_stays_normal(stack: Seq<Seq<char>>, segs: Seq<Seq<char>>, i: int)
    requires
        0 <= i,
        all_name_below(stack),
        slash_free(stack),
        slash_free(segs),
    ensures
        walked(stack, segs, i) matches Some(t) ==> all_name_below(t) && slash_free(t),
    decreases segs.len() - i,
{
    if i < segs.len() {
        let seg = segs[i];
        if seg == ""@ || seg == "."@ {
            lemma_walk_stays_normal(stack, segs, i + 1);
        } else if seg == ".."@ {
            if stack.len() > 0 {
                lemma_walk_stays_normal(stack.drop_last(), segs, i + 1);
            }
        } else {
            lemma_walk_stays_normal(stack.push(seg), segs, i + 1);
        }
    }
}

proof fn lemma_normal_segments_are_walked(stack: Seq<Seq<char>>, segs: Seq<Seq<char>>, i: int)
    requires
        0 <= i <= segs.len(),
        all_name_below(segs),
    ensures
        walked(stack, segs, i) == Some(stack + segs.skip(i)),
    decreases segs.len() - i,
{
    if i < segs.len() {
        assert(names_below(segs[i]));
        lemma_normal_segments_are_walked(stack.push(segs[i]), segs, i + 1);
        assert(stack.push(segs[i]) + segs.skip(i + 1) =~= stack + segs.skip(i));
    } else {
        assert(stack + segs.skip(i) =~= stack);
    }
}

/// A path that is joined onto a base in normal form is itself in normal form,
/// and joined onto the project root it stays what it is.
pub proof fn law_a_joined_path_is_in_normal_form(base: Seq<char>, spec: Seq<char>)
    requires
        in_normal_form(base),
    ensures
        joined_path(base, spec) matches Some(s) ==> in_normal_form(s) && joined_path(Seq::empty(), s) == Some(s),
{
    reveal_strlit("/");
    reveal_strlit("");
    let segs = text::pieces(spec, '/');
    text::lemma_pieces_hold_no_separator(spec, '/', 0, 0);
    text::lemma_pieces_hold_no_separator(base, '/', 0, 0);
    lemma_walk_stays_normal(base_segments(base), segs, 0);
    if joined_path(base, spec) is Some {
        let stack = walked(base_segments(base), segs, 0)->0;
        let s = text::joined(stack, "/"@);
        assert("/"@ =~= seq!['/']);
        let none = Seq::<Seq<char>>::empty();
        if stack.len() == 0 {
            assert(s =~= Seq::empty());
            let there = text::pieces(s, '/');
            assert(there.len() == 1 && there[0] =~= ""@);
            assert(walked(none, there, 0) == walked(none, there, 1));
            assert(text::joined(none, "/"@) =~= s);
        } else {
            text::lemma_joined_parts_are_the_pieces(stack, '/');
            lemma_normal_segments_are_walked(none, stack, 0);
            assert(none + stack.skip(0) =~= stack);
        }
    }
}

/// The directory part of a path: what stands before its last slash.
pub open spec fn directory(path: Seq<char>) -> Seq<char> {
    match text::split_last(path, "/"@) {
        Some((dir, _)) => dir,
        None => Seq::empty(),
    }
}

/// The directory part of a path; empty at the project root.
pub fn directory_of<'a>(path: &'a str) -> (out: &'a str)
    ensures
        out@ == directory(path@),
{
    match rsplit_once(path, "/") {
        Some((dir, _)) => dir,
        None => {
            let out = path.substring_char(0, 0);
            assert(out@ =~= Seq::<char>::empty());
            out
        },
    }
}

// ---------------------------------------------------------------------------
// Path specifiers
// ---------------------------------------------------------------------------

/// A specifier that begins at the importer's own directory or above it.
pub open spec fn relative(spec: Seq<char>) -> bool {
    text::starts_with(spec, "./"@) || text::starts_with(spec, "../"@)
}

fn is_relative(spec: &str) -> (r: bool)
    ensures
        r == relative(spec@),
{
    begins(spec, "./") || begins(spec, "../")
}

pub fn is_path_specifier(s: &str) -> (r: bool)
    ensures
        r == (relative(s@) || text::contains(s@, "/"@)),
{
    is_relative(s) || has(s, "/")
}

/// An extension that a path specifier may omit or misname. A specifier names
/// the emitted extension, so `./foo.js` may mean `foo.ts` on disk, `./foo.mjs`
/// `foo.mts`, and `./foo.cjs` `foo.cts`.
pub open spec fn import_extension(e: Seq<char>) -> bool {
    e == "js"@ || e == "mjs"@ || e == "cjs"@ || e == "jsx"@ || e == "ts"@ || e == "tsx"@ || e
        == "mts"@ || e == "cts"@ || e == "d.ts"@ || e == "h"@ || e == "hpp"@ || e == "py"@
}

fn is_import_extension(e: &str) -> (r: bool)
    ensures
        r == import_extension(e@),
{
    same(e, "js") || same(e, "mjs") || same(e, "cjs") || same(e, "jsx") || same(e, "ts") || same(
        e,
        "tsx",
    ) || same(e, "mts") || same(e, "cts") || same(e, "d.ts") || same(e, "h") || same(e, "hpp")
        || same(e, "py")
}

/// `file` is `stem`, a dot and an import extension.
pub open spec fn extends(file: Seq<char>, stem: Seq<char>) -> bool {
    exists|e: Seq<char>| #[trigger] import_extension(e) && file == stem + "."@ + e
}

fn extends_stem(file: &str, stem: &str) -> (r: bool)
    ensures
        r == extends(file@, stem@),
{
    let dotted = concat2(stem, ".");
    match strip_prefix(file, dotted.as_str()) {
        Some(rest) => {
            let r = is_import_extension(rest);
            proof {
                assert(file@ =~= dotted@ + rest@);
                if extends(file@, stem@) {
                    let e = choose|e: Seq<char>| #[trigger]
                        import_extension(e) && file@ == stem@ + "."@ + e;
                    assert(file@.skip(dotted@.len() as int) =~= e);
                }
            }
            r
        },
        None => {
            proof {
                if extends(file@, stem@) {
                    let e = choose|e: Seq<char>| #[trigger]
                        import_extension(e) && file@ == stem@ + "."@ + e;
                    assert(file@.subrange(0, dotted@.len() as int) =~= dotted@);
                }
            }
            false
        },
    }
}

/// The position in `path` where its last segment begins.
pub open spec fn segment_start(path: Seq<char>) -> int {
    match text::rfind(path, "/"@) {
        Some(i) => i + 1,
        None => 0,
    }
}

/// A resolved specifier names `file`: as it stands; with its own extension
/// replaced by an import extension; or, where its last segment carries no
/// extension, with one appended, or as a directory that holds an `index`.
pub open spec fn names_file(resolved: Seq<char>, file: Seq<char>) -> bool {
    let start = segment_start(resolved);
    resolved == file || match text::rfind(resolved.skip(start), "."@) {
        Some(dot) => extends(file, resolved.take(start + dot)),
        None => extends(file, resolved) || extends(file, resolved + "/index"@),
    }
}

pub fn relative_file_matches(resolved: &str, sym_file: &str) -> (r: bool)
    ensures
        r == names_file(resolved@, sym_file@),
{
    if same(resolved, sym_file) {
        return true;
    }
    let n: usize = resolved.unicode_len();
    let start: usize = match text::rfind_str(resolved, "/") {
        Some(i) => {
            proof {
                reveal_strlit("/");
            }
            i + 1
        },
        None => 0,
    };
    let segment = resolved.substring_char(start, n);
    assert(segment@ =~= resolved@.skip(start as int));
    match text::rfind_str(segment, ".") {
        Some(dot) => {
            let stem = resolved.substring_char(0, start + dot);
            assert(stem@ =~= resolved@.take(start + dot));
            extends_stem(sym_file, stem)
        },
        None => {
            let index = concat2(resolved, "/index");
            extends_stem(sym_file, resolved) || extends_stem(sym_file, index.as_str())
        },
    }
}

/// A path specifier written in `caller` names `file`. A relative one resolves
/// against the caller's directory. Any other names the file exactly, or by a
/// suffix that begins at a separator, and never by a guessed extension.
pub open spec fn path_targets(spec: Seq<char>, caller: Seq<char>, file: Seq<char>) -> bool {
    if relative(spec) {
        match joined_path(directory(caller), spec) {
            Some(resolved) => names_file(resolved, file),
            None => false,
        }
    } else {
        spec == file || text::ends_with(file, "/"@ + spec)
    }
}

pub fn import_path_targets_file(spec: &str, caller_file: &str, sym_file: &str) -> (r: bool)
    ensures
        r == path_targets(spec@, caller_file@, sym_file@),
{
    if is_relative(spec) {
        let base = directory_of(caller_file);
        return match lexical_join(base, spec) {
            Some(resolved) => relative_file_matches(resolved.as_str(), sym_file),
            None => false,
        };
    }
    let anchored = concat2("/", spec);
    same(spec, sym_file) || finishes(sym_file, anchored.as_str())
}

// ---------------------------------------------------------------------------
// Rust module paths
// ---------------------------------------------------------------------------

/// The `src/` root that the importer lives under, trailing slash and all.
pub open spec fn src_root(importer: Seq<char>) -> Option<Seq<char>> {
    match text::rfind(importer, "/src/"@) {
        Some(i) => Some(importer.take(i + "/src/"@.len())),
        None => if text::starts_with(importer, "src/"@) {
            Some("src/"@)
        } else {
            None
        },
    }
}

pub fn importer_src_root<'a>(importer_file: &'a str) -> (out: Option<&'a str>)
    ensures
        match out {
            Some(root) => src_root(importer_file@) == Some(root@),
            None => src_root(importer_file@) is None,
        },
{
    match text::rfind_str(importer_file, "/src/") {
        Some(i) => {
            let n: usize = importer_file.unicode_len();
            let len: usize = "/src/".unicode_len();
            let root = importer_file.substring_char(0, i + len);
            assert(root@ =~= importer_file@.take(i + len));
            Some(root)
        },
        None => if begins(importer_file, "src/") {
            let n: usize = importer_file.unicode_len();
            let root = importer_file.substring_char(0, "src/".unicode_len());
            Some(root)
        } else {
            None
        },
    }
}

/// The module path without a leading `crate::`.
pub open spec fn crate_relative(module: Seq<char>) -> Seq<char> {
    match text::after_prefix(module, "crate::"@) {
        Some(rest) => rest,
        None => module,
    }
}

/// The files that a Rust module path may resolve to. With a `src/` root in the
/// importer's path, only files under that root; else the usual layouts.
pub open spec fn module_files(module: Seq<char>, importer: Seq<char>) -> Seq<Seq<char>> {
    let m = crate_relative(module);
    let path = text::substituted(m, "::"@, "/"@);
    if m.len() == 0 || m == "crate"@ {
        Seq::empty()
    } else {
        match src_root(importer) {
            Some(root) => seq![root + path + ".rs"@, root + path + "/mod.rs"@],
            None => seq![
                path + ".rs"@,
                path + "/mod.rs"@,
                "src/"@ + path + ".rs"@,
                "src/"@ + path + "/mod.rs"@,
            ],
        }
    }
}

pub fn rust_module_candidates(module: &str, importer_file: &str) -> (out: Vec<String>)
    ensures
        text::views(out@) == module_files(module@, importer_file@),
{
    broadcast use text::group_views;
    let m = match strip_prefix(module, "crate::") {
        Some(rest) => rest,
        None => module,
    };
    let mut out: Vec<String> = Vec::new();
    if m.is_empty() || same(m, "crate") {
        return out;
    }
    proof {
        reveal_strlit("::");
    }
    let path = substitute(m, "::", "/");
    match importer_src_root(importer_file) {
        Some(root) => {
            out.push(concat3(root, path.as_str(), ".rs"));
            out.push(concat3(root, path.as_str(), "/mod.rs"));
        },
        None => {
            out.push(concat2(path.as_str(), ".rs"));
            out.push(concat2(path.as_str(), "/mod.rs"));
            out.push(concat3("src/", path.as_str(), ".rs"));
            out.push(concat3("src/", path.as_str(), "/mod.rs"));
        },
    }
    assert(text::views(out@) =~= module_files(module@, importer_file@));
    out
}

/// An import, include or `use` recorded in `importer` resolves to `file`.
pub open spec fn ref_targets(import_ref: Seq<char>, importer: Seq<char>, file: Seq<char>) -> bool {
    if relative(import_ref) {
        path_targets(import_ref, importer, file)
    } else if text::contains(import_ref, "::"@) {
        ||| module_files(import_ref, importer).contains(file)
        ||| match text::split_last(import_ref, "::"@) {
            Some((module, _)) => module_files(module, importer).contains(file),
            None => false,
        }
    } else if text::contains(import_ref, "/"@) || text::contains(import_ref, "."@) {
        joined_path(directory(importer), import_ref) == Some(file) || import_ref == file
    } else {
        false
    }
}

/// Whether the directive `import_ref` in `importer_file` resolves to
/// `target_file`. A relative specifier resolves against the importer's
/// directory. A `use` path names a module file directly or through the parent
/// of the imported item. A quoted path resolves against the importer's
/// directory and then the project root, exactly in both.
pub fn import_ref_targets_file(import_ref: &str, importer_file: &str, target_file: &str) -> (r: bool)
    ensures
        r == ref_targets(import_ref@, importer_file@, target_file@),
{
    if is_relative(import_ref) {
        return import_path_targets_file(import_ref, importer_file, target_file);
    }
    if has(import_ref, "::") {
        let direct = rust_module_candidates(import_ref, importer_file);
        if among(&direct, target_file) {
            return true;
        }
        return match rsplit_once(import_ref, "::") {
            Some((module, _)) => {
                let parent = rust_module_candidates(module, importer_file);
                among(&parent, target_file)
            },
            None => false,
        };
    }
    if has(import_ref, "/") || has(import_ref, ".") {
        let base = directory_of(importer_file);
        let resolves = match lexical_join(base, import_ref) {
            Some(resolved) => same(resolved.as_str(), target_file),
            None => false,
        };
        return resolves || same(import_ref, target_file);
    }
    false
}

} // verus!
