//! Cargo packages, their test targets and their module paths, as far as paths
//! and manifests show them.
use vstd::prelude::*;
use vstd::string::*;
use crate::history::shell;
use crate::history::shell::shell_quote;
use crate::imports;
use crate::imports::directory_of;
use crate::paths;
use crate::paths::is_absolute;
use crate::text;
use crate::text::{
    begins, concat2, concat4, drop_leading, drop_trailing, has, join, lines_of, same, split,
    split_once, strip_prefix, strip_suffix, substitute, trim,
};

verus! {

// ---------------------------------------------------------------------------
// Manifests
// ---------------------------------------------------------------------------

/// A text without a character at both of its ends.
pub open spec fn stripped(s: Seq<char>, c: char) -> Seq<char> {
    text::without_trailing(text::without_leading(s, c), c)
}

fn strip<'a>(s: &'a str, c: char) -> (out: &'a str)
    ensures
        out@ == stripped(s@, c),
{
    drop_trailing(drop_leading(s, c), c)
}

/// The value of a line `key = value`, without a comment and its quotes.
pub open spec fn name_value(line: Seq<char>) -> Option<Seq<char>> {
    match text::split_first(line, "="@) {
        None => None,
        Some((key, value)) => {
            let v = stripped(stripped(text::trimmed(text::pieces(value, '#')[0]), '"'), '\'');
            if text::trimmed(key) == "name"@ && v.len() > 0 {
                Some(v)
            } else {
                None
            }
        },
    }
}

/// The name of the package, from line `i` on; `within` says whether that line
/// is in the package section.
pub open spec fn name_from(lines: Seq<Seq<char>>, i: int, within: bool) -> Option<Seq<char>>
    decreases lines.len() - i,
{
    if i < 0 || i >= lines.len() {
        None
    } else {
        let line = text::trimmed(lines[i]);
        if text::starts_with(line, "["@) {
            name_from(lines, i + 1, line == "[package]"@)
        } else if !within || name_value(line) is None {
            name_from(lines, i + 1, within)
        } else {
            name_value(line)
        }
    }
}

fn name_value_of(line: &str) -> (out: Option<String>)
    ensures
        text::view_opt(out) == name_value(line@),
{
    broadcast use text::group_views;
    match split_once(line, "=") {
        None => None,
        Some((key, value)) => {
            let parts = split(value, '#');
            proof {
                text::lemma_pieces_nonempty(value@, '#', 0, 0);
                assert(text::views(parts@)[0] == parts@[0]@);
            }
            let v = strip(strip(trim(parts[0].as_str()), '"'), '\'');
            if same(trim(key), "name") && v.unicode_len() > 0 {
                Some(v.to_string())
            } else {
                None
            }
        },
    }
}

/// Reads the name of the package out of a manifest.
pub fn cargo_package_name(manifest: &str) -> (out: Option<String>)
    ensures
        text::view_opt(out) == name_from(text::lines(manifest@), 0, false),
{
    broadcast use text::group_views;
    let lines = lines_of(manifest);
    let ghost ls = text::views(lines@);
    let mut within = false;
    let mut i: usize = 0;
    while i < lines.len()
        invariant
            i <= lines@.len(),
            ls == text::views(lines@),
            ls == text::lines(manifest@),
            name_from(ls, 0, false) == name_from(ls, i as int, within),
        decreases lines@.len() - i,
    {
        broadcast use text::group_views;
        assert(ls[i as int] == lines@[i as int]@);
        let line = trim(lines[i].as_str());
        if begins(line, "[") {
            within = same(line, "[package]");
        } else if within {
            if let Some(v) = name_value_of(line) {
                return Some(v);
            }
        }
        i += 1;
    }
    None
}

/// A directory below the root: not absolute, and never climbing.
pub open spec fn stays_below(dir: Seq<char>) -> bool {
    !paths::absolute(dir) && !text::pieces(dir, '/').contains(".."@)
}

/// Whether a directory may be looked into.
pub fn safe_relative_dir(dir: &str) -> (r: bool)
    ensures
        r == stays_below(dir@),
{
    !is_absolute(dir) && !crate::order::among(&split(dir, '/'), "..")
}

/// The package that a directory's manifest names, if it names one.
#[derive(Debug)]
pub struct DirPackage {
    pub dir: String,
    pub name: Option<String>,
}

pub struct DirPackageView {
    pub dir: Seq<char>,
    pub name: Option<Seq<char>>,
}

impl View for DirPackage {
    type V = DirPackageView;

    open spec fn view(&self) -> DirPackageView {
        DirPackageView { dir: self.dir@, name: text::view_opt(self.name) }
    }
}

/// What is known of a directory: nothing yet, or the name its manifest gives.
pub open spec fn known(packages: Seq<DirPackageView>, dir: Seq<char>) -> Option<Option<Seq<char>>>
    decreases packages.len(),
{
    if packages.len() == 0 {
        None
    } else if packages[0].dir == dir {
        Some(packages[0].name)
    } else {
        known(packages.skip(1), dir)
    }
}

/// The name that the manifest of a directory gives, as far as it is known.
pub open spec fn package_at(packages: Seq<DirPackageView>, dir: Seq<char>) -> Option<Seq<char>> {
    if !stays_below(dir) {
        None
    } else {
        match known(packages, dir) {
            Some(name) => name,
            None => None,
        }
    }
}

/// What is known of the manifests of a project.
#[derive(Debug)]
pub struct ManifestMemo {
    pub packages: Vec<DirPackage>,
}

impl ManifestMemo {
    pub fn empty() -> (out: ManifestMemo)
        ensures
            out.packages@.len() == 0,
    {
        ManifestMemo { packages: Vec::new() }
    }

    fn find(&self, dir: &str) -> (out: Option<usize>)
        ensures
            match out {
                Some(i) => i < self.packages@.len() && known(text::views(self.packages@), dir@) == Some(
                    text::view_opt(self.packages@[i as int].name),
                ),
                None => known(text::views(self.packages@), dir@) is None,
            },
    {
        broadcast use text::group_views;
        let ghost all = text::views(self.packages@);
        let mut i: usize = 0;
        assert(all.skip(0) =~= all);
        while i < self.packages.len()
            invariant
                i <= self.packages@.len(),
                all == text::views(self.packages@),
                known(all, dir@) == known(all.skip(i as int), dir@),
            decreases self.packages@.len() - i,
        {
            broadcast use text::group_views;
            assert(all.skip(i as int)[0] == self.packages@[i as int]@);
            assert(all.skip(i as int).skip(1) =~= all.skip(i + 1));
            if same(self.packages[i].dir.as_str(), dir) {
                return Some(i);
            }
            i += 1;
        }
        assert(all.skip(i as int).len() == 0);
        None
    }

    /// Whether the manifest of a directory has to be read: it may be, and it
    /// was not yet.
    pub fn wants(&self, dir: &str) -> (r: bool)
        ensures
            r == (stays_below(dir@) && known(text::views(self.packages@), dir@) is None),
    {
        safe_relative_dir(dir) && self.find(dir).is_none()
    }

    /// Remembers what the manifest of a directory names.
    pub fn remember(&mut self, dir: &str, name: Option<String>)
        ensures
            text::views(final(self).packages@) == text::views(old(self).packages@).push(
                DirPackageView { dir: dir@, name: text::view_opt(name) },
            ),
    {
        broadcast use text::group_views;
        self.packages.push(DirPackage { dir: dir.to_string(), name });
    }

    /// The name that the manifest of a directory gives. A directory outside the
    /// project has none.
    pub fn package_name(&self, dir: &str) -> (out: Option<String>)
        ensures
            text::view_opt(out) == package_at(text::views(self.packages@), dir@),
    {
        if !safe_relative_dir(dir) {
            return None;
        }
        match self.find(dir) {
            Some(i) => crate::model::clone_opt(&self.packages[i].name),
            None => None,
        }
    }
}

/// What was remembered first of a directory stays: later readings do not
/// replace it, so one request sees one answer.
pub proof fn law_the_first_reading_stays(packages: Seq<DirPackageView>, p: DirPackageView, dir: Seq<char>)
    requires
        known(packages, dir) is Some,
    ensures
        known(packages.push(p), dir) == known(packages, dir),
    decreases packages.len(),
{
    if packages.len() > 0 && packages[0].dir != dir {
        assert(packages.push(p).skip(1) =~= packages.skip(1).push(p));
        law_the_first_reading_stays(packages.skip(1), p, dir);
    }
}

// ---------------------------------------------------------------------------
// Packages
// ---------------------------------------------------------------------------

/// The package that a path belongs to: its directory, and its name where a
/// manifest gives it.
#[derive(Debug)]
pub struct RustCrate {
    pub dir: String,
    pub name: Option<String>,
}

pub struct CrateView {
    pub dir: Seq<char>,
    pub name: Option<Seq<char>>,
}

impl View for RustCrate {
    type V = CrateView;

    open spec fn view(&self) -> CrateView {
        CrateView { dir: self.dir@, name: text::view_opt(self.name) }
    }
}

/// The nearest directory from `dir` upwards whose manifest names a package.
pub open spec fn nearest(packages: Seq<DirPackageView>, dir: Seq<char>) -> Option<CrateView>
    decreases dir.len(),
{
    if package_at(packages, dir) is Some {
        Some(CrateView { dir, name: package_at(packages, dir) })
    } else if dir.len() == 0 {
        None
    } else if imports::directory(dir).len() < dir.len() {
        nearest(packages, imports::directory(dir))
    } else {
        None
    }
}

/// The first segment from `i` on that is `src` or `tests`.
pub open spec fn boundary_from(parts: Seq<Seq<char>>, i: int) -> Option<int>
    decreases parts.len() - i,
{
    if i < 0 || i >= parts.len() {
        None
    } else if parts[i] == "src"@ || parts[i] == "tests"@ {
        Some(i)
    } else {
        boundary_from(parts, i + 1)
    }
}

/// The directory of a package as a path alone suggests it.
pub open spec fn guessed_dir(path: Seq<char>) -> Seq<char> {
    let parts = text::pieces(path, '/');
    let b = match boundary_from(parts, 0) {
        Some(b) => b,
        None => parts.len() - 1,
    };
    text::joined(parts.take(b), "/"@)
}

/// The package of a path: the nearest one that a manifest names, else the
/// directory that the path suggests, without a name. A guessed name would make
/// Cargo fail.
pub open spec fn crate_of(packages: Option<Seq<DirPackageView>>, path: Seq<char>) -> CrateView {
    let guess = CrateView { dir: guessed_dir(path), name: None };
    match packages {
        None => guess,
        Some(ps) => match nearest(ps, imports::directory(path)) {
            Some(found) => found,
            None => guess,
        },
    }
}

pub open spec fn package_flag_text(k: CrateView) -> Seq<char> {
    match k.name {
        Some(name) => " -p "@ + shell::quoted(name),
        None => ""@,
    }
}

/// The path below a directory of a package.
pub open spec fn rest_below(k: CrateView, path: Seq<char>, segment: Seq<char>) -> Option<Seq<char>> {
    text::after_prefix(
        path,
        if k.dir.len() == 0 {
            segment + "/"@
        } else {
            k.dir + "/"@ + segment + "/"@
        },
    )
}

/// A directory and those above it, the nearest first, up to the root.
pub open spec fn lineage(dir: Seq<char>) -> Seq<Seq<char>>
    decreases dir.len(),
{
    if dir.len() > 0 && imports::directory(dir).len() < dir.len() {
        seq![dir] + lineage(imports::directory(dir))
    } else {
        seq![dir]
    }
}

/// The first of some directories whose manifest names a package.
pub open spec fn nearest_among(packages: Seq<DirPackageView>, dirs: Seq<Seq<char>>) -> Option<CrateView>
    decreases dirs.len(),
{
    if dirs.len() == 0 {
        None
    } else if package_at(packages, dirs[0]) is Some {
        Some(CrateView { dir: dirs[0], name: package_at(packages, dirs[0]) })
    } else {
        nearest_among(packages, dirs.skip(1))
    }
}

proof fn lemma_nearest_in_lineage(packages: Seq<DirPackageView>, dir: Seq<char>)
    ensures
        nearest(packages, dir) == nearest_among(packages, lineage(dir)),
    decreases dir.len(),
{
    let all = lineage(dir);
    assert(all[0] == dir);
    if dir.len() > 0 && imports::directory(dir).len() < dir.len() {
        lemma_nearest_in_lineage(packages, imports::directory(dir));
        assert(all.skip(1) =~= lineage(imports::directory(dir)));
    } else {
        assert(all.skip(1) =~= Seq::<Seq<char>>::empty());
        assert(nearest_among(packages, all.skip(1)) is None);
    }
}

proof fn lemma_directory_is_shorter(dir: Seq<char>)
    requires
        dir.len() > 0,
    ensures
        imports::directory(dir).len() < dir.len(),
{
    reveal_strlit("/");
    reveal_strlit("");
    text::lemma_last_at(dir, "/"@, dir.len() as int);
}

/// The directories above a path end at the root, and none of the others is the
/// root.
pub proof fn law_ancestors_end_at_the_root(dir: Seq<char>)
    ensures
        lineage(dir).len() > 0,
        forall|i: int|
            0 <= i < lineage(dir).len() ==> ((#[trigger] lineage(dir)[i]).len() == 0 <==> i
                == lineage(dir).len() - 1),
    decreases dir.len(),
{
    if dir.len() > 0 {
        lemma_directory_is_shorter(dir);
        let rest = lineage(imports::directory(dir));
        law_ancestors_end_at_the_root(imports::directory(dir));
        assert forall|i: int| 0 <= i < lineage(dir).len() implies ((#[trigger] lineage(dir)[i]).len() == 0
            <==> i == lineage(dir).len() - 1) by {
            if i > 0 {
                assert(lineage(dir)[i] == rest[i - 1]);
            }
        }
    }
}

/// The directories above a path, the nearest first, up to the root. Their
/// manifests decide its package.
pub fn ancestors(path: &str) -> (out: Vec<String>)
    ensures
        text::views(out@) == lineage(imports::directory(path@)),
{
    broadcast use text::group_views;
    let dir = directory_of(path);
    let mut out: Vec<String> = Vec::new();
    let mut at = dir;
    assert(text::views(out@) + lineage(at@) =~= lineage(dir@));
    loop
        invariant_except_break
            text::views(out@) + lineage(at@) == lineage(dir@),
        ensures
            text::views(out@) == lineage(dir@),
        decreases at@.len(),
    {
        broadcast use text::group_views;
        let ghost before = text::views(out@);
        out.push(at.to_string());
        if at.unicode_len() == 0 {
            assert(before + lineage(at@) =~= text::views(out@));
            break;
        }
        proof {
            lemma_directory_is_shorter(at@);
            assert(before + lineage(at@) =~= text::views(out@) + lineage(imports::directory(at@)));
        }
        at = directory_of(at);
    }
    out
}

impl RustCrate {
    /// Finds the package of a path. Without a project root nothing is known of
    /// manifests.
    pub fn for_path(memo: Option<&ManifestMemo>, path: &str) -> (out: RustCrate)
        ensures
            out@ == crate_of(
                match memo {
                    Some(m) => Some(text::views(m.packages@)),
                    None => None,
                },
                path@,
            ),
    {
        broadcast use text::group_views;
        if let Some(m) = memo {
            let dirs = ancestors(path);
            let ghost ps = text::views(m.packages@);
            let ghost ds = text::views(dirs@);
            let mut i: usize = 0;
            assert(ds.skip(0) =~= ds);
            proof {
                lemma_nearest_in_lineage(ps, imports::directory(path@));
            }
            while i < dirs.len()
                invariant
                    i <= dirs@.len(),
                    ds == text::views(dirs@),
                    ps == text::views(m.packages@),
                    memo == Some(m),
                    nearest(ps, imports::directory(path@)) == nearest_among(ps, ds),
                    nearest_among(ps, ds) == nearest_among(ps, ds.skip(i as int)),
                decreases dirs@.len() - i,
            {
                broadcast use text::group_views;
                assert(ds.skip(i as int)[0] == dirs@[i as int]@);
                assert(ds.skip(i as int).skip(1) =~= ds.skip(i + 1));
                if let Some(name) = m.package_name(dirs[i].as_str()) {
                    return RustCrate { dir: dirs[i].clone(), name: Some(name) };
                }
                i += 1;
            }
            assert(ds.skip(i as int).len() == 0);
        }
        RustCrate { dir: guess_dir(path), name: None }
    }

    /// The flag that selects the package, where its name is known.
    pub fn package_flag(&self) -> (out: String)
        ensures
            out@ == package_flag_text(self@),
    {
        match &self.name {
            Some(name) => concat2(" -p ", shell_quote(name.as_str()).as_str()),
            None => "".to_string(),
        }
    }

    fn rest_under<'p>(&self, path: &'p str, segment: &str) -> (out: Option<&'p str>)
        ensures
            match out {
                Some(rest) => rest_below(self@, path@, segment@) == Some(rest@),
                None => rest_below(self@, path@, segment@) is None,
            },
    {
        let prefix = if self.dir.as_str().unicode_len() == 0 {
            concat2(segment, "/")
        } else {
            concat4(self.dir.as_str(), "/", segment, "/")
        };
        strip_prefix(path, prefix.as_str())
    }
}

fn guess_dir(path: &str) -> (out: String)
    ensures
        out@ == guessed_dir(path@),
{
    broadcast use text::group_views;
    let parts = split(path, '/');
    let ghost ps = text::views(parts@);
    proof {
        text::lemma_pieces_nonempty(path@, '/', 0, 0);
    }
    let last: usize = parts.len() - 1;
    let mut b: usize = 0;
    let mut found = false;
    while b < parts.len() && !found
        invariant
            b <= parts@.len(),
            ps == text::views(parts@),
            boundary_from(ps, 0) == boundary_from(ps, b as int),
            found ==> b < parts@.len() && boundary_from(ps, 0) == Some(b as int),
        decreases parts@.len() - b, (if found { 0int } else { 1 }),
    {
        broadcast use text::group_views;
        assert(ps[b as int] == parts@[b as int]@);
        if same(parts[b].as_str(), "src") || same(parts[b].as_str(), "tests") {
            found = true;
        } else {
            b += 1;
        }
    }
    let end: usize = if found {
        b
    } else {
        last
    };
    let mut front: Vec<String> = Vec::new();
    let mut i: usize = 0;
    while i < end
        invariant
            i <= end <= parts@.len(),
            ps == text::views(parts@),
            text::views(front@) == ps.take(i as int),
        decreases end - i,
    {
        broadcast use text::group_views;
        assert(ps.take(i + 1) =~= ps.take(i as int).push(ps[i as int]));
        front.push(parts[i].clone());
        i += 1;
    }
    join(&front, "/")
}

// ---------------------------------------------------------------------------
// Targets and modules
// ---------------------------------------------------------------------------

/// The integration test target of a file: `tests/<target>.rs` or
/// `tests/<target>/main.rs`. A module of one has no target of its own.
pub open spec fn integration_target(k: CrateView, path: Seq<char>) -> Option<Seq<char>> {
    match rest_below(k, path, "tests"@) {
        None => None,
        Some(rest) => match text::before_suffix(rest, "/main.rs"@) {
            Some(name) => if text::contains(name, "/"@) {
                None
            } else {
                Some(name)
            },
            None => if text::contains(rest, "/"@) {
                None
            } else {
                text::before_suffix(rest, ".rs"@)
            },
        },
    }
}

/// Finds the integration test target of a file.
pub fn rust_integration_target(krate: &RustCrate, path: &str) -> (out: Option<String>)
    ensures
        text::view_opt(out) == integration_target(krate@, path@),
{
    match krate.rest_under(path, "tests") {
        None => None,
        Some(rest) => match strip_suffix(rest, "/main.rs") {
            Some(name) => if has(name, "/") {
                None
            } else {
                Some(name.to_string())
            },
            None => if has(rest, "/") {
                None
            } else {
                match strip_suffix(rest, ".rs") {
                    Some(name) => Some(name.to_string()),
                    None => None,
                }
            },
        },
    }
}

/// The part of a path below `src/` that names a module: of a binary, what lies
/// in its directory.
pub open spec fn module_part(rest: Seq<char>) -> Seq<char> {
    match text::after_prefix(rest, "bin/"@) {
        None => rest,
        Some(bin) => match text::split_first(bin, "/"@) {
            Some((_, module)) => module,
            None => bin,
        },
    }
}

/// The module path of a file below `src/`. The roots of crates have an empty
/// one, and `a/mod.rs` is `a`.
pub open spec fn module_name_path(k: CrateView, path: Seq<char>) -> Option<Seq<char>> {
    match rest_below(k, path, "src"@) {
        None => None,
        Some(rest) => match text::before_suffix(module_part(rest), ".rs"@) {
            None => None,
            Some(m) => Some(
                if m == "lib"@ || m == "main"@ {
                    ""@
                } else if rest_below(k, path, "src/bin"@) matches Some(bin) && !text::contains(bin, "/"@) {
                    ""@
                } else {
                    text::substituted(
                        match text::before_suffix(m, "/mod"@) {
                            Some(dir) => dir,
                            None => m,
                        },
                        "/"@,
                        "::"@,
                    )
                },
            ),
        },
    }
}

fn module_part_of<'a>(rest: &'a str) -> (out: &'a str)
    ensures
        out@ == module_part(rest@),
{
    match strip_prefix(rest, "bin/") {
        None => rest,
        Some(bin) => match split_once(bin, "/") {
            Some((_, module)) => module,
            None => bin,
        },
    }
}

/// Finds the module path of a file.
pub fn rust_module_path(krate: &RustCrate, path: &str) -> (out: Option<String>)
    ensures
        text::view_opt(out) == module_name_path(krate@, path@),
{
    let rest = match krate.rest_under(path, "src") {
        Some(rest) => rest,
        None => {
            return None;
        },
    };
    let m = match strip_suffix(module_part_of(rest), ".rs") {
        Some(m) => m,
        None => {
            return None;
        },
    };
    if same(m, "lib") || same(m, "main") {
        return Some("".to_string());
    }
    let binary = match krate.rest_under(path, "src/bin") {
        Some(bin) => if has(bin, "/") {
            false
        } else {
            true
        },
        None => false,
    };
    if binary {
        return Some("".to_string());
    }
    let dir = match strip_suffix(m, "/mod") {
        Some(dir) => dir,
        None => m,
    };
    proof {
        reveal_strlit("/");
    }
    Some(substitute(dir, "/", "::"))
}

/// The binary whose directory a file lies in. Its modules may be mounted
/// anywhere, so the whole target is run.
pub open spec fn directory_binary(k: CrateView, path: Seq<char>) -> Option<Seq<char>> {
    match rest_below(k, path, "src/bin"@) {
        None => None,
        Some(rest) => match text::split_first(rest, "/"@) {
            Some((name, _)) => Some(name),
            None => None,
        },
    }
}

/// Finds the binary whose directory a file lies in.
pub fn rust_directory_binary(krate: &RustCrate, path: &str) -> (out: Option<String>)
    ensures
        text::view_opt(out) == directory_binary(krate@, path@),
{
    match krate.rest_under(path, "src/bin") {
        None => None,
        Some(rest) => match split_once(rest, "/") {
            Some((name, _)) => Some(name.to_string()),
            None => None,
        },
    }
}

} // verus!
