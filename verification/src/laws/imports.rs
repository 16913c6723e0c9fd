//! What imports and names mean.
use vstd::prelude::*;
use crate::impact;
use crate::import_graph;
use crate::import_graph::{LoadCandidate, Pair, PathDirective};
use crate::imports;
use crate::laws::words;
use crate::model::{ReferenceKind, Symbol};
use crate::resolution;
use crate::resolution::OutgoingRef;
use crate::text;

verus! {

// ---------------------------------------------------------------------------
// Import pairs
// ---------------------------------------------------------------------------

/// Declaration files are those that end in one of the three declaration suffixes.
pub proof fn law_declarations_end_in_their_suffix(path: Seq<char>, stem: Seq<char>)
    ensures
        import_graph::declaration(stem + ".d.ts"@),
        import_graph::declaration(stem + ".d.mts"@),
        import_graph::declaration(stem + ".d.cts"@),
        import_graph::declaration(path) ==> text::ends_with(path, ".d.ts"@) || text::ends_with(path, ".d.mts"@)
            || text::ends_with(path, ".d.cts"@),
{
    words::law_a_text_begins_and_ends_with_its_parts(stem, ".d.ts"@, Seq::empty());
    words::law_a_text_begins_and_ends_with_its_parts(stem, ".d.mts"@, Seq::empty());
    words::law_a_text_begins_and_ends_with_its_parts(stem, ".d.cts"@, Seq::empty());
}

/// A candidate that may be loaded: it is indexed and no declaration.
pub open spec fn loads(c: LoadCandidate) -> bool {
    c.indexed && !import_graph::declaration(c.path@)
}

proof fn lemma_first_loaded(candidates: Seq<LoadCandidate>)
    ensures
        match import_graph::first_loaded(candidates) {
            Some(p) => exists|k: int|
                0 <= k < candidates.len() && loads(#[trigger] candidates[k]) && candidates[k].path@ == p && forall|j: int|
                    0 <= j < k ==> !loads(#[trigger] candidates[j]),
            None => forall|k: int| 0 <= k < candidates.len() ==> !loads(#[trigger] candidates[k]),
        },
    decreases candidates.len(),
{
    if candidates.len() > 0 {
        let less = candidates.drop_last();
        lemma_first_loaded(less);
        assert(candidates[candidates.len() - 1] == candidates.last());
        match import_graph::first_loaded(less) {
            Some(p) => {
                let k = choose|k: int|
                    0 <= k < less.len() && loads(#[trigger] less[k]) && less[k].path@ == p && forall|j: int|
                        0 <= j < k ==> !loads(#[trigger] less[j]);
                assert(candidates[k] == less[k]);
                assert forall|j: int| 0 <= j < k implies !loads(#[trigger] candidates[j]) by {
                    assert(less[j] == candidates[j]);
                }
            },
            None => {
                assert forall|j: int| 0 <= j < candidates.len() - 1 implies !loads(#[trigger] candidates[j]) by {
                    assert(less[j] == candidates[j]);
                }
                if loads(candidates.last()) {
                    assert(loads(candidates[candidates.len() - 1]));
                }
            },
        }
    }
}

/// A directive loads the first of its candidates that is indexed and no
/// declaration; a declaration file loads nothing.
pub proof fn law_a_directive_loads_its_first_indexed_candidate(from: Seq<char>, candidates: Seq<LoadCandidate>)
    ensures
        import_graph::declaration(from) ==> import_graph::loaded(from, candidates) is None,
        !import_graph::declaration(from) && (exists|k: int|
            0 <= k < candidates.len() && loads(#[trigger] candidates[k])) ==> exists|k: int|
            0 <= k < candidates.len() && loads(#[trigger] candidates[k]) && import_graph::loaded(from, candidates)
                == Some(candidates[k].path@) && forall|j: int| 0 <= j < k ==> !loads(#[trigger] candidates[j]),
        (forall|k: int| 0 <= k < candidates.len() ==> !loads(#[trigger] candidates[k])) ==> import_graph::loaded(
            from,
            candidates,
        ) is None,
{
    lemma_first_loaded(candidates);
}

/// Two files are joined by an import, unless they are one file or one of them is a
/// declaration. The import is lazy where every directive that joins them is.
/// Nothing else changes.
pub proof fn law_an_import_joins_two_files(m: Map<Pair, bool>, p: Pair, lazy: bool, q: Pair)
    ensures
        ({
            let n = import_graph::added(m, p, lazy);
            let joins = p.0 != p.1 && !import_graph::declaration(p.0) && !import_graph::declaration(p.1);
            &&& joins ==> n.dom().contains(p)
            &&& joins && !m.dom().contains(p) ==> n[p] == lazy
            &&& joins && m.dom().contains(p) ==> n[p] == (m[p] && lazy)
            &&& !joins ==> n == m
            &&& q != p ==> n.dom().contains(q) == m.dom().contains(q) && (m.dom().contains(q) ==> n[q] == m[q])
        }),
{
}

/// Every listed pair joins its files, and only listed pairs do.
pub proof fn law_every_listed_pair_is_joined(m: Map<Pair, bool>, list: Seq<Pair>, lazy: bool, p: Pair)
    ensures
        import_graph::with_pairs(m, list, lazy).dom().contains(p) <==> m.dom().contains(p) || (list.contains(p) && p.0
            != p.1 && !import_graph::declaration(p.0) && !import_graph::declaration(p.1)),
        list.contains(p) && p.0 != p.1 && !import_graph::declaration(p.0) && !import_graph::declaration(p.1) && !lazy
            ==> !import_graph::with_pairs(m, list, lazy)[p],
        m.dom().contains(p) && !m[p] ==> !import_graph::with_pairs(m, list, lazy)[p],
    decreases list.len(),
{
    if list.len() > 0 {
        let less = list.drop_last();
        law_every_listed_pair_is_joined(m, less, lazy, p);
        if less.contains(p) {
            let i = choose|i: int| 0 <= i < less.len() && less[i] == p;
            assert(list[i] == p);
        }
        if list.contains(p) && list.last() != p {
            let i = choose|i: int| 0 <= i < list.len() && list[i] == p;
            assert(less[i] == p);
        }
        assert(list[list.len() - 1] == list.last());
    }
}

/// A directive joins its file with what it loads, where that file counts; all
/// files count where none are given.
pub proof fn law_a_directive_joins_what_it_loads(
    m: Map<Pair, bool>,
    list: Seq<PathDirective>,
    d: PathDirective,
    within: Option<Seq<Seq<char>>>,
)
    ensures
        ({
            let a = import_graph::with_directives(m, list, within);
            let b = import_graph::with_directives(m, list.push(d), within);
            let to = import_graph::loaded(d.from@, d.candidates@);
            &&& to is None ==> b == a
            &&& to matches Some(t) ==> {
                &&& within is None ==> b == import_graph::added(a, (d.from@, t), d.lazy_only)
                &&& within matches Some(files) ==> (files.contains(t) ==> b == import_graph::added(
                    a,
                    (d.from@, t),
                    d.lazy_only,
                )) && (!files.contains(t) ==> b == a)
            }
        }),
{
    assert(list.push(d).drop_last() =~= list);
}

// ---------------------------------------------------------------------------
// Paths
// ---------------------------------------------------------------------------

/// A path is followed component by component: an empty one and a dot stay, two
/// dots go up, a name goes down; above the root there is nothing.
pub proof fn law_a_path_is_followed_component_by_component(stack: Seq<Seq<char>>, segs: Seq<Seq<char>>, i: int)
    requires
        0 <= i < segs.len(),
    ensures
        segs[i].len() == 0 || segs[i] == "."@ ==> imports::walked(stack, segs, i) == imports::walked(stack, segs, i + 1),
        segs[i] == ".."@ && stack.len() == 0 ==> imports::walked(stack, segs, i) is None,
        segs[i] == ".."@ && stack.len() > 0 ==> imports::walked(stack, segs, i) == imports::walked(
            stack.drop_last(),
            segs,
            i + 1,
        ),
        segs[i].len() > 0 && segs[i] != "."@ && segs[i] != ".."@ ==> imports::walked(stack, segs, i) == imports::walked(
            stack.push(segs[i]),
            segs,
            i + 1,
        ),
        imports::walked(stack, segs, segs.len() as int) == Some(stack),
{
    reveal_strlit("");
    reveal_strlit(".");
    reveal_strlit("..");
    if segs[i].len() == 0 {
        assert(segs[i] =~= ""@);
    }
    assert("."@.len() == 1 && ".."@.len() == 2);
}

/// The extensions that an import may leave out.
pub open spec fn may_be_left_out(e: Seq<char>) -> bool {
    e == "js"@ || e == "mjs"@ || e == "cjs"@ || e == "jsx"@ || e == "ts"@ || e == "tsx"@ || e == "mts"@ || e == "cts"@
        || e == "d.ts"@ || e == "h"@ || e == "hpp"@ || e == "py"@
}

/// A path names its own file; without an extension it names the file with any
/// that may be left out, and the index file of the directory; with an extension
/// it names the files of the same stem.
pub proof fn law_a_path_names_its_file(dir: Seq<char>, name: Seq<char>, ext: Seq<char>, e: Seq<char>)
    requires
        may_be_left_out(e),
        !name.contains('/'),
        !name.contains('.'),
        !ext.contains('.'),
        !ext.contains('/'),
    ensures
        ({
            let bare = dir + "/"@ + name;
            &&& imports::names_file(bare, bare)
            &&& imports::names_file(bare, bare + "."@ + e)
            &&& imports::names_file(bare, bare + "/index"@ + "."@ + e)
            &&& imports::names_file(bare + "."@ + ext, bare + "."@ + e)
        }),
{
    reveal_strlit("/");
    reveal_strlit(".");
    assert("/"@ =~= seq!['/']);
    assert("."@ =~= seq!['.']);
    let bare = dir + "/"@ + name;
    assert(bare =~= dir + seq!['/'] + name);
    words::law_a_text_is_cut_at_its_last_separator(dir, name, '/');
    assert(imports::import_extension(e));
    words::law_a_text_is_cut_at_its_last_separator(dir, name, '.');
    assert(imports::segment_start(bare) == dir.len() + 1);
    assert(bare.skip((dir.len() + 1) as int) =~= name);
    assert(text::rfind(name, "."@) is None);
    assert(imports::extends(bare + "."@ + e, bare));
    assert(imports::extends(bare + "/index"@ + "."@ + e, bare + "/index"@));
    let dotted = bare + "."@ + ext;
    let tail = name + seq!['.'] + ext;
    assert(dotted =~= dir + seq!['/'] + tail);
    assert(!tail.contains('/')) by {
        if tail.contains('/') {
            let i = choose|i: int| 0 <= i < tail.len() && tail[i] == '/';
            if i < name.len() {
                assert(name[i] == '/');
            } else if i > name.len() {
                assert(ext[i - name.len() - 1] == '/');
            }
        }
    }
    words::law_a_text_is_cut_at_its_last_separator(dir, tail, '/');
    assert(imports::segment_start(dotted) == dir.len() + 1);
    assert(dotted.skip((dir.len() + 1) as int) =~= tail);
    words::law_a_text_is_cut_at_its_last_separator(name, ext, '.');
    assert(dotted.take((dir.len() + 1 + name.len()) as int) =~= bare);
}

/// A file that an extensionless path names is that file itself, the file with an
/// extension that may be left out, or the index file of the directory.
pub proof fn law_a_path_names_no_other_file(dir: Seq<char>, name: Seq<char>, file: Seq<char>)
    requires
        !name.contains('/'),
        !name.contains('.'),
        imports::names_file(dir + seq!['/'] + name, file),
    ensures
        ({
            let bare = dir + seq!['/'] + name;
            file == bare || exists|e: Seq<char>|
                #[trigger] may_be_left_out(e) && (file == bare + "."@ + e || file == bare + "/index"@ + "."@ + e)
        }),
{
    reveal_strlit("/");
    reveal_strlit(".");
    assert("/"@ =~= seq!['/']);
    assert("."@ =~= seq!['.']);
    let bare = dir + seq!['/'] + name;
    words::law_a_text_is_cut_at_its_last_separator(dir, name, '/');
    words::law_a_text_is_cut_at_its_last_separator(dir, name, '.');
    assert(bare.skip((dir.len() + 1) as int) =~= name);
    if file != bare {
        if imports::extends(file, bare) {
            let e = choose|e: Seq<char>| #[trigger] imports::import_extension(e) && file == bare + "."@ + e;
            assert(may_be_left_out(e));
        } else {
            let e = choose|e: Seq<char>|
                #[trigger] imports::import_extension(e) && file == bare + "/index"@ + "."@ + e;
            assert(may_be_left_out(e));
        }
    }
}

/// A relative import is followed from the directory of the importer; any other
/// path means the file of that path, or one below some directory.
pub proof fn law_a_relative_import_starts_at_the_importer(spec: Seq<char>, caller: Seq<char>, file: Seq<char>)
    ensures
        (text::starts_with(spec, "./"@) || text::starts_with(spec, "../"@)) ==> {
            &&& imports::joined_path(imports::directory(caller), spec) is None ==> !imports::path_targets(
                spec,
                caller,
                file,
            )
            &&& imports::joined_path(imports::directory(caller), spec) matches Some(r) ==> (imports::path_targets(
                spec,
                caller,
                file,
            ) <==> imports::names_file(r, file))
        },
        !(text::starts_with(spec, "./"@) || text::starts_with(spec, "../"@)) ==> (imports::path_targets(
            spec,
            caller,
            file,
        ) <==> spec == file || text::ends_with(file, "/"@ + spec)),
{
}

/// A module of a crate lies in the source root of the importer, as a file of its
/// name or as `mod.rs` in a directory of its name.
pub proof fn law_a_module_lies_in_the_importers_crate(path: Seq<char>, importer: Seq<char>, root: Seq<char>)
    requires
        path.len() > 0,
        path != "crate"@,
        !text::starts_with(path, "crate::"@),
    ensures
        ({
            let p = text::substituted(path, "::"@, "/"@);
            &&& imports::src_root(importer) == Some(root) ==> imports::module_files(path, importer) == seq![
                root + p + ".rs"@,
                root + p + "/mod.rs"@,
            ] && imports::module_files("crate::"@ + path, importer) == seq![root + p + ".rs"@, root + p + "/mod.rs"@]
            &&& imports::src_root(importer) is None ==> imports::module_files(path, importer).contains(p + ".rs"@)
                && imports::module_files(path, importer).contains(p + "/mod.rs"@) && imports::module_files(
                path,
                importer,
            ).contains("src/"@ + p + ".rs"@) && imports::module_files(path, importer).contains(
                "src/"@ + p + "/mod.rs"@,
            )
        }),
{
    words::law_a_text_begins_and_ends_with_its_parts("crate::"@, path, Seq::empty());
    let p = text::substituted(path, "::"@, "/"@);
    let files = imports::module_files(path, importer);
    if imports::src_root(importer) is None {
        assert(files[0] == p + ".rs"@ && files[1] == p + "/mod.rs"@ && files[2] == "src/"@ + p + ".rs"@ && files[3]
            == "src/"@ + p + "/mod.rs"@);
    }
}

/// The source root of a file is what its path holds up to its last `/src/`, or a
/// leading `src/`.
pub proof fn law_a_source_root_ends_in_src(importer: Seq<char>, at: int)
    ensures
        text::rfind(importer, "/src/"@) == Some(at) ==> imports::src_root(importer) == Some(importer.take(at + 5)),
        text::rfind(importer, "/src/"@) is None && text::starts_with(importer, "src/"@) ==> imports::src_root(importer)
            == Some("src/"@),
        text::rfind(importer, "/src/"@) is None && !text::starts_with(importer, "src/"@) ==> imports::src_root(
            importer,
        ) is None,
{
    reveal_strlit("/src/");
}

/// An import means a file by its relative path, by its module path with or
/// without the last name, or by its path from the importer's directory or the
/// root; a bare name means none.
pub proof fn law_an_import_means_a_file_by_its_path(r: Seq<char>, importer: Seq<char>, file: Seq<char>)
    requires
        !text::starts_with(r, "./"@),
        !text::starts_with(r, "../"@),
    ensures
        text::contains(r, "::"@) && imports::module_files(r, importer).contains(file) ==> imports::ref_targets(
            r,
            importer,
            file,
        ),
        text::contains(r, "::"@) ==> (text::split_last(r, "::"@) matches Some((module, tail)) ==> (imports::module_files(
            module,
            importer,
        ).contains(file) ==> imports::ref_targets(r, importer, file))),
        !text::contains(r, "::"@) && (text::contains(r, "/"@) || text::contains(r, "."@)) ==> (imports::ref_targets(
            r,
            importer,
            file,
        ) <==> imports::joined_path(imports::directory(importer), r) == Some(file) || r == file),
        !text::contains(r, "::"@) && !text::contains(r, "/"@) && !text::contains(r, "."@) ==> !imports::ref_targets(
            r,
            importer,
            file,
        ),
{
}

// ---------------------------------------------------------------------------
// Names
// ---------------------------------------------------------------------------

/// Imports, import bindings, includes and trait uses bring names in; calls,
/// instantiations, inheritance, type hints and route handlers do not. A route
/// handler leads to no callee; every other reference may.
pub proof fn law_some_references_bring_names_in()
    ensures
        resolution::brings_in(ReferenceKind::Import),
        resolution::brings_in(ReferenceKind::ImportBinding),
        resolution::brings_in(ReferenceKind::Include),
        resolution::brings_in(ReferenceKind::TraitUse),
        !resolution::brings_in(ReferenceKind::Call),
        !resolution::brings_in(ReferenceKind::Instantiation),
        !resolution::brings_in(ReferenceKind::Inheritance),
        !resolution::brings_in(ReferenceKind::TypeHint),
        !resolution::brings_in(ReferenceKind::RouteHandler),
        !resolution::leads_to_callee(ReferenceKind::RouteHandler),
        forall|k: ReferenceKind| k != ReferenceKind::RouteHandler ==> #[trigger] resolution::leads_to_callee(k),
{
}

/// The imported names of a file are those that its bringing references name, and
/// no others.
pub proof fn law_the_imported_names_are_those_brought_in(refs: Seq<OutgoingRef>, x: Seq<char>)
    ensures
        resolution::imported_names(refs).contains(x) <==> exists|k: int|
            0 <= k < refs.len() && (#[trigger] refs[k]).to_name@ == x && (refs[k].kind == ReferenceKind::Import
                || refs[k].kind == ReferenceKind::ImportBinding || refs[k].kind == ReferenceKind::Include
                || refs[k].kind == ReferenceKind::TraitUse),
    decreases refs.len(),
{
    if refs.len() > 0 {
        let less = refs.drop_last();
        law_the_imported_names_are_those_brought_in(less, x);
        let front = resolution::imported_names(less);
        let all = resolution::imported_names(refs);
        assert(refs[refs.len() - 1] == refs.last());
        if front.contains(x) {
            let i = choose|i: int| 0 <= i < front.len() && front[i] == x;
            assert(all[i] == x);
            let k = choose|k: int|
                0 <= k < less.len() && (#[trigger] less[k]).to_name@ == x && resolution::brings_in(less[k].kind);
            assert(refs[k] == less[k]);
        }
        if all.contains(x) && !front.contains(x) {
            let i = choose|i: int| 0 <= i < all.len() && all[i] == x;
            if i < front.len() {
                assert(front[i] == x);
            }
        }
        if exists|k: int|
            0 <= k < refs.len() && (#[trigger] refs[k]).to_name@ == x && resolution::brings_in(refs[k].kind) {
            let k = choose|k: int|
                0 <= k < refs.len() && (#[trigger] refs[k]).to_name@ == x && resolution::brings_in(refs[k].kind);
            if k < less.len() {
                assert(less[k] == refs[k]);
            } else {
                assert(all[all.len() - 1] == x);
            }
        }
    }
}

/// An import names a definition by its qualified name, by its name, by the path
/// of its file, or by its module path and name.
pub proof fn law_an_import_names_a_definition(r: Seq<char>, caller: Seq<char>, callee: Seq<char>, s: Symbol)
    ensures
        r == s.qualified_name@ || r == s.name@ ==> resolution::import_names(r, caller, callee, s),
        r != s.qualified_name@ && r != s.name@ && (text::starts_with(r, "./"@) || text::starts_with(r, "../"@)
            || text::contains(r, "/"@)) ==> (resolution::import_names(r, caller, callee, s) <==> imports::path_targets(
            r,
            caller,
            s.file_path@,
        )),
        r != s.qualified_name@ && r != s.name@ && !(text::starts_with(r, "./"@) || text::starts_with(r, "../"@)
            || text::contains(r, "/"@)) ==> {
            &&& text::split_last(r, "::"@) is None ==> !resolution::import_names(r, caller, callee, s)
            &&& text::split_last(r, "::"@) matches Some((module, tail)) ==> (resolution::import_names(
                r,
                caller,
                callee,
                s,
            ) <==> (tail == callee || tail == s.name@) && imports::module_files(module, caller).contains(s.file_path@))
        },
{
}

proof fn lemma_selects(candidates: Seq<Symbol>, p: spec_fn(Symbol) -> bool, x: Symbol)
    ensures
        candidates.filter(p).contains(x) <==> candidates.contains(x) && p(x),
{
    let kept = candidates.filter(p);
    if kept.contains(x) {
        let i = choose|i: int| 0 <= i < kept.len() && kept[i] == x;
        candidates.lemma_filter_pred(p, i);
        candidates.lemma_filter_contains_rev(p, x);
    }
    if candidates.contains(x) && p(x) {
        let i = choose|i: int| 0 <= i < candidates.len() && candidates[i] == x;
        candidates.lemma_filter_contains(p, i);
    }
}

/// A name is qualified where it holds a backslash, a dot or two colons.
pub proof fn law_a_qualified_name_holds_a_separator(name: Seq<char>)
    ensures
        impact::qualified(name) <==> text::contains(name, "\\"@) || text::contains(name, "."@) || text::contains(
            name,
            "::"@,
        ),
{
}

/// A call means, among several definitions of a plain name, exactly those in the
/// caller's file and those that an import of the caller names; a single
/// definition is always meant.
pub proof fn law_a_plain_name_means_what_is_local_or_imported(
    candidates: Seq<Symbol>,
    caller: Seq<char>,
    name: Seq<char>,
    refs: Seq<Seq<char>>,
    x: Symbol,
)
    requires
        !impact::qualified(name),
    ensures
        candidates.len() <= 1 ==> resolution::callees(candidates, caller, name, refs) == candidates,
        candidates.len() > 1 ==> (resolution::callees(candidates, caller, name, refs).contains(x) <==> candidates.contains(
            x,
        ) && (x.file_path@ == caller || exists|i: int|
            0 <= i < refs.len() && resolution::import_names(#[trigger] refs[i], caller, name, x))),
{
    lemma_selects(candidates, |s: Symbol| resolution::evident(s, caller, name, refs), x);
}

/// A qualified name means the definitions that are spelled like it; where there
/// are none, those that are spelled like it but for the case.
pub proof fn law_a_qualified_name_means_what_is_spelled_like_it(
    candidates: Seq<Symbol>,
    caller: Seq<char>,
    name: Seq<char>,
    refs: Seq<Seq<char>>,
    x: Symbol,
    k: int,
)
    requires
        impact::qualified(name),
        0 <= k < candidates.len(),
    ensures
        candidates[k].qualified_name@ == name || candidates[k].name@ == name ==> (resolution::callees(
            candidates,
            caller,
            name,
            refs,
        ).contains(x) <==> candidates.contains(x) && (x.qualified_name@ == name || x.name@ == name)),
        (forall|j: int|
            0 <= j < candidates.len() ==> (#[trigger] candidates[j]).qualified_name@ != name && candidates[j].name@
                != name) && (text::lowered(candidates[k].qualified_name@) == text::lowered(name) || text::lowered(
            candidates[k].name@,
        ) == text::lowered(name)) ==> (resolution::callees(candidates, caller, name, refs).contains(x)
            <==> candidates.contains(x) && (text::lowered(x.qualified_name@) == text::lowered(name) || text::lowered(
            x.name@,
        ) == text::lowered(name))),
{
    let exact = |s: Symbol| resolution::spelled(s, name);
    let folded = |s: Symbol| resolution::spelled_loosely(s, name);
    lemma_selects(candidates, exact, x);
    lemma_selects(candidates, folded, x);
    lemma_selects(candidates, exact, candidates[k]);
    lemma_selects(candidates, folded, candidates[k]);
    let e = candidates.filter(exact);
    if e.len() > 0 {
        assert(e.contains(e[0]));
        lemma_selects(candidates, exact, e[0]);
        let j = choose|j: int| 0 <= j < candidates.len() && candidates[j] == e[0];
        assert(resolution::spelled(candidates[j], name));
    }
}

} // verus!
