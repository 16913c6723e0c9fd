//! Which definitions a call site means.
use vstd::prelude::*;
use vstd::string::*;
use crate::impact;
use crate::impact::is_qualified_symbol_name;
use crate::imports;
use crate::imports::{import_path_targets_file, is_path_specifier, rust_module_candidates};
use crate::model::{ReferenceKind, Symbol};
use crate::order;
use crate::order::{among, ascending_list};
use crate::text;
use crate::text::{rsplit_once, same, same_ignoring_case};

verus! {

/// Kinds of references that lead to a definition.
pub open spec fn leads_to_callee(kind: ReferenceKind) -> bool {
    kind != ReferenceKind::RouteHandler
}

pub fn is_callee_reference(kind: ReferenceKind) -> (r: bool)
    ensures
        r == leads_to_callee(kind),
{
    matches!(
        kind,
        ReferenceKind::Call | ReferenceKind::Instantiation | ReferenceKind::Import | ReferenceKind::ImportBinding
            | ReferenceKind::Include | ReferenceKind::Inheritance | ReferenceKind::TraitUse | ReferenceKind::TypeHint
    )
}

// ---------------------------------------------------------------------------
// Imports as evidence
// ---------------------------------------------------------------------------

/// A name that a file uses, and what for.
#[derive(Debug)]
pub struct OutgoingRef {
    pub to_name: String,
    pub kind: ReferenceKind,
}

pub open spec fn brings_in(kind: ReferenceKind) -> bool {
    kind == ReferenceKind::Import || kind == ReferenceKind::ImportBinding || kind == ReferenceKind::Include || kind
        == ReferenceKind::TraitUse
}

/// The names that a file brings in.
pub open spec fn imported_names(refs: Seq<OutgoingRef>) -> Seq<Seq<char>>
    decreases refs.len(),
{
    if refs.len() == 0 {
        Seq::empty()
    } else {
        let front = imported_names(refs.drop_last());
        if brings_in(refs.last().kind) {
            front.push(refs.last().to_name@)
        } else {
            front
        }
    }
}

/// The names that a file brings in, in order and each once.
pub fn import_refs_for_file(refs: &Vec<OutgoingRef>) -> (out: Vec<String>)
    ensures
        text::views(out@) == order::ascending_set(imported_names(refs@)),
{
    broadcast use text::group_views;
    let mut found: Vec<String> = Vec::new();
    let mut i: usize = 0;
    while i < refs.len()
        invariant
            i <= refs@.len(),
            text::views(found@) == imported_names(refs@.take(i as int)),
        decreases refs@.len() - i,
    {
        broadcast use text::group_views;
        assert(refs@.take(i + 1).drop_last() =~= refs@.take(i as int));
        let kind = refs[i].kind;
        if matches!(
            kind,
            ReferenceKind::Import | ReferenceKind::ImportBinding | ReferenceKind::Include | ReferenceKind::TraitUse
        ) {
            found.push(refs[i].to_name.clone());
        }
        i += 1;
    }
    assert(refs@.take(refs@.len() as int) =~= refs@);
    ascending_list(&found)
}

/// What a file brings in names a definition: by its name, by the path of its
/// file, or by its module and its name.
pub open spec fn import_names(import_ref: Seq<char>, caller: Seq<char>, callee: Seq<char>, sym: Symbol) -> bool {
    if import_ref == sym.qualified_name@ || import_ref == sym.name@ {
        true
    } else if imports::relative(import_ref) || text::contains(import_ref, "/"@) {
        imports::path_targets(import_ref, caller, sym.file_path@)
    } else {
        match text::split_last(import_ref, "::"@) {
            None => false,
            Some((module, tail)) => (tail == callee || tail == sym.name@) && imports::module_files(
                module,
                caller,
            ).contains(sym.file_path@),
        }
    }
}

pub fn import_ref_targets_symbol(import_ref: &str, caller_file: &str, callee_name: &str, sym: &Symbol) -> (r: bool)
    ensures
        r == import_names(import_ref@, caller_file@, callee_name@, *sym),
{
    if same(import_ref, sym.qualified_name.as_str()) || same(import_ref, sym.name.as_str()) {
        return true;
    }
    if is_path_specifier(import_ref) {
        return import_path_targets_file(import_ref, caller_file, sym.file_path.as_str());
    }
    match rsplit_once(import_ref, "::") {
        None => false,
        Some((module, tail)) => (same(tail, callee_name) || same(tail, sym.name.as_str())) && among(
            &rust_module_candidates(module, caller_file),
            sym.file_path.as_str(),
        ),
    }
}

/// Some import names a definition.
pub open spec fn some_import_names(
    import_refs: Seq<Seq<char>>,
    caller: Seq<char>,
    callee: Seq<char>,
    sym: Symbol,
) -> bool {
    exists|i: int| 0 <= i < import_refs.len() && import_names(#[trigger] import_refs[i], caller, callee, sym)
}

fn is_imported(import_refs: &Vec<String>, caller_file: &str, callee_name: &str, sym: &Symbol) -> (r: bool)
    ensures
        r == some_import_names(text::views(import_refs@), caller_file@, callee_name@, *sym),
{
    broadcast use text::group_views;
    let ghost refs = text::views(import_refs@);
    let mut i: usize = 0;
    while i < import_refs.len()
        invariant
            i <= import_refs@.len(),
            refs == text::views(import_refs@),
            forall|j: int|
                0 <= j < i ==> !import_names(#[trigger] refs[j], caller_file@, callee_name@, *sym),
        decreases import_refs@.len() - i,
    {
        broadcast use text::group_views;
        assert(refs[i as int] == import_refs@[i as int]@);
        if import_ref_targets_symbol(import_refs[i].as_str(), caller_file, callee_name, sym) {
            return true;
        }
        i += 1;
    }
    false
}

// ---------------------------------------------------------------------------
// Resolution
// ---------------------------------------------------------------------------

pub open spec fn spelled(s: Symbol, name: Seq<char>) -> bool {
    s.qualified_name@ == name || s.name@ == name
}

/// Spelled so up to the case of ASCII letters.
pub open spec fn spelled_loosely(s: Symbol, name: Seq<char>) -> bool {
    text::lowered(s.qualified_name@) == text::lowered(name) || text::lowered(s.name@) == text::lowered(name)
}

/// A definition in the caller's own file, or one that an import names.
pub open spec fn evident(s: Symbol, caller: Seq<char>, callee: Seq<char>, import_refs: Seq<Seq<char>>) -> bool {
    s.file_path@ == caller || some_import_names(import_refs, caller, callee, s)
}

/// The definitions that a spelling means, from a file. A qualified spelling
/// first means what is spelled exactly so, then what is so up to case; all
/// else is decided by imports, unless there is nothing to decide.
pub open spec fn callees(
    candidates: Seq<Symbol>,
    caller: Seq<char>,
    name: Seq<char>,
    import_refs: Seq<Seq<char>>,
) -> Seq<Symbol> {
    let exact = candidates.filter(|s: Symbol| spelled(s, name));
    let folded = candidates.filter(|s: Symbol| spelled_loosely(s, name));
    if impact::qualified(name) && exact.len() > 0 {
        exact
    } else if impact::qualified(name) && folded.len() > 0 {
        folded
    } else if candidates.len() <= 1 {
        candidates
    } else {
        candidates.filter(|s: Symbol| evident(s, caller, name, import_refs))
    }
}

fn spelled_so(candidates: &Vec<Symbol>, name: &str) -> (out: Vec<Symbol>)
    ensures
        out@ == candidates@.filter(|s: Symbol| spelled(s, name@)),
{
    let ghost keep = |s: Symbol| spelled(s, name@);
    let mut out: Vec<Symbol> = Vec::new();
    let mut i: usize = 0;
    assert(candidates@.take(0).filter(keep) =~= Seq::<Symbol>::empty()) by {
        reveal(Seq::filter);
    }
    while i < candidates.len()
        invariant
            i <= candidates@.len(),
            keep == (|s: Symbol| spelled(s, name@)),
            out@ == candidates@.take(i as int).filter(keep),
        decreases candidates@.len() - i,
    {
        proof {
            reveal(Seq::filter);
            assert(candidates@.take(i + 1).drop_last() =~= candidates@.take(i as int));
            assert(candidates@.take(i + 1).last() == candidates@[i as int]);
        }
        let s = &candidates[i];
        if same(s.qualified_name.as_str(), name) || same(s.name.as_str(), name) {
            out.push(s.clone());
        }
        i += 1;
    }
    assert(candidates@.take(candidates@.len() as int) =~= candidates@);
    out
}

/// Case-insensitive equality of a definition's names with a spelling, for ASCII
/// letters only: names that differ beyond them are different names.
pub fn qualified_name_matches_normalized(sym: &Symbol, to_name: &str) -> (r: bool)
    ensures
        r == spelled_loosely(*sym, to_name@),
{
    same_ignoring_case(sym.qualified_name.as_str(), to_name) || same_ignoring_case(sym.name.as_str(), to_name)
}

fn spelled_so_loosely(candidates: &Vec<Symbol>, name: &str) -> (out: Vec<Symbol>)
    ensures
        out@ == candidates@.filter(|s: Symbol| spelled_loosely(s, name@)),
{
    let ghost keep = |s: Symbol| spelled_loosely(s, name@);
    let mut out: Vec<Symbol> = Vec::new();
    let mut i: usize = 0;
    assert(candidates@.take(0).filter(keep) =~= Seq::<Symbol>::empty()) by {
        reveal(Seq::filter);
    }
    while i < candidates.len()
        invariant
            i <= candidates@.len(),
            keep == (|s: Symbol| spelled_loosely(s, name@)),
            out@ == candidates@.take(i as int).filter(keep),
        decreases candidates@.len() - i,
    {
        proof {
            reveal(Seq::filter);
            assert(candidates@.take(i + 1).drop_last() =~= candidates@.take(i as int));
            assert(candidates@.take(i + 1).last() == candidates@[i as int]);
        }
        if qualified_name_matches_normalized(&candidates[i], name) {
            out.push(candidates[i].clone());
        }
        i += 1;
    }
    assert(candidates@.take(candidates@.len() as int) =~= candidates@);
    out
}

fn evident_ones(candidates: &Vec<Symbol>, caller_file: &str, name: &str, import_refs: &Vec<String>) -> (out: Vec<Symbol>)
    ensures
        out@ == candidates@.filter(|s: Symbol| evident(s, caller_file@, name@, text::views(import_refs@))),
{
    let ghost keep = |s: Symbol| evident(s, caller_file@, name@, text::views(import_refs@));
    let mut out: Vec<Symbol> = Vec::new();
    let mut i: usize = 0;
    assert(candidates@.take(0).filter(keep) =~= Seq::<Symbol>::empty()) by {
        reveal(Seq::filter);
    }
    while i < candidates.len()
        invariant
            i <= candidates@.len(),
            keep == (|s: Symbol| evident(s, caller_file@, name@, text::views(import_refs@))),
            out@ == candidates@.take(i as int).filter(keep),
        decreases candidates@.len() - i,
    {
        proof {
            reveal(Seq::filter);
            assert(candidates@.take(i + 1).drop_last() =~= candidates@.take(i as int));
            assert(candidates@.take(i + 1).last() == candidates@[i as int]);
        }
        let s = &candidates[i];
        if same(s.file_path.as_str(), caller_file) || is_imported(import_refs, caller_file, name, s) {
            out.push(s.clone());
        }
        i += 1;
    }
    assert(candidates@.take(candidates@.len() as int) =~= candidates@);
    out
}

/// Resolves a spelling from a file. `candidates` are the definitions that it
/// could mean, `import_refs` what the file brings in.
pub fn resolve_callee_definitions(
    candidates: Vec<Symbol>,
    caller_file: &str,
    to_name: &str,
    import_refs: &Vec<String>,
) -> (out: Vec<Symbol>)
    ensures
        out@ == callees(candidates@, caller_file@, to_name@, text::views(import_refs@)),
{
    if is_qualified_symbol_name(to_name) {
        let exact = spelled_so(&candidates, to_name);
        if exact.len() > 0 {
            return exact;
        }
        let folded = spelled_so_loosely(&candidates, to_name);
        if folded.len() > 0 {
            return folded;
        }
    }
    if candidates.len() <= 1 {
        return candidates;
    }
    evident_ones(&candidates, caller_file, to_name, import_refs)
}

// ---------------------------------------------------------------------------
// Laws
// ---------------------------------------------------------------------------

proof fn lemma_filter_selects(s: Seq<Symbol>, p: spec_fn(Symbol) -> bool)
    ensures
        forall|x: Symbol| #[trigger] s.filter(p).contains(x) <==> s.contains(x) && p(x),
    decreases s.len(),
{
    reveal(Seq::filter);
    if s.len() > 0 {
        let front = s.drop_last();
        lemma_filter_selects(front, p);
        assert forall|x: Symbol| #[trigger] s.filter(p).contains(x) <==> s.contains(x) && p(x) by {
            let kept = front.filter(p);
            if s.contains(x) && p(x) {
                let i = choose|i: int| 0 <= i < s.len() && s[i] == x;
                if i < front.len() {
                    assert(front[i] == x);
                    assert(front.contains(x));
                    assert(kept.contains(x));
                    let j = choose|j: int| 0 <= j < kept.len() && kept[j] == x;
                    assert(s.filter(p)[j] == x);
                } else {
                    assert(s.filter(p).last() == x);
                }
            }
            if s.filter(p).contains(x) {
                let j = choose|j: int| 0 <= j < s.filter(p).len() && s.filter(p)[j] == x;
                if j < kept.len() {
                    assert(kept[j] == x);
                    assert(kept.contains(x));
                    let i = choose|i: int| 0 <= i < front.len() && front[i] == x;
                    assert(s[i] == x);
                } else {
                    assert(s[s.len() - 1] == x);
                }
            }
        }
    }
}

/// Whether what a spelling means depends on the caller's imports.
pub open spec fn left_to_imports(candidates: Seq<Symbol>, name: Seq<char>) -> bool {
    &&& candidates.len() > 1
    &&& impact::qualified(name) ==> forall|i: int|
        0 <= i < candidates.len() ==> !spelled(#[trigger] candidates[i], name) && !spelled_loosely(
            candidates[i],
            name,
        )
}

/// Whether the caller's imports have to be read to resolve a spelling.
pub fn needs_imports(candidates: &Vec<Symbol>, to_name: &str) -> (r: bool)
    ensures
        r == left_to_imports(candidates@, to_name@),
{
    if candidates.len() <= 1 {
        return false;
    }
    if !is_qualified_symbol_name(to_name) {
        return true;
    }
    let mut i: usize = 0;
    while i < candidates.len()
        invariant
            i <= candidates@.len(),
            impact::qualified(to_name@),
            forall|j: int|
                0 <= j < i ==> !spelled(#[trigger] candidates@[j], to_name@) && !spelled_loosely(
                    candidates@[j],
                    to_name@,
                ),
        decreases candidates@.len() - i,
    {
        let s = &candidates[i];
        if same(s.qualified_name.as_str(), to_name) || same(s.name.as_str(), to_name)
            || qualified_name_matches_normalized(s, to_name) {
            assert(spelled(candidates@[i as int], to_name@) || spelled_loosely(candidates@[i as int], to_name@));
            return false;
        }
        i += 1;
    }
    true
}

/// Imports that need not be read change nothing.
pub proof fn law_imports_decide_only_where_needed(
    candidates: Seq<Symbol>,
    caller: Seq<char>,
    name: Seq<char>,
    some: Seq<Seq<char>>,
    other: Seq<Seq<char>>,
)
    requires
        !left_to_imports(candidates, name),
    ensures
        callees(candidates, caller, name, some) == callees(candidates, caller, name, other),
{
    if impact::qualified(name) && candidates.len() > 1 {
        let exact = |s: Symbol| spelled(s, name);
        let folded = |s: Symbol| spelled_loosely(s, name);
        let i = choose|i: int|
            0 <= i < candidates.len() && (spelled(#[trigger] candidates[i], name) || spelled_loosely(
                candidates[i],
                name,
            ));
        lemma_filter_selects(candidates, exact);
        lemma_filter_selects(candidates, folded);
        assert(candidates.contains(candidates[i]));
        if spelled(candidates[i], name) {
            assert(candidates.filter(exact).contains(candidates[i]));
        } else {
            assert(candidates.filter(folded).contains(candidates[i]));
        }
    }
}

/// Resolution only selects: whatever a spelling means is among its candidates.
pub proof fn law_resolution_only_selects(
    candidates: Seq<Symbol>,
    caller: Seq<char>,
    name: Seq<char>,
    import_refs: Seq<Seq<char>>,
    s: Symbol,
)
    requires
        callees(candidates, caller, name, import_refs).contains(s),
    ensures
        candidates.contains(s),
{
    lemma_filter_selects(candidates, |s: Symbol| spelled(s, name));
    lemma_filter_selects(candidates, |s: Symbol| spelled_loosely(s, name));
    lemma_filter_selects(candidates, |s: Symbol| evident(s, caller, name, import_refs));
}

/// A plain name always may mean a definition in the caller's own file: such a
/// call needs no import.
pub proof fn law_a_local_definition_is_kept(
    candidates: Seq<Symbol>,
    caller: Seq<char>,
    name: Seq<char>,
    import_refs: Seq<Seq<char>>,
    s: Symbol,
)
    requires
        candidates.contains(s),
        s.file_path@ == caller,
        !impact::qualified(name),
    ensures
        callees(candidates, caller, name, import_refs).contains(s),
{
    lemma_filter_selects(candidates, |s: Symbol| evident(s, caller, name, import_refs));
}

/// A definition that is spelled exactly like a qualified name is always meant
/// by it, and then nothing that is spelled otherwise is.
pub proof fn law_an_exact_qualified_spelling_decides(
    candidates: Seq<Symbol>,
    caller: Seq<char>,
    name: Seq<char>,
    import_refs: Seq<Seq<char>>,
    s: Symbol,
    other: Symbol,
)
    requires
        impact::qualified(name),
        candidates.contains(s),
        spelled(s, name),
    ensures
        callees(candidates, caller, name, import_refs).contains(s),
        callees(candidates, caller, name, import_refs).contains(other) ==> spelled(other, name),
{
    let keep = |s: Symbol| spelled(s, name);
    lemma_filter_selects(candidates, keep);
    assert(candidates.filter(keep).contains(s));
}

} // verus!
