//! From a request to replace one declaration to the report on it, or to the
//! reason why it is refused.
use vstd::prelude::*;
use vstd::string::*;
use crate::edit_callers;
use crate::edit_callers::{rust_callers, CallerView, Change, IncompatibleCaller};
use crate::edit_check;
use crate::edit_check::{
    deduplicate_signatures, is_declared, name_of, same_arity, same_opt, same_signatures, signature, Signature,
    SignatureView, MAX_SOURCE_BYTES,
};
use crate::paths;
use crate::paths::{extension_of, is_absolute};
use crate::syntax;
use crate::syntax::{Language, SyntaxTree};
use crate::text;
use crate::text::{begins, chars_of, concat3, decimal_of, read_up_to, same, split, trim, NumberFault};

verus! {

/// Why a proposed edit is refused.
#[derive(Debug, Clone, Copy, PartialEq, Eq, Structural)]
pub enum EditRefusal {
    ProjectNotAbsolute,
    FileNotPlain,
    ReplacementTooLarge,
    NotWorktreeRoot,
    SizeUnreadable(NumberFault),
    HeadTooLarge,
    NotRegularFile,
    UnsupportedLanguage,
    AmbiguousHeader,
    HeadSyntaxErrors,
    NotOneDeclaration(usize),
    ProposedTooLarge,
    ReplacementSyntaxErrors,
    NotOneReplacement,
    NameChanged,
    MoreThanTheDeclaration,
}

/// What a refusal says.
pub open spec fn refusal_text(r: EditRefusal) -> Seq<char> {
    match r {
        EditRefusal::ProjectNotAbsolute => "project must be absolute"@,
        EditRefusal::FileNotPlain => "file must be a repository-relative path without traversal"@,
        EditRefusal::ReplacementTooLarge => "replacement exceeds 1 MiB"@,
        EditRefusal::NotWorktreeRoot => "project must be the Git worktree root"@,
        EditRefusal::SizeUnreadable(f) => text::fault_text(f),
        EditRefusal::HeadTooLarge => "HEAD file exceeds 1 MiB"@,
        EditRefusal::NotRegularFile => "HEAD path must be a regular source file"@,
        EditRefusal::UnsupportedLanguage => "unsupported source language"@,
        EditRefusal::AmbiguousHeader => "ambiguous .h dialect: use an unambiguous source file"@,
        EditRefusal::HeadSyntaxErrors => "HEAD source has syntax errors; compatibility is unknown"@,
        EditRefusal::NotOneDeclaration(n) => "expected one named declaration at HEAD; found "@ + text::decimal(n as nat)
            + " (supply its start line to disambiguate)"@,
        EditRefusal::ProposedTooLarge => "proposed file exceeds 1 MiB"@,
        EditRefusal::ReplacementSyntaxErrors => "replacement produces syntax errors"@,
        EditRefusal::NotOneReplacement =>
            "replacement must contain exactly one complete declaration in the original scope"@,
        EditRefusal::NameChanged => "replacement must retain the selected symbol name"@,
        EditRefusal::MoreThanTheDeclaration => "replacement must contain only the complete declaration"@,
    }
}

impl EditRefusal {
    /// Says why the edit is refused.
    pub fn message(&self) -> (out: String)
        ensures
            out@ == refusal_text(*self),
    {
        match self {
            EditRefusal::ProjectNotAbsolute => "project must be absolute".to_string(),
            EditRefusal::FileNotPlain => "file must be a repository-relative path without traversal".to_string(),
            EditRefusal::ReplacementTooLarge => "replacement exceeds 1 MiB".to_string(),
            EditRefusal::NotWorktreeRoot => "project must be the Git worktree root".to_string(),
            EditRefusal::SizeUnreadable(f) => f.message(),
            EditRefusal::HeadTooLarge => "HEAD file exceeds 1 MiB".to_string(),
            EditRefusal::NotRegularFile => "HEAD path must be a regular source file".to_string(),
            EditRefusal::UnsupportedLanguage => "unsupported source language".to_string(),
            EditRefusal::AmbiguousHeader => "ambiguous .h dialect: use an unambiguous source file".to_string(),
            EditRefusal::HeadSyntaxErrors => "HEAD source has syntax errors; compatibility is unknown".to_string(),
            EditRefusal::NotOneDeclaration(n) => concat3(
                "expected one named declaration at HEAD; found ",
                decimal_of(*n as u64).as_str(),
                " (supply its start line to disambiguate)",
            ),
            EditRefusal::ProposedTooLarge => "proposed file exceeds 1 MiB".to_string(),
            EditRefusal::ReplacementSyntaxErrors => "replacement produces syntax errors".to_string(),
            EditRefusal::NotOneReplacement =>
                "replacement must contain exactly one complete declaration in the original scope".to_string(),
            EditRefusal::NameChanged => "replacement must retain the selected symbol name".to_string(),
            EditRefusal::MoreThanTheDeclaration => "replacement must contain only the complete declaration".to_string(),
        }
    }
}

// ---------------------------------------------------------------------------
// Sizes
// ---------------------------------------------------------------------------

/// How many bytes a character takes in UTF-8.
pub open spec fn char_bytes(c: char) -> nat {
    if (c as u32) < 0x80 {
        1
    } else if (c as u32) < 0x800 {
        2
    } else if (c as u32) < 0x1_0000 {
        3
    } else {
        4
    }
}

/// How many bytes a text takes in UTF-8.
pub open spec fn bytes_of(s: Seq<char>) -> nat
    decreases s.len(),
{
    if s.len() == 0 {
        0
    } else {
        bytes_of(s.drop_last()) + char_bytes(s.last())
    }
}

/// The text takes no more bytes than a source may.
pub open spec fn small_enough(s: Seq<char>) -> bool {
    bytes_of(s) <= MAX_SOURCE_BYTES
}

proof fn lemma_bytes_grow(s: Seq<char>, n: int)
    requires
        0 <= n <= s.len(),
    ensures
        bytes_of(s.take(n)) <= bytes_of(s),
    decreases s.len() - n,
{
    if n < s.len() {
        lemma_bytes_grow(s, n + 1);
        assert(s.take(n + 1).drop_last() =~= s.take(n));
    } else {
        assert(s.take(n) =~= s);
    }
}

fn is_small_enough(s: &str) -> (r: bool)
    ensures
        r == small_enough(s@),
{
    let cs = chars_of(s);
    let mut n: usize = 0;
    let mut i: usize = 0;
    while i < cs.len()
        invariant
            i <= cs@.len(),
            cs@ == s@,
            n == bytes_of(s@.take(i as int)),
            n <= MAX_SOURCE_BYTES,
        decreases cs@.len() - i,
    {
        proof {
            assert(s@.take(i + 1).drop_last() =~= s@.take(i as int));
            lemma_bytes_grow(s@, i + 1);
        }
        let c = cs[i] as u32;
        n += if c < 0x80 {
            1
        } else if c < 0x800 {
            2
        } else if c < 0x1_0000 {
            3
        } else {
            4
        };
        if n > MAX_SOURCE_BYTES {
            return false;
        }
        i += 1;
    }
    assert(s@.take(s@.len() as int) =~= s@);
    true
}

// ---------------------------------------------------------------------------
// The request
// ---------------------------------------------------------------------------

/// A path made of plain names only: not absolute, no leading `.`, no `..`.
pub open spec fn plain_path(file: Seq<char>) -> bool {
    let parts = text::pieces(file, '/');
    file.len() > 0 && !paths::absolute(file) && parts[0] != "."@ && !parts.contains(".."@)
}

fn is_plain_path(file: &str) -> (r: bool)
    ensures
        r == plain_path(file@),
{
    broadcast use text::group_views;
    if file.unicode_len() == 0 || is_absolute(file) {
        return false;
    }
    let parts = split(file, '/');
    let ghost ps = text::views(parts@);
    proof {
        text::lemma_pieces_nonempty(file@, '/', 0, 0);
        assert(ps[0] == parts@[0]@);
    }
    if same(parts[0].as_str(), ".") {
        return false;
    }
    let mut i: usize = 0;
    while i < parts.len()
        invariant
            i <= parts@.len(),
            ps == text::views(parts@),
            ps == text::pieces(file@, '/'),
            forall|j: int| 0 <= j < i ==> #[trigger] ps[j] != ".."@,
        decreases parts@.len() - i,
    {
        broadcast use text::group_views;
        assert(ps[i as int] == parts@[i as int]@);
        if same(parts[i].as_str(), "..") {
            assert(ps.contains(".."@));
            return false;
        }
        i += 1;
    }
    true
}

/// What is wrong with a request, before anything is read.
pub open spec fn request_fault(project: Seq<char>, file: Seq<char>, replacement: Seq<char>) -> Option<EditRefusal> {
    if !paths::absolute(project) {
        Some(EditRefusal::ProjectNotAbsolute)
    } else if !plain_path(file) {
        Some(EditRefusal::FileNotPlain)
    } else if !small_enough(replacement) {
        Some(EditRefusal::ReplacementTooLarge)
    } else {
        None
    }
}

/// Checks a request before anything is read.
pub fn check_request(project: &str, file: &str, replacement: &str) -> (out: Result<(), EditRefusal>)
    ensures
        match out {
            Ok(_) => request_fault(project@, file@, replacement@) is None,
            Err(e) => request_fault(project@, file@, replacement@) == Some(e),
        },
{
    if !is_absolute(project) {
        Err(EditRefusal::ProjectNotAbsolute)
    } else if !is_plain_path(file) {
        Err(EditRefusal::FileNotPlain)
    } else if !is_small_enough(replacement) {
        Err(EditRefusal::ReplacementTooLarge)
    } else {
        Ok(())
    }
}

/// Checks the printed size of the file at the head commit.
pub fn check_size(printed: &str) -> (out: Result<usize, EditRefusal>)
    ensures
        match out {
            Ok(n) => text::parsed(text::trimmed(printed@), usize::MAX as nat) == Some(n as nat) && n
                <= MAX_SOURCE_BYTES,
            Err(EditRefusal::SizeUnreadable(f)) => text::number_fault(text::trimmed(printed@), usize::MAX as nat)
                == Some(f),
            Err(EditRefusal::HeadTooLarge) => text::parsed(text::trimmed(printed@), usize::MAX as nat) matches Some(n)
                && n > MAX_SOURCE_BYTES,
            Err(_) => false,
        },
{
    match read_up_to(trim(printed), usize::MAX as u64) {
        Err(f) => Err(EditRefusal::SizeUnreadable(f)),
        Ok(n) => if n > MAX_SOURCE_BYTES as u64 {
            Err(EditRefusal::HeadTooLarge)
        } else {
            Ok(n as usize)
        },
    }
}

/// Checks the tree entry of the file at the head commit: a regular file, which
/// may be executable.
pub fn check_entry(entry: &str) -> (out: Result<(), EditRefusal>)
    ensures
        out is Ok == (text::starts_with(entry@, "100644 "@) || text::starts_with(entry@, "100755 "@)),
        out matches Err(e) ==> e == EditRefusal::NotRegularFile,
{
    if begins(entry, "100644 ") || begins(entry, "100755 ") {
        Ok(())
    } else {
        Err(EditRefusal::NotRegularFile)
    }
}

/// Checks the language of the file. A header could be of two dialects.
pub fn check_language(file: &str, language: Option<Language>) -> (out: Result<Language, EditRefusal>)
    ensures
        match language {
            None => out == Err::<Language, EditRefusal>(EditRefusal::UnsupportedLanguage),
            Some(l) => if paths::extension(file@) == Some("h"@) {
                out == Err::<Language, EditRefusal>(EditRefusal::AmbiguousHeader)
            } else {
                out == Ok::<Language, EditRefusal>(l)
            },
        },
{
    match language {
        None => Err(EditRefusal::UnsupportedLanguage),
        Some(l) => {
            let header = match extension_of(file) {
                Some(e) => same(e, "h"),
                None => false,
            };
            if header {
                Err(EditRefusal::AmbiguousHeader)
            } else {
                Ok(l)
            }
        },
    }
}

// ---------------------------------------------------------------------------
// The declaration and its replacement
// ---------------------------------------------------------------------------

/// Declarations of a symbol that start in a line, counted from one; every line
/// where none is given.
pub open spec fn selected(t: SyntaxTree, symbol: Seq<char>, line: Option<usize>) -> Seq<usize> {
    t.walk(0).filter(
        |n: usize|
            edit_check::declares(t, n as int, symbol) && (line matches Some(l) ==> t.nodes()[n as int].row + 1 == l),
    )
}

/// Finds the one declaration that is meant. `faulty` says that the source has
/// syntax errors.
pub fn select_declaration(t: &SyntaxTree, faulty: bool, symbol: &str, line: Option<usize>) -> (out: Result<
    usize,
    EditRefusal,
>)
    requires
        t.wf(),
    ensures
        ({
            let found = selected(*t, symbol@, line);
            match out {
                Ok(n) => !faulty && found == seq![n] && n < t.nodes().len(),
                Err(e) => if faulty {
                    e == EditRefusal::HeadSyntaxErrors
                } else {
                    found.len() != 1 && e == EditRefusal::NotOneDeclaration(found.len() as usize)
                },
            }
        }),
{
    if faulty {
        return Err(EditRefusal::HeadSyntaxErrors);
    }
    let nodes = t.walk_of(0);
    let ghost keep = |n: usize|
        edit_check::declares(*t, n as int, symbol@) && (line matches Some(l) ==> t.nodes()[n as int].row + 1 == l);
    let mut found: Vec<usize> = Vec::new();
    let mut k: usize = 0;
    assert(nodes@.take(0).filter(keep) =~= Seq::<usize>::empty()) by {
        reveal(Seq::filter);
    }
    while k < nodes.len()
        invariant
            t.wf(),
            forall|j: int| 0 <= j < nodes@.len() ==> #[trigger] nodes@[j] < t.nodes().len(),
            forall|j: int| 0 <= j < found@.len() ==> #[trigger] found@[j] < t.nodes().len(),
            keep == (|n: usize|
                edit_check::declares(*t, n as int, symbol@) && (line matches Some(l) ==> t.nodes()[n as int].row + 1
                    == l)),
            k <= nodes@.len(),
            found@ == nodes@.take(k as int).filter(keep),
        decreases nodes@.len() - k,
    {
        proof {
            reveal(Seq::filter);
            assert(nodes@.take(k + 1).drop_last() =~= nodes@.take(k as int));
            assert(nodes@.take(k + 1).last() == nodes@[k as int]);
            assert(syntax::node_fits(t.nodes(), t.source().len(), nodes@[k as int] as int));
        }
        let n: usize = nodes[k];
        let at_line = match line {
            Some(l) => t.node(n).row + 1 == l,
            None => true,
        };
        if at_line && is_declared(t, n, symbol) {
            found.push(n);
        }
        k += 1;
    }
    assert(nodes@.take(nodes@.len() as int) =~= nodes@);
    if found.len() == 1 {
        assert(found@ =~= seq![found@[0]]);
        Ok(found[0])
    } else {
        Err(EditRefusal::NotOneDeclaration(found.len()))
    }
}

/// The source with the declaration replaced.
pub open spec fn proposed(t: SyntaxTree, old_node: int, replacement: Seq<char>) -> Seq<char> {
    t.source().take(t.nodes()[old_node].start as int) + replacement + t.source().skip(t.nodes()[old_node].end as int)
}

/// Writes the source with the declaration replaced, unless it gets too large.
pub fn propose(t: &SyntaxTree, old_node: usize, replacement: &str) -> (out: Result<String, EditRefusal>)
    requires
        t.wf(),
        old_node < t.nodes().len(),
    ensures
        match out {
            Ok(s) => s@ == proposed(*t, old_node as int, replacement@) && small_enough(s@),
            Err(e) => e == EditRefusal::ProposedTooLarge && !small_enough(
                proposed(*t, old_node as int, replacement@),
            ),
        },
{
    assert(syntax::node_fits(t.nodes(), t.source().len(), old_node as int));
    let head = t.slice(0, t.node(old_node).start);
    let tail = t.slice(t.node(old_node).end, t.source_len());
    assert(head@ =~= t.source().take(t.nodes()[old_node as int].start as int));
    assert(tail@ =~= t.source().skip(t.nodes()[old_node as int].end as int));
    let s = concat3(head.as_str(), replacement, tail.as_str());
    if is_small_enough(s.as_str()) {
        Ok(s)
    } else {
        Err(EditRefusal::ProposedTooLarge)
    }
}

/// The functions declared inside the replacement, in the scope of the old one.
pub open spec fn replacements(t: SyntaxTree, old_node: int, new: SyntaxTree, len: nat) -> Seq<usize> {
    let start = t.nodes()[old_node].start;
    new.walk(0).filter(
        |n: usize|
            edit_check::declares_function(new, n as int) && new.nodes()[n as int].start >= start
                && new.nodes()[n as int].end <= start + len && new.scope(n as int) == t.scope(old_node),
    )
}

/// The signatures of the declarations of a symbol in one scope, each once.
pub open spec fn overloads(t: SyntaxTree, language: Language, symbol: Seq<char>, scope: Seq<usize>) -> Seq<
    SignatureView,
> {
    edit_check::first_seen(signatures_among(t, language, symbol, scope, t.walk(0)))
}

pub open spec fn signatures_among(
    t: SyntaxTree,
    language: Language,
    symbol: Seq<char>,
    scope: Seq<usize>,
    places: Seq<usize>,
) -> Seq<SignatureView>
    decreases places.len(),
{
    if places.len() == 0 {
        Seq::empty()
    } else {
        let front = signatures_among(t, language, symbol, scope, places.drop_last());
        let n = places.last() as int;
        if edit_check::declares(t, n, symbol) && t.scope(n) == scope {
            front.push(edit_check::signature_at(t, language, n))
        } else {
            front
        }
    }
}

fn same_places(a: &Vec<usize>, b: &Vec<usize>) -> (r: bool)
    ensures
        r == (a@ == b@),
{
    if a.len() != b.len() {
        return false;
    }
    let mut k: usize = 0;
    while k < a.len()
        invariant
            a@.len() == b@.len(),
            k <= a@.len(),
            forall|j: int| 0 <= j < k ==> #[trigger] a@[j] == b@[j],
        decreases a@.len() - k,
    {
        if a[k] != b[k] {
            return false;
        }
        k += 1;
    }
    assert(a@ =~= b@);
    true
}

fn overloads_of(t: &SyntaxTree, language: Language, symbol: &str, scope: &Vec<usize>) -> (out: Vec<Signature>)
    requires
        t.wf(),
    ensures
        text::views(out@) == overloads(*t, language, symbol@, scope@),
{
    broadcast use text::group_views;
    let nodes = t.walk_of(0);
    let mut found: Vec<Signature> = Vec::new();
    let mut k: usize = 0;
    while k < nodes.len()
        invariant
            t.wf(),
            forall|j: int| 0 <= j < nodes@.len() ==> #[trigger] nodes@[j] < t.nodes().len(),
            k <= nodes@.len(),
            text::views(found@) == signatures_among(*t, language, symbol@, scope@, nodes@.take(k as int)),
        decreases nodes@.len() - k,
    {
        broadcast use text::group_views;
        proof {
            assert(nodes@.take(k + 1).drop_last() =~= nodes@.take(k as int));
            assert(nodes@.take(k + 1).last() == nodes@[k as int]);
        }
        let n: usize = nodes[k];
        if is_declared(t, n, symbol) && same_places(&t.scope_of(n), scope) {
            found.push(signature(t, n, language));
        }
        k += 1;
    }
    assert(nodes@.take(nodes@.len() as int) =~= nodes@);
    deduplicate_signatures(found)
}

fn replacements_of(t: &SyntaxTree, old_node: usize, new: &SyntaxTree, len: usize) -> (out: Vec<usize>)
    requires
        t.wf(),
        new.wf(),
        old_node < t.nodes().len(),
        t.nodes()[old_node as int].start + len <= usize::MAX,
    ensures
        out@ == replacements(*t, old_node as int, *new, len as nat),
        forall|j: int|
            0 <= j < out@.len() ==> #[trigger] out@[j] < new.nodes().len() && new.nodes()[out@[j] as int].start
                >= t.nodes()[old_node as int].start && new.nodes()[out@[j] as int].end
                <= t.nodes()[old_node as int].start + len,
{
    let nodes = new.walk_of(0);
    let start: usize = t.node(old_node).start;
    let end: usize = start + len;
    let scope = t.scope_of(old_node);
    let ghost keep = |n: usize|
        edit_check::declares_function(*new, n as int) && new.nodes()[n as int].start >= start
            && new.nodes()[n as int].end <= start + len && new.scope(n as int) == t.scope(old_node as int);
    let mut found: Vec<usize> = Vec::new();
    let mut k: usize = 0;
    assert(nodes@.take(0).filter(keep) =~= Seq::<usize>::empty()) by {
        reveal(Seq::filter);
    }
    while k < nodes.len()
        invariant
            new.wf(),
            forall|j: int| 0 <= j < nodes@.len() ==> #[trigger] nodes@[j] < new.nodes().len(),
            scope@ == t.scope(old_node as int),
            end == start + len,
            keep == (|n: usize|
                edit_check::declares_function(*new, n as int) && new.nodes()[n as int].start >= start
                    && new.nodes()[n as int].end <= start + len && new.scope(n as int) == t.scope(old_node as int)),
            k <= nodes@.len(),
            found@ == nodes@.take(k as int).filter(keep),
            forall|j: int|
                0 <= j < found@.len() ==> #[trigger] found@[j] < new.nodes().len() && new.nodes()[found@[j] as int].start
                    >= start && new.nodes()[found@[j] as int].end <= end,
        decreases nodes@.len() - k,
    {
        proof {
            reveal(Seq::filter);
            assert(nodes@.take(k + 1).drop_last() =~= nodes@.take(k as int));
            assert(nodes@.take(k + 1).last() == nodes@[k as int]);
        }
        let n: usize = nodes[k];
        if new.node(n).start >= start && new.node(n).end <= end && edit_check::is_function(new, n) && same_places(
            &new.scope_of(n),
            &scope,
        ) {
            found.push(n);
        }
        k += 1;
    }
    assert(nodes@.take(nodes@.len() as int) =~= nodes@);
    found
}

// ---------------------------------------------------------------------------
// The report
// ---------------------------------------------------------------------------

/// What is known of replacing one declaration.
#[derive(Debug)]
pub struct EditCheckReport {
    pub head: String,
    pub file: String,
    pub symbol: String,
    pub line: usize,
    pub worktree_matches_head: bool,
    pub before: Signature,
    pub after: Signature,
    pub arity_changed: bool,
    pub visibility_changed: bool,
    pub overloads_before: Vec<Signature>,
    pub overloads_after: Vec<Signature>,
    pub overloads_changed: bool,
    pub incompatible_callers: Vec<IncompatibleCaller>,
    pub callers_truncated: bool,
    pub unknown: Vec<String>,
    pub counts_floor: bool,
}

pub const SYNTAX_NOTE: &'static str =
    "This is syntax evidence, not a compilation or safety verdict. Only callers in the selected HEAD file are examined; external, dynamic, indirect, and generated callers remain unknown.";

pub const C_NOTE: &'static str =
    "C/C++ snapshots include same-scope declarations and definitions, deduplicating identical normalized signatures. Different parameter spellings, inherited defaults, multi-declarator statements, templates, and declarations in other files require semantic resolution; this is not a complete compiler overload set.";

pub const ARITY_NOTE: &'static str = "Accepted argument counts are unknown for this parameter syntax or language.";

pub const VISIBILITY_NOTE: &'static str =
    "Visibility semantics are not modelled for this language; inspect the declaration diff.";

pub const WORKTREE_NOTE: &'static str =
    "The working file differs from HEAD or cannot be read as a regular file without following a symlink; findings describe HEAD callers only.";

pub open spec fn noted(holds: bool, note: Seq<char>) -> Seq<Seq<char>> {
    if holds {
        seq![note]
    } else {
        Seq::empty()
    }
}

/// What the check leaves open.
pub open spec fn unknowns(language: Language, before: SignatureView, after: SignatureView, callers: Option<Seq<char>>) -> Seq<
    Seq<char>,
> {
    seq![SYNTAX_NOTE@] + noted(language == Language::C || language == Language::Cpp, C_NOTE@) + noted(
        before.arity is None || after.arity is None,
        ARITY_NOTE@,
    ) + noted(before.visibility is None || after.visibility is None, VISIBILITY_NOTE@) + (match callers {
        Some(n) => seq![n],
        None => Seq::empty(),
    })
}

fn note_if(notes: &mut Vec<String>, holds: bool, note: &str)
    ensures
        text::views(final(notes)@) == text::views(old(notes)@) + noted(holds, note@),
{
    broadcast use text::group_views;
    let ghost start = text::views(notes@);
    if holds {
        notes.push(note.to_string());
        assert(text::views(notes@) =~= start + seq![note@]);
    } else {
        assert(start + Seq::<Seq<char>>::empty() =~= start);
    }
}

fn unknowns_of(language: Language, before: &Signature, after: &Signature, callers: Option<&'static str>) -> (out: Vec<
    String,
>)
    ensures
        text::views(out@) == unknowns(
            language,
            before@,
            after@,
            match callers {
                Some(n) => Some(n@),
                None => None,
            },
        ),
{
    broadcast use text::group_views;
    let mut notes: Vec<String> = Vec::new();
    notes.push(SYNTAX_NOTE.to_string());
    assert(text::views(notes@) =~= seq![SYNTAX_NOTE@]);
    note_if(&mut notes, language == Language::C || language == Language::Cpp, C_NOTE);
    note_if(&mut notes, before.arity.is_none() || after.arity.is_none(), ARITY_NOTE);
    note_if(&mut notes, before.visibility.is_none() || after.visibility.is_none(), VISIBILITY_NOTE);
    match callers {
        Some(n) => note_if(&mut notes, true, n),
        None => note_if(&mut notes, false, ""),
    }
    notes
}

/// Only white space stands between two positions.
pub open spec fn blank(t: SyntaxTree, from: int, to: int) -> bool {
    text::trimmed(t.source().subrange(from, to)).len() == 0
}

/// Why a replacement is refused once it has been parsed.
pub open spec fn replacement_fault(
    t: SyntaxTree,
    old_node: int,
    new: SyntaxTree,
    faulty: bool,
    symbol: Seq<char>,
    len: nat,
) -> Option<EditRefusal> {
    let found = replacements(t, old_node, new, len);
    let start = t.nodes()[old_node].start as int;
    if faulty {
        Some(EditRefusal::ReplacementSyntaxErrors)
    } else if found.len() != 1 {
        Some(EditRefusal::NotOneReplacement)
    } else if edit_check::declared_name(new, found[0] as int) != Some(symbol) {
        Some(EditRefusal::NameChanged)
    } else if !(blank(new, start, new.nodes()[found[0] as int].start as int) && blank(
        new,
        new.nodes()[found[0] as int].end as int,
        start + len,
    )) {
        Some(EditRefusal::MoreThanTheDeclaration)
    } else {
        None
    }
}

/// The report speaks of replacing `old_node` of one tree by `new_node` of the
/// other.
pub open spec fn reports(
    r: EditCheckReport,
    t: SyntaxTree,
    old_node: int,
    new: SyntaxTree,
    new_node: int,
    language: Language,
    file: Seq<char>,
    symbol: Seq<char>,
) -> bool {
    let before = edit_check::signature_at(t, language, old_node);
    let after = edit_check::signature_at(new, language, new_node);
    let blind = edit_callers::blind_spot(t, language, old_node);
    &&& r.file@ == file
    &&& r.symbol@ == symbol
    &&& r.line == t.nodes()[old_node].row + 1
    &&& r.before@ == before
    &&& r.after@ == after
    &&& r.arity_changed == (before.arity != after.arity)
    &&& r.visibility_changed == (before.visibility != after.visibility)
    &&& text::views(r.overloads_before@) == overloads(t, language, symbol, t.scope(old_node))
    &&& text::views(r.overloads_after@) == overloads(new, language, symbol, new.scope(new_node))
    &&& r.overloads_changed == (text::views(r.overloads_before@) != text::views(r.overloads_after@))
    &&& text::views(r.unknown@) == unknowns(language, before, after, blind)
    &&& r.counts_floor
    &&& blind is Some ==> r.incompatible_callers@.len() == 0 && !r.callers_truncated
    &&& blind is None ==> exists|c: Change|
        {
            &&& c.target == old_node
            &&& c.symbol@ == symbol
            &&& c.file@ == file
            &&& Some(text::views(c.modules@)) == edit_callers::modules(t, old_node)
            &&& c.before@ == before
            &&& c.after@ == after
            &&& listed(r, #[trigger] edit_callers::problems(t, c, t.walk(0)))
        }
}

/// The report lists the first of these problems, as many as it may.
pub open spec fn listed(r: EditCheckReport, all: Seq<CallerView>) -> bool {
    &&& r.callers_truncated == (all.len() > edit_check::MAX_CALLERS)
    &&& text::views(r.incompatible_callers@) == (if all.len() > edit_check::MAX_CALLERS {
        all.take(edit_check::MAX_CALLERS as int)
    } else {
        all
    })
}

fn is_blank(t: &SyntaxTree, from: usize, to: usize) -> (r: bool)
    requires
        from <= to <= t.source().len(),
    ensures
        r == blank(*t, from as int, to as int),
{
    let s = t.slice(from, to);
    trim(s.as_str()).unicode_len() == 0
}

fn accepted_replacement(t: &SyntaxTree, old_node: usize, new: &SyntaxTree, faulty: bool, symbol: &str, len: usize) -> (out:
    Result<usize, EditRefusal>)
    requires
        t.wf(),
        new.wf(),
        old_node < t.nodes().len(),
        t.nodes()[old_node as int].start + len <= new.source().len(),
    ensures
        match out {
            Ok(n) => replacement_fault(*t, old_node as int, *new, faulty, symbol@, len as nat) is None && n
                < new.nodes().len() && replacements(*t, old_node as int, *new, len as nat) == seq![n],
            Err(e) => replacement_fault(*t, old_node as int, *new, faulty, symbol@, len as nat) == Some(e),
        },
{
    if faulty {
        return Err(EditRefusal::ReplacementSyntaxErrors);
    }
    proof {
        new.lemma_source_fits();
    }
    let found = replacements_of(t, old_node, new, len);
    if found.len() != 1 {
        return Err(EditRefusal::NotOneReplacement);
    }
    let n: usize = found[0];
    assert(found@ =~= seq![n]);
    let named = match name_of(new, n) {
        Some(name) => same(name.as_str(), symbol),
        None => false,
    };
    if !named {
        return Err(EditRefusal::NameChanged);
    }
    assert(syntax::node_fits(new.nodes(), new.source().len(), n as int));
    let start: usize = t.node(old_node).start;
    if !(is_blank(new, start, new.node(n).start) && is_blank(new, new.node(n).end, start + len)) {
        return Err(EditRefusal::MoreThanTheDeclaration);
    }
    Ok(n)
}

/// Compares a declaration with its replacement. `new` is the parsed source with
/// the replacement in place; `faulty` says that it has syntax errors.
pub fn check_source(
    t: &SyntaxTree,
    old_node: usize,
    new: &SyntaxTree,
    faulty: bool,
    language: Language,
    file: &str,
    symbol: &str,
    replacement: &str,
) -> (out: Result<EditCheckReport, EditRefusal>)
    requires
        t.wf(),
        new.wf(),
        old_node < t.nodes().len(),
        new.source() == proposed(*t, old_node as int, replacement@),
    ensures
        ({
            let fault = replacement_fault(*t, old_node as int, *new, faulty, symbol@, replacement@.len());
            match out {
                Err(e) => fault == Some(e),
                Ok(r) => {
                    &&& fault is None
                    &&& r.head@.len() == 0
                    &&& !r.worktree_matches_head
                    &&& reports(
                        r,
                        *t,
                        old_node as int,
                        *new,
                        replacements(*t, old_node as int, *new, replacement@.len())[0] as int,
                        language,
                        file@,
                        symbol@,
                    )
                },
            }
        }),
{
    assert(syntax::node_fits(t.nodes(), t.source().len(), old_node as int));
    let len: usize = replacement.unicode_len();
    let n = match accepted_replacement(t, old_node, new, faulty, symbol, len) {
        Ok(n) => n,
        Err(e) => {
            return Err(e);
        },
    };
    let overloads_before = overloads_of(t, language, symbol, &t.scope_of(old_node));
    let overloads_after = overloads_of(new, language, symbol, &new.scope_of(n));
    let change = Change {
        target: old_node,
        symbol: symbol.to_string(),
        file: file.to_string(),
        modules: Vec::new(),
        before: signature(t, old_node, language),
        after: signature(new, n, language),
    };
    let (change, found, note) = rust_callers(t, language, change);
    let ghost all = edit_callers::problems(*t, change, t.walk(0));
    let unknown = unknowns_of(language, &change.before, &change.after, note);
    let r = EditCheckReport {
        head: "".to_string(),
        file: file.to_string(),
        symbol: symbol.to_string(),
        line: t.node(old_node).row + 1,
        worktree_matches_head: false,
        arity_changed: !same_arity(change.before.arity, change.after.arity),
        visibility_changed: !same_opt(&change.before.visibility, &change.after.visibility),
        overloads_changed: !same_signatures(&overloads_before, &overloads_after),
        before: change.before,
        after: change.after,
        overloads_before,
        overloads_after,
        incompatible_callers: found.callers,
        callers_truncated: found.truncated,
        unknown,
        counts_floor: true,
    };
    proof {
        reveal_strlit("");
        if note is None {
            assert(listed(r, all));
        }
    }
    Ok(r)
}

/// What a parser makes of a source in one language.
pub type Parse = spec_fn(Seq<char>) -> SyntaxTree;

/// Putting a text in its own place changes nothing.
proof fn lemma_proposed_itself(t: SyntaxTree, old_node: int)
    requires
        t.wf(),
        0 <= old_node < t.nodes().len(),
    ensures
        proposed(
            t,
            old_node,
            t.source().subrange(t.nodes()[old_node].start as int, t.nodes()[old_node].end as int),
        ) == t.source(),
{
    assert(syntax::node_fits(t.nodes(), t.source().len(), old_node));
    let node = t.nodes()[old_node];
    assert(proposed(t, old_node, t.source().subrange(node.start as int, node.end as int)) =~= t.source());
}

proof fn lemma_no_problems(t: SyntaxTree, c: Change, places: Seq<usize>)
    requires
        c.before@ == c.after@,
    ensures
        edit_callers::problems(t, c, places).len() == 0,
    decreases places.len(),
{
    if places.len() > 0 {
        lemma_no_problems(t, c, places.drop_last());
        edit_callers::law_an_unchanged_signature_breaks_no_caller(t, c, places.last() as int);
    }
}

/// The one declaration that is meant stands in the tree.
proof fn lemma_selected_stands(t: SyntaxTree, symbol: Seq<char>, line: Option<usize>, n: usize)
    requires
        selected(t, symbol, line) == seq![n],
    ensures
        t.walk(0).contains(n),
        edit_check::declares(t, n as int, symbol),
{
    let wanted = |n: usize|
        edit_check::declares(t, n as int, symbol) && (line matches Some(l) ==> t.nodes()[n as int].row + 1 == l);
    assert(t.walk(0).filter(wanted) == seq![n]);
    assert(t.walk(0).filter(wanted)[0] == n);
    t.walk(0).lemma_filter_contains_rev(wanted, n);
}

/// A declaration is among its own replacements.
proof fn lemma_replaces_itself(t: SyntaxTree, old_node: usize, len: nat)
    requires
        t.walk(0).contains(old_node),
        edit_check::declares_function(t, old_node as int),
        t.nodes()[old_node as int].end <= t.nodes()[old_node as int].start + len,
    ensures
        replacements(t, old_node as int, t, len).contains(old_node),
{
    let start = t.nodes()[old_node as int].start;
    let fits = |n: usize|
        edit_check::declares_function(t, n as int) && t.nodes()[n as int].start >= start && t.nodes()[n as int].end
            <= start + len && t.scope(n as int) == t.scope(old_node as int);
    let k = choose|k: int| 0 <= k < t.walk(0).len() && t.walk(0)[k] == old_node;
    assert(fits(t.walk(0)[k]));
    t.walk(0).lemma_filter_contains(fits, k);
    assert(replacements(t, old_node as int, t, len) == t.walk(0).filter(fits));
}

/// A declaration replaced by its own text is reported as unchanged: the
/// signatures and the overloads are the same, and no caller is incompatible.
pub proof fn law_replacing_a_declaration_by_itself_changes_nothing(
    parse: Parse,
    t: SyntaxTree,
    old_node: usize,
    new: SyntaxTree,
    line: Option<usize>,
    language: Language,
    file: Seq<char>,
    symbol: Seq<char>,
    replacement: Seq<char>,
    r: EditCheckReport,
)
    requires
        t.wf(),
        old_node < t.nodes().len(),
        t == parse(t.source()),
        new == parse(proposed(t, old_node as int, replacement)),
        selected(t, symbol, line) == seq![old_node],
        replacement == t.source().subrange(
            t.nodes()[old_node as int].start as int,
            t.nodes()[old_node as int].end as int,
        ),
        replacement_fault(t, old_node as int, new, false, symbol, replacement.len()) is None,
        reports(
            r,
            t,
            old_node as int,
            new,
            replacements(t, old_node as int, new, replacement.len())[0] as int,
            language,
            file,
            symbol,
        ),
    ensures
        r.before@ == r.after@,
        text::views(r.overloads_before@) == text::views(r.overloads_after@),
        !r.arity_changed,
        !r.visibility_changed,
        !r.overloads_changed,
        r.incompatible_callers@.len() == 0,
        !r.callers_truncated,
        r.counts_floor,
{
    lemma_proposed_itself(t, old_node as int);
    assert(new == t);
    assert(syntax::node_fits(t.nodes(), t.source().len(), old_node as int));
    lemma_selected_stands(t, symbol, line, old_node);
    lemma_replaces_itself(t, old_node, replacement.len());
    let found = replacements(t, old_node as int, new, replacement.len());
    assert(found.len() == 1);
    assert(found.contains(old_node));
    assert(found[0] == old_node);
    assert forall|c: Change| c.before@ == c.after@ implies (#[trigger] edit_callers::problems(t, c, t.walk(0))).len()
        == 0 by {
        lemma_no_problems(t, c, t.walk(0));
    }
}

/// Completes a report with the head commit and whether the working file is
/// what the head commit holds.
pub fn complete(report: EditCheckReport, head: &str, worktree_matches_head: bool) -> (out: EditCheckReport)
    ensures
        out.head@ == head@,
        out.worktree_matches_head == worktree_matches_head,
        text::views(out.unknown@) == text::views(report.unknown@) + noted(!worktree_matches_head, WORKTREE_NOTE@),
        out == (EditCheckReport {
            head: out.head,
            worktree_matches_head: out.worktree_matches_head,
            unknown: out.unknown,
            ..report
        }),
{
    let mut out = report;
    out.head = head.to_string();
    out.worktree_matches_head = worktree_matches_head;
    note_if(&mut out.unknown, !worktree_matches_head, WORKTREE_NOTE);
    out
}

} // verus!
