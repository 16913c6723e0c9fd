//! Checking a proposed declaration against the one it replaces: how the
//! signature changes, and which callers in the same file cannot follow.
use vstd::prelude::*;
use vstd::string::*;
use crate::syntax;
use crate::syntax::{Language, SyntaxTree};
use crate::text;
use crate::text::{drop_trailing, has, is_uppercase, join, same, trim_end, words_of};

verus! {

/// Largest source that is looked at, in bytes.
pub const MAX_SOURCE_BYTES: usize = 1_048_576;

/// Most incompatible callers that are listed.
pub const MAX_CALLERS: usize = 100;

/// How many arguments a declaration takes; without a maximum, any number from
/// the minimum on.
#[derive(Debug, Clone, Copy, PartialEq, Eq, Structural)]
pub struct Arity {
    pub minimum: usize,
    pub maximum: Option<usize>,
}

/// What a declaration says to its callers.
#[derive(Debug)]
pub struct Signature {
    pub declaration: String,
    pub arity: Option<Arity>,
    pub visibility: Option<String>,
}

pub struct SignatureView {
    pub declaration: Seq<char>,
    pub arity: Option<Arity>,
    pub visibility: Option<Seq<char>>,
}

impl View for Signature {
    type V = SignatureView;

    open spec fn view(&self) -> SignatureView {
        SignatureView {
            declaration: self.declaration@,
            arity: self.arity,
            visibility: text::view_opt(self.visibility),
        }
    }
}

// ---------------------------------------------------------------------------
// Declarations in a tree
// ---------------------------------------------------------------------------

/// The node that a declaration's declarator leads to next.
pub open spec fn next_declarator(t: SyntaxTree, i: int) -> Option<usize> {
    match t.field(i, "declarator"@) {
        Some(c) => Some(c),
        None => if t.kind(i) == "reference_declarator"@ && t.children(i).len() > 0 {
            Some(t.children(i)[0])
        } else {
            None
        },
    }
}

/// The innermost declarator of a node, or the first function declarator on the
/// way there.
pub open spec fn declarator(t: SyntaxTree, i: int) -> int
    decreases t.nodes().len() - i,
    when 0 <= i < t.nodes().len()
{
    match next_declarator(t, i) {
        Some(n) => if i < n < t.nodes().len() {
            if t.kind(n as int) == "function_declarator"@ {
                n as int
            } else {
                declarator(t, n as int)
            }
        } else {
            i
        },
        None => i,
    }
}

fn next_declarator_of(t: &SyntaxTree, i: usize) -> (out: Option<usize>)
    requires
        t.wf(),
        i < t.nodes().len(),
    ensures
        out == next_declarator(*t, i as int),
        out matches Some(n) ==> i < n < t.nodes().len(),
{
    match t.field_of(i, "declarator") {
        Some(c) => Some(c),
        None => if t.is_kind(i, "reference_declarator") {
            let kids = t.children_of(i);
            if kids.len() > 0 {
                Some(kids[0])
            } else {
                None
            }
        } else {
            None
        },
    }
}

fn declarator_of(t: &SyntaxTree, i: usize) -> (out: usize)
    requires
        t.wf(),
        i < t.nodes().len(),
    ensures
        out == declarator(*t, i as int),
        i <= out < t.nodes().len(),
    decreases t.nodes().len() - i,
{
    match next_declarator_of(t, i) {
        Some(n) => if t.is_kind(n, "function_declarator") {
            n
        } else {
            declarator_of(t, n)
        },
        None => i,
    }
}

/// Kinds of nodes that declare a function in themselves.
pub open spec fn function_kind(k: Seq<char>) -> bool {
    k == "function_item"@ || k == "function_definition"@ || k == "function_declaration"@ || k == "method_declaration"@
        || k == "method_definition"@ || k == "function_signature"@ || k == "method_signature"@
}

/// Kinds of nodes that a function declarator can name.
pub open spec fn name_kind(k: Seq<char>) -> bool {
    k == "identifier"@ || k == "field_identifier"@ || k == "qualified_identifier"@ || k == "scoped_identifier"@ || k
        == "operator_name"@ || k == "destructor_name"@
}

/// A node declares a function.
pub open spec fn declares_function(t: SyntaxTree, i: int) -> bool {
    function_kind(t.kind(i)) || ((t.kind(i) == "declaration"@ || t.kind(i) == "field_declaration"@) && t.kind(
        declarator(t, i),
    ) == "function_declarator"@ && match t.field(declarator(t, i), "declarator"@) {
        Some(n) => name_kind(t.kind(n as int)),
        None => false,
    })
}

fn is_function_kind(t: &SyntaxTree, i: usize) -> (r: bool)
    requires
        i < t.nodes().len(),
    ensures
        r == function_kind(t.kind(i as int)),
{
    t.is_kind(i, "function_item") || t.is_kind(i, "function_definition") || t.is_kind(i, "function_declaration")
        || t.is_kind(i, "method_declaration") || t.is_kind(i, "method_definition") || t.is_kind(i, "function_signature")
        || t.is_kind(i, "method_signature")
}

fn is_name_kind(t: &SyntaxTree, i: usize) -> (r: bool)
    requires
        i < t.nodes().len(),
    ensures
        r == name_kind(t.kind(i as int)),
{
    t.is_kind(i, "identifier") || t.is_kind(i, "field_identifier") || t.is_kind(i, "qualified_identifier") || t.is_kind(
        i,
        "scoped_identifier",
    ) || t.is_kind(i, "operator_name") || t.is_kind(i, "destructor_name")
}

pub fn is_function(t: &SyntaxTree, i: usize) -> (r: bool)
    requires
        t.wf(),
        i < t.nodes().len(),
    ensures
        r == declares_function(*t, i as int),
{
    if is_function_kind(t, i) {
        return true;
    }
    if !(t.is_kind(i, "declaration") || t.is_kind(i, "field_declaration")) {
        return false;
    }
    let d: usize = declarator_of(t, i);
    if !t.is_kind(d, "function_declarator") {
        return false;
    }
    match t.field_of(d, "declarator") {
        Some(n) => is_name_kind(t, n),
        None => false,
    }
}

/// The name that a declaration gives.
pub open spec fn declared_name(t: SyntaxTree, i: int) -> Option<Seq<char>> {
    match t.field(i, "name"@) {
        Some(n) => Some(t.text(n as int)),
        None => match t.field(declarator(t, i), "declarator"@) {
            Some(n) => Some(t.text(n as int)),
            None => None,
        },
    }
}

pub fn name_of(t: &SyntaxTree, i: usize) -> (out: Option<String>)
    requires
        t.wf(),
        i < t.nodes().len(),
    ensures
        text::view_opt(out) == declared_name(*t, i as int),
{
    match t.field_of(i, "name") {
        Some(n) => Some(t.text_of(n)),
        None => match t.field_of(declarator_of(t, i), "declarator") {
            Some(n) => Some(t.text_of(n)),
            None => None,
        },
    }
}

/// A node declares a function of this name.
pub open spec fn declares(t: SyntaxTree, i: int, symbol: Seq<char>) -> bool {
    declares_function(t, i) && declared_name(t, i) == Some(symbol)
}

pub fn is_declared(t: &SyntaxTree, i: usize, symbol: &str) -> (r: bool)
    requires
        t.wf(),
        i < t.nodes().len(),
    ensures
        r == declares(*t, i as int, symbol@),
{
    is_function(t, i) && match name_of(t, i) {
        Some(n) => same(n.as_str(), symbol),
        None => false,
    }
}

// ---------------------------------------------------------------------------
// Arity
// ---------------------------------------------------------------------------

pub open spec fn comment_kind(k: Seq<char>) -> bool {
    k == "comment"@ || k == "line_comment"@ || k == "block_comment"@
}

/// Kinds of parameters that no count of arguments can speak for.
pub open spec fn separator_kind(k: Seq<char>) -> bool {
    k == "positional_separator"@ || k == "keyword_separator"@ || k == "dictionary_splat_pattern"@ || k
        == "list_splat_pattern"@
}

/// Kinds of parameters that a call may leave out.
pub open spec fn optional_kind(k: Seq<char>) -> bool {
    k == "default_parameter"@ || k == "typed_default_parameter"@ || k == "optional_parameter"@ || k
        == "assignment_pattern"@ || k == "optional_parameter_declaration"@
}

/// Some of these nodes is of a kind.
pub open spec fn some_kind(t: SyntaxTree, places: Seq<usize>, kind: Seq<char>) -> bool {
    exists|k: int| 0 <= k < places.len() && t.kind(#[trigger] places[k] as int) == kind
}

/// The parameter takes any number of arguments.
pub open spec fn variadic(t: SyntaxTree, p: int) -> bool {
    text::contains(t.kind(p), "variadic"@) || t.kind(p) == "rest_pattern"@ || t.kind(p) == "spread_parameter"@
        || some_kind(t, t.children(p), "rest_pattern"@)
}

/// The parameter stands for the object that a method is called on.
pub open spec fn receiver(t: SyntaxTree, language: Language, p: int) -> bool {
    t.kind(p) == "self_parameter"@ || (language == Language::TypeScript && match t.field(p, "pattern"@) {
        Some(n) => t.text(n as int) == "this"@,
        None => false,
    })
}

pub open spec fn optional(t: SyntaxTree, p: int) -> bool {
    optional_kind(t.kind(p)) || t.field(p, "default_value"@) is Some || t.field(p, "value"@) is Some
}

/// How many of these nodes fill the field `name`.
pub open spec fn names_among(t: SyntaxTree, places: Seq<usize>) -> nat
    decreases places.len(),
{
    if places.len() == 0 {
        0
    } else {
        names_among(t, places.drop_last()) + (if text::view_opt(t.nodes()[places.last() as int].field) == Some(
            "name"@,
        ) {
            1nat
        } else {
            0
        })
    }
}

/// How many arguments a parameter takes: Go declares several names at once.
pub open spec fn arguments(t: SyntaxTree, language: Language, p: int) -> nat {
    let names = names_among(t, t.nodes()[p].children@);
    if language == Language::Go && names > 1 {
        names
    } else {
        1
    }
}

/// The least and the most arguments once a parameter is added to others, or
/// nothing where counts say nothing.
pub open spec fn with_parameter(t: SyntaxTree, language: Language, sofar: Option<(nat, Option<nat>)>, p: int) -> Option<
    (nat, Option<nat>),
> {
    match sofar {
        None => None,
        Some((min, max)) => if comment_kind(t.kind(p)) {
            Some((min, max))
        } else if text::contains(t.kind(p), "attribute"@) || receiver(t, language, p) || separator_kind(t.kind(p)) {
            None
        } else if t.text(p) == "void"@ && (language == Language::C || language == Language::Cpp) {
            Some((min, max))
        } else if variadic(t, p) {
            Some((min, None))
        } else {
            match (max, optional(t, p)) {
                (Some(m), true) => Some((min, Some(m + arguments(t, language, p)))),
                (Some(m), false) => Some((m + arguments(t, language, p), Some(m + arguments(t, language, p)))),
                (None, true) => Some((min, None)),
                (None, false) => None,
            }
        },
    }
}

pub open spec fn counted(t: SyntaxTree, language: Language, params: Seq<usize>) -> Option<(nat, Option<nat>)>
    decreases params.len(),
{
    if params.len() == 0 {
        Some((0nat, Some(0nat)))
    } else {
        with_parameter(t, language, counted(t, language, params.drop_last()), params.last() as int)
    }
}

/// The number of arguments that a parameter list takes, where syntax can tell.
/// C leaves an empty list open; JavaScript takes too few and too many.
pub open spec fn arity(t: SyntaxTree, language: Language, params: int) -> Option<(nat, Option<nat>)> {
    match counted(t, language, t.children(params)) {
        None => None,
        Some((min, max)) => if language == Language::C && t.children(params).len() == 0 {
            None
        } else if language == Language::JavaScript {
            None
        } else if language == Language::Php || some_kind(t, t.nodes()[params].children@, "..."@) {
            Some((min, None))
        } else {
            Some((min, max))
        },
    }
}

pub open spec fn arity_view(a: Option<Arity>) -> Option<(nat, Option<nat>)> {
    match a {
        Some(a) => Some(
            (
                a.minimum as nat,
                match a.maximum {
                    Some(m) => Some(m as nat),
                    None => None,
                },
            ),
        ),
        None => None,
    }
}

fn any_kind(t: &SyntaxTree, places: &Vec<usize>, kind: &str) -> (r: bool)
    requires
        forall|k: int| 0 <= k < places@.len() ==> #[trigger] places@[k] < t.nodes().len(),
    ensures
        r == some_kind(*t, places@, kind@),
{
    let mut k: usize = 0;
    while k < places.len()
        invariant
            k <= places@.len(),
            forall|j: int| 0 <= j < places@.len() ==> #[trigger] places@[j] < t.nodes().len(),
            forall|j: int| 0 <= j < k ==> t.kind(#[trigger] places@[j] as int) != kind@,
        decreases places@.len() - k,
    {
        if t.is_kind(places[k], kind) {
            return true;
        }
        k += 1;
    }
    false
}

/// The children of a node are known places.
proof fn lemma_children_are_places(t: SyntaxTree, i: int)
    requires
        t.wf(),
        0 <= i < t.nodes().len(),
    ensures
        forall|k: int| 0 <= k < t.nodes()[i].children@.len() ==> i < #[trigger] t.nodes()[i].children@[k] < t.nodes().len(),
{
    assert(syntax::node_fits(t.nodes(), t.source().len(), i));
    assert forall|k: int| 0 <= k < t.nodes()[i].children@.len() implies i < #[trigger] t.nodes()[i].children@[k]
        < t.nodes().len() by {
        assert(syntax::child_fits(t.nodes(), i, k));
    }
}

/// Children come in order behind their parent, so the `m`-th stands at least
/// that far behind it.
proof fn lemma_children_spread(t: SyntaxTree, i: int, m: int)
    requires
        t.wf(),
        0 <= i < t.nodes().len(),
        0 <= m < t.nodes()[i].children@.len(),
    ensures
        t.nodes()[i].children@[m] >= i + 1 + m,
    decreases m,
{
    assert(syntax::node_fits(t.nodes(), t.source().len(), i));
    assert(syntax::child_fits(t.nodes(), i, m));
    if m > 0 {
        assert(syntax::child_fits(t.nodes(), i, m - 1));
        lemma_children_spread(t, i, m - 1);
    }
}

fn names_of(t: &SyntaxTree, p: usize) -> (n: usize)
    requires
        t.wf(),
        p < t.nodes().len(),
    ensures
        n == names_among(*t, t.nodes()[p as int].children@),
        n <= t.nodes()[p as int].children@.len(),
{
    proof {
        lemma_children_are_places(*t, p as int);
    }
    let ghost places = t.nodes()[p as int].children@;
    let node = t.node(p);
    let mut n: usize = 0;
    let mut k: usize = 0;
    while k < node.children.len()
        invariant
            t.wf(),
            p < t.nodes().len(),
            *node == t.nodes()[p as int],
            places == node.children@,
            forall|j: int| 0 <= j < places.len() ==> p < #[trigger] places[j] < t.nodes().len(),
            k <= places.len(),
            n <= k,
            n == names_among(*t, places.take(k as int)),
        decreases places.len() - k,
    {
        proof {
            assert(places.take(k + 1).drop_last() =~= places.take(k as int));
            assert(places.take(k + 1).last() == places[k as int]);
        }
        if t.fills(node.children[k], "name") {
            n += 1;
        }
        k += 1;
    }
    assert(places.take(places.len() as int) =~= places);
    n
}

fn is_receiver(t: &SyntaxTree, language: Language, p: usize) -> (r: bool)
    requires
        t.wf(),
        p < t.nodes().len(),
    ensures
        r == receiver(*t, language, p as int),
{
    t.is_kind(p, "self_parameter") || (language == Language::TypeScript && match t.field_of(p, "pattern") {
        Some(n) => same(t.text_of(n).as_str(), "this"),
        None => false,
    })
}

fn is_variadic(t: &SyntaxTree, p: usize) -> (r: bool)
    requires
        t.wf(),
        p < t.nodes().len(),
    ensures
        r == variadic(*t, p as int),
{
    has(t.node(p).kind.as_str(), "variadic") || t.is_kind(p, "rest_pattern") || t.is_kind(p, "spread_parameter")
        || any_kind(t, &t.children_of(p), "rest_pattern")
}

fn is_optional(t: &SyntaxTree, p: usize) -> (r: bool)
    requires
        t.wf(),
        p < t.nodes().len(),
    ensures
        r == optional(*t, p as int),
{
    t.is_kind(p, "default_parameter") || t.is_kind(p, "typed_default_parameter") || t.is_kind(p, "optional_parameter")
        || t.is_kind(p, "assignment_pattern") || t.is_kind(p, "optional_parameter_declaration") || t.field_of(
        p,
        "default_value",
    ).is_some() || t.field_of(p, "value").is_some()
}

/// Adds one parameter to a count.
fn add_parameter(t: &SyntaxTree, language: Language, sofar: Arity, p: usize) -> (out: Option<Arity>)
    requires
        t.wf(),
        p < t.nodes().len(),
        sofar.maximum matches Some(m) ==> m + 1 + t.nodes()[p as int].children@.len() <= usize::MAX,
    ensures
        arity_view(out) == with_parameter(*t, language, arity_view(Some(sofar)), p as int),
        out matches Some(a) ==> (a.maximum matches Some(m) ==> sofar.maximum is Some && m <= sofar.maximum->0 + (
        if t.nodes()[p as int].children@.len() > 1 {
            t.nodes()[p as int].children@.len() as int
        } else {
            1
        })),
{
    if t.is_kind(p, "comment") || t.is_kind(p, "line_comment") || t.is_kind(p, "block_comment") {
        return Some(sofar);
    }
    if has(t.node(p).kind.as_str(), "attribute") || is_receiver(t, language, p) {
        return None;
    }
    if t.is_kind(p, "positional_separator") || t.is_kind(p, "keyword_separator") || t.is_kind(
        p,
        "dictionary_splat_pattern",
    ) || t.is_kind(p, "list_splat_pattern") {
        return None;
    }
    if (language == Language::C || language == Language::Cpp) && same(t.text_of(p).as_str(), "void") {
        return Some(sofar);
    }
    if is_variadic(t, p) {
        return Some(Arity { minimum: sofar.minimum, maximum: None });
    }
    let names: usize = names_of(t, p);
    let count: usize = if language == Language::Go && names > 1 {
        names
    } else {
        1
    };
    let optional = is_optional(t, p);
    match sofar.maximum {
        Some(m) => {
            let most: usize = m + count;
            Some(
                Arity {
                    minimum: if optional {
                        sofar.minimum
                    } else {
                        most
                    },
                    maximum: Some(most),
                },
            )
        },
        None => if optional {
            Some(sofar)
        } else {
            None
        },
    }
}

/// Counts the arguments that a parameter list takes.
pub fn parameter_arity(t: &SyntaxTree, params: usize, language: Language) -> (out: Option<Arity>)
    requires
        t.wf(),
        params < t.nodes().len(),
    ensures
        arity_view(out) == arity(*t, language, params as int),
{
    proof {
        lemma_children_are_places(*t, params as int);
        assert(syntax::node_fits(t.nodes(), t.source().len(), params as int));
    }
    let ghost places = t.nodes()[params as int].children@;
    let ghost named = |c: usize| t.nodes()[c as int].named;
    let node = t.node(params);
    let mut sofar: Option<Arity> = Some(Arity { minimum: 0, maximum: Some(0) });
    let mut kids: usize = 0;
    let mut k: usize = 0;
    assert(places.take(0).filter(named) =~= Seq::<usize>::empty()) by {
        reveal(Seq::filter);
    }
    while k < node.children.len()
        invariant
            t.wf(),
            params < t.nodes().len(),
            *node == t.nodes()[params as int],
            places == node.children@,
            named == (|c: usize| t.nodes()[c as int].named),
            syntax::node_fits(t.nodes(), t.source().len(), params as int),
            forall|j: int| 0 <= j < places.len() ==> params < #[trigger] places[j] < t.nodes().len(),
            k <= places.len(),
            kids == places.take(k as int).filter(named).len(),
            kids <= k,
            arity_view(sofar) == counted(*t, language, places.take(k as int).filter(named)),
            sofar matches Some(a) ==> (a.maximum matches Some(m) ==> m <= (if k < places.len() {
                places[k as int] as int
            } else {
                t.nodes().len() as int
            })),
        decreases places.len() - k,
    {
        let c: usize = node.children[k];
        let ghost front = places.take(k as int).filter(named);
        let ghost n = t.nodes()[c as int].children@.len();
        proof {
            reveal(Seq::filter);
            assert(places.take(k + 1).drop_last() =~= places.take(k as int));
            assert(places.take(k + 1).last() == c);
            assert(front.push(c).drop_last() =~= front);
            assert(syntax::child_fits(t.nodes(), params as int, k as int));
            lemma_children_are_places(*t, c as int);
            if n > 0 {
                lemma_children_spread(*t, c as int, n - 1);
                assert(t.nodes()[c as int].children@[n - 1] < t.nodes().len());
                if k + 1 < places.len() {
                    assert(t.nodes()[c as int].children@[n - 1] < places[k + 1]);
                }
            }
        }
        if t.node(c).named {
            sofar = match sofar {
                Some(a) => add_parameter(t, language, a, c),
                None => None,
            };
            kids += 1;
        }
        k += 1;
    }
    assert(places.take(places.len() as int) =~= places);
    if (language == Language::C && kids == 0) || language == Language::JavaScript {
        return None;
    }
    let open = language == Language::Php || any_kind(t, &node.children, "...");
    match sofar {
        Some(a) => if open {
            Some(Arity { minimum: a.minimum, maximum: None })
        } else {
            Some(a)
        },
        None => None,
    }
}

// ---------------------------------------------------------------------------
// Signatures
// ---------------------------------------------------------------------------

/// Source without its line breaks, and without the semicolons and the space at
/// its end.
pub open spec fn flattened(source: Seq<char>) -> Seq<char> {
    text::trimmed_end(text::without_trailing(text::joined(text::words(source), " "@), ';'))
}

/// The text of a declaration, up to its body.
pub open spec fn declaration_text(t: SyntaxTree, i: int) -> Seq<char> {
    flattened(
        t.source().subrange(
            t.nodes()[i].start as int,
            match t.field(i, "body"@) {
                Some(b) => t.nodes()[b as int].start as int,
                None => t.nodes()[i].end as int,
            },
        ),
    )
}

/// The first of some nodes that holds modifiers.
pub open spec fn modifier_among(t: SyntaxTree, places: Seq<usize>) -> Option<usize>
    decreases places.len(),
{
    if places.len() == 0 {
        None
    } else if t.kind(places[0] as int) == "visibility_modifier"@ || t.kind(places[0] as int) == "modifiers"@ {
        Some(places[0])
    } else {
        modifier_among(t, places.skip(1))
    }
}

pub open spec fn access_word(w: Seq<char>) -> bool {
    w == "public"@ || w == "private"@ || w == "protected"@
}

/// The first word that sets the access, or `default`.
pub open spec fn access_among(ws: Seq<Seq<char>>) -> Seq<char>
    decreases ws.len(),
{
    if ws.len() == 0 {
        "default"@
    } else if access_word(ws[0]) {
        ws[0]
    } else {
        access_among(ws.skip(1))
    }
}

/// One of the nodes is the storage class `static`.
pub open spec fn static_among(t: SyntaxTree, places: Seq<usize>) -> bool {
    exists|k: int|
        0 <= k < places.len() && t.kind(#[trigger] places[k] as int) == "storage_class_specifier"@ && t.text(
            places[k] as int,
        ) == "static"@
}

/// Who may see a declaration, where the language says so in its syntax.
pub open spec fn visibility(t: SyntaxTree, language: Language, i: int) -> Option<Seq<char>> {
    let modifier = modifier_among(t, t.children(i));
    match language {
        Language::Rust => Some(
            match modifier {
                Some(m) => t.text(m as int),
                None => "private"@,
            },
        ),
        Language::Java | Language::Php => Some(
            match modifier {
                Some(m) => access_among(text::words(t.text(m as int))),
                None => "default"@,
            },
        ),
        Language::Go => match declared_name(t, i) {
            Some(n) => Some(
                if n.len() > 0 && text::uppercase(n[0]) {
                    "exported"@
                } else {
                    "unexported"@
                },
            ),
            None => None,
        },
        Language::C => Some(
            if static_among(t, t.children(i)) {
                "internal"@
            } else {
                "external"@
            },
        ),
        _ => None,
    }
}

/// The parameter list of a declaration.
pub open spec fn parameters(t: SyntaxTree, i: int) -> Option<usize> {
    match t.field(i, "parameters"@) {
        Some(p) => Some(p),
        None => t.field(declarator(t, i), "parameters"@),
    }
}

pub open spec fn declared_arity(t: SyntaxTree, language: Language, i: int) -> Option<(nat, Option<nat>)> {
    match parameters(t, i) {
        Some(p) => arity(t, language, p as int),
        None => None,
    }
}

/// A signature says what a declaration says.
pub open spec fn is_signature(s: SignatureView, t: SyntaxTree, language: Language, i: int) -> bool {
    &&& s.declaration == declaration_text(t, i)
    &&& arity_view(s.arity) == declared_arity(t, language, i)
    &&& s.visibility == visibility(t, language, i)
}

/// The signature of a declaration.
pub open spec fn signature_at(t: SyntaxTree, language: Language, i: int) -> SignatureView {
    SignatureView {
        declaration: declaration_text(t, i),
        arity: match declared_arity(t, language, i) {
            Some((min, max)) => Some(
                Arity {
                    minimum: min as usize,
                    maximum: match max {
                        Some(m) => Some(m as usize),
                        None => None,
                    },
                },
            ),
            None => None,
        },
        visibility: visibility(t, language, i),
    }
}

fn modifier_of(t: &SyntaxTree, places: &Vec<usize>) -> (out: Option<usize>)
    requires
        forall|k: int| 0 <= k < places@.len() ==> #[trigger] places@[k] < t.nodes().len(),
    ensures
        out == modifier_among(*t, places@),
        out matches Some(m) ==> m < t.nodes().len(),
{
    let mut k: usize = 0;
    assert(places@.skip(0) =~= places@);
    while k < places.len()
        invariant
            k <= places@.len(),
            forall|j: int| 0 <= j < places@.len() ==> #[trigger] places@[j] < t.nodes().len(),
            modifier_among(*t, places@) == modifier_among(*t, places@.skip(k as int)),
        decreases places@.len() - k,
    {
        assert(places@.skip(k as int).skip(1) =~= places@.skip(k + 1));
        if t.is_kind(places[k], "visibility_modifier") || t.is_kind(places[k], "modifiers") {
            return Some(places[k]);
        }
        k += 1;
    }
    assert(places@.skip(k as int).len() == 0);
    None
}

fn access_of(s: &str) -> (out: String)
    ensures
        out@ == access_among(text::words(s@)),
{
    broadcast use text::group_views;
    let ws = words_of(s);
    let ghost all = text::views(ws@);
    let mut k: usize = 0;
    assert(all.skip(0) =~= all);
    while k < ws.len()
        invariant
            k <= ws@.len(),
            all == text::views(ws@),
            all == text::words(s@),
            access_among(all) == access_among(all.skip(k as int)),
        decreases ws@.len() - k,
    {
        broadcast use text::group_views;
        assert(all.skip(k as int).skip(1) =~= all.skip(k + 1));
        assert(all.skip(k as int)[0] == ws@[k as int]@);
        let w = ws[k].as_str();
        if same(w, "public") || same(w, "private") || same(w, "protected") {
            return ws[k].clone();
        }
        k += 1;
    }
    assert(all.skip(k as int).len() == 0);
    "default".to_string()
}

fn has_static(t: &SyntaxTree, places: &Vec<usize>) -> (r: bool)
    requires
        t.wf(),
        forall|k: int| 0 <= k < places@.len() ==> #[trigger] places@[k] < t.nodes().len(),
    ensures
        r == static_among(*t, places@),
{
    let mut k: usize = 0;
    while k < places.len()
        invariant
            t.wf(),
            k <= places@.len(),
            forall|j: int| 0 <= j < places@.len() ==> #[trigger] places@[j] < t.nodes().len(),
            forall|j: int|
                0 <= j < k ==> !(t.kind(#[trigger] places@[j] as int) == "storage_class_specifier"@ && t.text(
                    places@[j] as int,
                ) == "static"@),
        decreases places@.len() - k,
    {
        if t.is_kind(places[k], "storage_class_specifier") && same(t.text_of(places[k]).as_str(), "static") {
            return true;
        }
        k += 1;
    }
    false
}

fn visibility_of(t: &SyntaxTree, i: usize, language: Language) -> (out: Option<String>)
    requires
        t.wf(),
        i < t.nodes().len(),
    ensures
        text::view_opt(out) == visibility(*t, language, i as int),
{
    let kids = t.children_of(i);
    let modifier = modifier_of(t, &kids);
    match language {
        Language::Rust => Some(
            match modifier {
                Some(m) => t.text_of(m),
                None => "private".to_string(),
            },
        ),
        Language::Java | Language::Php => Some(
            match modifier {
                Some(m) => access_of(t.text_of(m).as_str()),
                None => "default".to_string(),
            },
        ),
        Language::Go => match name_of(t, i) {
            Some(n) => Some(
                if n.as_str().unicode_len() > 0 && is_uppercase(n.as_str().get_char(0)) {
                    "exported".to_string()
                } else {
                    "unexported".to_string()
                },
            ),
            None => None,
        },
        Language::C => Some(
            if has_static(t, &kids) {
                "internal".to_string()
            } else {
                "external".to_string()
            },
        ),
        _ => None,
    }
}

/// Reads the signature of a declaration.
pub fn signature(t: &SyntaxTree, i: usize, language: Language) -> (out: Signature)
    requires
        t.wf(),
        i < t.nodes().len(),
    ensures
        is_signature(out@, *t, language, i as int),
        out@ == signature_at(*t, language, i as int),
{
    assert(syntax::node_fits(t.nodes(), t.source().len(), i as int));
    let params = match t.field_of(i, "parameters") {
        Some(p) => Some(p),
        None => t.field_of(declarator_of(t, i), "parameters"),
    };
    let arity = match params {
        Some(p) => parameter_arity(t, p, language),
        None => None,
    };
    let end: usize = match t.field_of(i, "body") {
        Some(b) => {
            assert(syntax::node_fits(t.nodes(), t.source().len(), b as int));
            t.node(b).start
        },
        None => t.node(i).end,
    };
    let source = t.slice(t.node(i).start, end);
    let line = join(&words_of(source.as_str()), " ");
    let declaration = trim_end(drop_trailing(line.as_str(), ';')).to_string();
    let visibility = visibility_of(t, i, language);
    Signature { declaration, arity, visibility }
}

/// A list without what already stood before, in order.
pub open spec fn first_seen(s: Seq<SignatureView>) -> Seq<SignatureView>
    decreases s.len(),
{
    if s.len() == 0 {
        Seq::empty()
    } else {
        let front = first_seen(s.drop_last());
        if front.contains(s.last()) {
            front
        } else {
            front.push(s.last())
        }
    }
}

pub fn same_opt(a: &Option<String>, b: &Option<String>) -> (r: bool)
    ensures
        r == (text::view_opt(*a) == text::view_opt(*b)),
{
    match (a, b) {
        (Some(x), Some(y)) => same(x.as_str(), y.as_str()),
        (None, None) => true,
        _ => false,
    }
}

pub fn same_arity(a: Option<Arity>, b: Option<Arity>) -> (r: bool)
    ensures
        r == (a == b),
{
    match (a, b) {
        (Some(x), Some(y)) => x == y,
        (None, None) => true,
        _ => false,
    }
}

fn same_signature(a: &Signature, b: &Signature) -> (r: bool)
    ensures
        r == (a@ == b@),
{
    same(a.declaration.as_str(), b.declaration.as_str()) && same_arity(a.arity, b.arity) && same_opt(
        &a.visibility,
        &b.visibility,
    )
}

/// Drops every signature that already stands before.
pub fn deduplicate_signatures(signatures: Vec<Signature>) -> (out: Vec<Signature>)
    ensures
        text::views(out@) == first_seen(text::views(signatures@)),
{
    broadcast use text::group_views;
    let ghost all = text::views(signatures@);
    let ghost items = signatures@;
    let mut out: Vec<Signature> = Vec::new();
    for s in it: signatures
        invariant
            it.seq() == items,
            all == text::views(items),
            text::views(out@) == first_seen(all.take(it.index())),
    {
        broadcast use text::group_views;
        proof {
            assert(all.take(it.index() + 1).drop_last() =~= all.take(it.index()));
            assert(all.take(it.index() + 1).last() == s@);
        }
        let mut seen = false;
        let mut k: usize = 0;
        while k < out.len() && !seen
            invariant
                k <= out@.len(),
                seen ==> text::views(out@).contains(s@),
                !seen ==> forall|j: int| 0 <= j < k ==> #[trigger] text::views(out@)[j] != s@,
            decreases out@.len() - k, (if seen { 0int } else { 1 }),
        {
            broadcast use text::group_views;
            if same_signature(&out[k], &s) {
                assert(text::views(out@)[k as int] == s@);
                seen = true;
            } else {
                k += 1;
            }
        }
        if !seen {
            out.push(s);
        }
    }
    assert(all.take(all.len() as int) =~= all);
    out
}

pub fn same_signatures(a: &Vec<Signature>, b: &Vec<Signature>) -> (r: bool)
    ensures
        r == (text::views(a@) == text::views(b@)),
{
    broadcast use text::group_views;
    if a.len() != b.len() {
        assert(text::views(a@).len() != text::views(b@).len());
        return false;
    }
    let mut k: usize = 0;
    while k < a.len()
        invariant
            a@.len() == b@.len(),
            k <= a@.len(),
            forall|j: int| 0 <= j < k ==> #[trigger] text::views(a@)[j] == text::views(b@)[j],
        decreases a@.len() - k,
    {
        broadcast use text::group_views;
        if !same_signature(&a[k], &b[k]) {
            assert(text::views(a@)[k as int] != text::views(b@)[k as int]);
            return false;
        }
        k += 1;
    }
    assert(text::views(a@) =~= text::views(b@));
    true
}

/// Deduplicated lists hold nothing twice and lose nothing.
pub proof fn law_deduplication_keeps_every_signature_once(s: Seq<SignatureView>)
    ensures
        first_seen(s).no_duplicates(),
        forall|x: SignatureView| s.contains(x) <==> #[trigger] first_seen(s).contains(x),
    decreases s.len(),
{
    if s.len() > 0 {
        let front = s.drop_last();
        law_deduplication_keeps_every_signature_once(front);
        let kept = first_seen(front);
        assert forall|x: SignatureView| s.contains(x) <==> #[trigger] first_seen(s).contains(x) by {
            if s.contains(x) {
                let i = choose|i: int| 0 <= i < s.len() && s[i] == x;
                if i < front.len() {
                    assert(front[i] == x);
                    assert(front.contains(x));
                    assert(kept.contains(x));
                    let j = choose|j: int| 0 <= j < kept.len() && kept[j] == x;
                    assert(first_seen(s)[j] == x);
                } else if !kept.contains(x) {
                    assert(first_seen(s).last() == x);
                }
            }
            if first_seen(s).contains(x) {
                let j = choose|j: int| 0 <= j < first_seen(s).len() && first_seen(s)[j] == x;
                if j < kept.len() {
                    assert(kept[j] == x);
                    assert(first_seen(front).contains(x));
                    assert(front.contains(x));
                    let i = choose|i: int| 0 <= i < front.len() && front[i] == x;
                    assert(s[i] == x);
                } else {
                    assert(s[s.len() - 1] == x);
                }
            }
        }
    }
}

} // verus!
