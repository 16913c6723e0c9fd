//! What a declaration's signature is made of.
use vstd::prelude::*;
use crate::edit_check;
use crate::edit_check::SignatureView;
use crate::edit_report;
use crate::laws::texts;
use crate::syntax::{Language, SyntaxTree};
use crate::text;

verus! {

/// A declaration is told up to its body, or whole where it has none.
pub proof fn law_a_declaration_is_told_up_to_its_body(t: SyntaxTree, i: int, a: Seq<char>, d: Seq<char>, b: Seq<char>)
    requires
        t.source() == a + d + b,
        t.nodes()[i].start == a.len(),
        t.field(i, "body"@) matches Some(n) ==> t.nodes()[n as int].start == a.len() + d.len(),
        t.field(i, "body"@) is None ==> t.nodes()[i].end == a.len() + d.len(),
    ensures
        edit_check::declaration_text(t, i) == edit_check::flattened(d),
{
    assert(t.source().subrange(a.len() as int, (a.len() + d.len()) as int) =~= d);
}

proof fn lemma_stretches_hold_no_space(s: Seq<char>)
    ensures
        text::between_spaces(s).len() > 0,
        forall|k: int, i: int|
            0 <= k < text::between_spaces(s).len() && 0 <= i < text::between_spaces(s)[k].len() ==> !text::is_space(
                #[trigger] text::between_spaces(s)[k][i],
            ),
    decreases s.len(),
{
    if s.len() > 0 {
        lemma_stretches_hold_no_space(s.drop_last());
        let front = text::between_spaces(s.drop_last());
        let out = text::between_spaces(s);
        assert forall|k: int, i: int| 0 <= k < out.len() && 0 <= i < out[k].len() implies !text::is_space(
            #[trigger] out[k][i],
        ) by {
            if k < front.len() - 1 || (k == front.len() - 1 && i < front[k].len()) {
                assert(out[k][i] == front[k][i]);
            }
        }
    } else {
        assert(text::between_spaces(s)[0].len() == 0);
    }
}

proof fn lemma_words_hold_no_space(s: Seq<char>, k: int)
    requires
        0 <= k < text::words(s).len(),
    ensures
        text::words(s)[k].len() > 0,
        !text::is_space(text::words(s)[k].last()),
{
    broadcast use {vstd::seq_lib::group_filter_ensures, vstd::seq::Seq::lemma_filter_contains_rev};

    let f = |w: Seq<char>| w.len() > 0;
    let all = text::between_spaces(s);
    let out = text::words(s);
    assert(out == all.filter(f));
    assert(f(out[k]));
    assert(out.contains(out[k]));
    assert(all.contains(out[k]));
    let j = choose|j: int| 0 <= j < all.len() && all[j] == out[k];
    lemma_stretches_hold_no_space(s);
    assert(!text::is_space(all[j][all[j].len() - 1]));
}

proof fn lemma_joined_ends(ws: Seq<Seq<char>>)
    requires
        ws.len() > 0,
        ws.last().len() > 0,
    ensures
        text::joined(ws, " "@).len() > 0,
        text::joined(ws, " "@).last() == ws.last().last(),
{
    if ws.len() == 1 {
        assert(ws.last() == ws[0]);
    }
}

/// How a declaration is laid out does not matter: its words are told with one
/// blank between, and the semicolon at its end is not.
pub proof fn law_the_layout_of_a_declaration_does_not_matter(d: Seq<char>, e: Seq<char>)
    requires
        text::words(d) == text::words(e),
        text::words(d).len() > 0,
        text::words(d).last().last() != ';',
    ensures
        edit_check::flattened(d) == text::joined(text::words(d), " "@),
        edit_check::flattened(e) == edit_check::flattened(d),
        edit_check::flattened(d + seq![' '] + seq![';']) == edit_check::flattened(d),
{
    reveal_strlit(" ");
    let ws = text::words(d);
    let s = text::joined(ws, " "@);
    lemma_words_hold_no_space(d, ws.len() - 1);
    lemma_joined_ends(ws);
    assert(text::without_trailing(s, ';') == s);
    assert(text::trimmed_end(s) == s);
    let more = text::words(d + seq![' '] + seq![';']);
    texts::law_words_are_parted_by_space(d, ' ', seq![';']);
    texts::law_a_text_without_space_is_one_word(seq![';']);
    assert(more =~= ws.push(seq![';']));
    assert(more.drop_last() =~= ws);
    let long = text::joined(more, " "@);
    assert(long =~= s + seq![' ', ';']);
    assert(long.drop_last() =~= s.push(' '));
    assert(text::without_trailing(s.push(' '), ';') == s.push(' '));
    assert(s.push(' ').drop_last() =~= s);
    assert(text::without_trailing(long, ';') == s.push(' '));
    assert(text::trimmed_end(s.push(' ')) == s);
}

/// The first word that gives access says what the access is; without one it is
/// the default.
pub proof fn law_the_first_access_word_counts(a: Seq<Seq<char>>, w: Seq<char>, b: Seq<Seq<char>>)
    requires
        forall|k: int|
            0 <= k < a.len() ==> (#[trigger] a[k]) != "public"@ && a[k] != "private"@ && a[k] != "protected"@,
        w == "public"@ || w == "private"@ || w == "protected"@,
    ensures
        edit_check::access_among(a + seq![w] + b) == w,
        edit_check::access_among(a) == "default"@,
    decreases a.len(),
{
    let all = a + seq![w] + b;
    if a.len() > 0 {
        let rest = a.skip(1);
        assert(a[0] != "public"@);
        assert forall|k: int| 0 <= k < rest.len() implies (#[trigger] rest[k]) != "public"@ && rest[k] != "private"@
            && rest[k] != "protected"@ by {
            assert(rest[k] == a[k + 1]);
        }
        law_the_first_access_word_counts(rest, w, b);
        assert(all[0] == a[0]);
        assert(all.skip(1) =~= rest + seq![w] + b);
    } else {
        assert(all[0] == w);
    }
}

/// A declarator leads to the function it declares: through other declarators,
/// and through a reference to what it refers to.
pub proof fn law_a_declarator_leads_to_its_function(t: SyntaxTree, i: int, n: usize)
    requires
        0 <= i < n < t.nodes().len(),
        t.field(i, "declarator"@) == Some(n) || (t.field(i, "declarator"@) is None && t.kind(i)
            == "reference_declarator"@ && t.children(i).len() > 0 && t.children(i)[0] == n),
    ensures
        t.kind(n as int) == "function_declarator"@ ==> edit_check::declarator(t, i) == n,
        t.kind(n as int) != "function_declarator"@ ==> edit_check::declarator(t, i) == edit_check::declarator(t, n as int),
{
}

/// The parameters of a declaration are its own, or else those of the function
/// that its declarator leads to.
pub proof fn law_a_declaration_has_its_own_parameters_first(t: SyntaxTree, language: Language, i: int, p: usize)
    ensures
        t.field(i, "parameters"@) == Some(p) ==> edit_check::declared_arity(t, language, i) == edit_check::arity(
            t,
            language,
            p as int,
        ),
        t.field(i, "parameters"@) is None && t.field(edit_check::declarator(t, i), "parameters"@) == Some(p)
            ==> edit_check::declared_arity(t, language, i) == edit_check::arity(t, language, p as int),
        t.field(i, "parameters"@) is None && t.field(edit_check::declarator(t, i), "parameters"@) is None
            ==> edit_check::declared_arity(t, language, i) is None,
{
}

/// A parameter that may be left out raises only how many arguments there may be;
/// one that takes any number leaves that open.
pub proof fn law_a_parameter_widens_what_a_call_may_give(t: SyntaxTree, p: int, min: nat, max: nat)
    requires
        !edit_check::comment_kind(t.kind(p)),
        !text::contains(t.kind(p), "attribute"@),
        t.kind(p) != "self_parameter"@,
        !edit_check::separator_kind(t.kind(p)),
    ensures
        edit_check::variadic(t, p) ==> edit_check::with_parameter(t, Language::Rust, Some((min, Some(max))), p) == Some(
            (min, None::<nat>),
        ),
        !edit_check::variadic(t, p) && (t.kind(p) == "default_parameter"@ || t.kind(p) == "typed_default_parameter"@
            || t.kind(p) == "optional_parameter"@ || t.kind(p) == "assignment_pattern"@ || t.kind(p)
            == "optional_parameter_declaration"@ || t.field(p, "default_value"@) is Some || t.field(p, "value"@) is Some)
            ==> edit_check::with_parameter(t, Language::Rust, Some((min, Some(max))), p) == Some((min, Some(max + 1))),
        !edit_check::variadic(t, p) && !(t.kind(p) == "default_parameter"@ || t.kind(p) == "typed_default_parameter"@
            || t.kind(p) == "optional_parameter"@ || t.kind(p) == "assignment_pattern"@ || t.kind(p)
            == "optional_parameter_declaration"@ || t.field(p, "default_value"@) is Some || t.field(p, "value"@) is Some)
            ==> edit_check::with_parameter(t, Language::Rust, Some((min, Some(max))), p) == Some(
            (max + 1, Some(max + 1)),
        ),
{
}

/// `n` declares the symbol in the scope with this signature.
pub open spec fn declared_so(t: SyntaxTree, language: Language, symbol: Seq<char>, scope: Seq<usize>, n: usize, s: SignatureView) -> bool {
    &&& edit_check::declares(t, n as int, symbol)
    &&& t.scope(n as int) == scope
    &&& edit_check::signature_at(t, language, n as int) == s
}

proof fn lemma_signatures_among(
    t: SyntaxTree,
    language: Language,
    symbol: Seq<char>,
    scope: Seq<usize>,
    places: Seq<usize>,
    s: SignatureView,
)
    ensures
        edit_report::signatures_among(t, language, symbol, scope, places).contains(s) <==> exists|k: int|
            0 <= k < places.len() && declared_so(t, language, symbol, scope, #[trigger] places[k], s),
    decreases places.len(),
{
    let out = edit_report::signatures_among(t, language, symbol, scope, places);
    if places.len() > 0 {
        let less = places.drop_last();
        let front = edit_report::signatures_among(t, language, symbol, scope, less);
        lemma_signatures_among(t, language, symbol, scope, less, s);
        let n = places.last();
        if out.contains(s) {
            let i = choose|i: int| 0 <= i < out.len() && out[i] == s;
            if i < front.len() {
                assert(front[i] == s);
                let k = choose|k: int|
                    0 <= k < less.len() && declared_so(t, language, symbol, scope, #[trigger] less[k], s);
                assert(places[k] == less[k]);
            } else {
                assert(declared_so(t, language, symbol, scope, places[places.len() - 1], s));
            }
        }
        if exists|k: int| 0 <= k < places.len() && declared_so(t, language, symbol, scope, #[trigger] places[k], s) {
            let k = choose|k: int|
                0 <= k < places.len() && declared_so(t, language, symbol, scope, #[trigger] places[k], s);
            if k < less.len() {
                assert(less[k] == places[k]);
                let i = choose|i: int| 0 <= i < front.len() && front[i] == s;
                assert(out[i] == s);
            } else {
                assert(out[front.len() as int] == s);
            }
        }
    }
}

/// The overloads of a symbol are the signatures of its declarations in the same
/// scope, all of them and no other.
pub proof fn law_overloads_share_name_and_scope(t: SyntaxTree, language: Language, symbol: Seq<char>, scope: Seq<usize>, s: SignatureView)
    ensures
        edit_report::overloads(t, language, symbol, scope).contains(s) <==> exists|k: int|
            0 <= k < t.walk(0).len() && declared_so(t, language, symbol, scope, #[trigger] t.walk(0)[k], s),
{
    lemma_signatures_among(t, language, symbol, scope, t.walk(0), s);
    edit_check::law_deduplication_keeps_every_signature_once(
        edit_report::signatures_among(t, language, symbol, scope, t.walk(0)),
    );
}

} // verus!
