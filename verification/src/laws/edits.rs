//! What a changed declaration means for its callers.
use vstd::prelude::*;
use crate::edit_callers;
use crate::edit_callers::{CallerView, Change};
use crate::edit_check;
use crate::edit_check::Arity;
use crate::edit_report;
use crate::edit_report::EditCheckReport;
use crate::syntax::{Language, SyntaxTree};
use crate::text;

verus! {

// ---------------------------------------------------------------------------
// Argument counts
// ---------------------------------------------------------------------------

/// A number of arguments is outgrown exactly where the declaration took it, from
/// its minimum to its maximum, and now takes fewer at most or more at least.
pub proof fn law_an_outgrown_count_was_accepted_and_is_not(before: Arity, after: Arity, n: nat)
    ensures
        before.minimum <= n && (before.maximum matches Some(m) ==> n <= m) && n < after.minimum
            ==> edit_callers::outgrown(Some(before), Some(after), n),
        before.minimum <= n && (before.maximum matches Some(m) ==> n <= m) && (after.maximum matches Some(m) && n > m)
            ==> edit_callers::outgrown(Some(before), Some(after), n),
        n < before.minimum ==> !edit_callers::outgrown(Some(before), Some(after), n),
        (before.maximum matches Some(m) && n > m) ==> !edit_callers::outgrown(Some(before), Some(after), n),
        after.minimum <= n && (after.maximum matches Some(m) ==> n <= m) ==> !edit_callers::outgrown(
            Some(before),
            Some(after),
            n,
        ),
        !edit_callers::outgrown(None, Some(after), n),
        !edit_callers::outgrown(Some(before), None, n),
{
}

/// Where a declaration takes exactly so many arguments and then exactly another
/// number, each call of the first number is outgrown, and no other.
pub proof fn law_changing_a_fixed_number_of_arguments_breaks_its_calls(before: Arity, after: Arity, b: usize, a: usize, n: nat)
    requires
        before.minimum == b,
        before.maximum == Some(b),
        after.minimum == a,
        after.maximum == Some(a),
        a != b,
    ensures
        edit_callers::outgrown(Some(before), Some(after), n) <==> n == b,
{
}

/// Every argument counts as one, and a comment between arguments as none.
pub proof fn law_comments_are_no_arguments(t: SyntaxTree, places: Seq<usize>, n: usize)
    ensures
        edit_callers::arguments_among(t, Seq::empty()) == 0,
        t.kind(n as int) == "line_comment"@ ==> edit_callers::arguments_among(t, places.push(n))
            == edit_callers::arguments_among(t, places),
        t.kind(n as int) == "block_comment"@ ==> edit_callers::arguments_among(t, places.push(n))
            == edit_callers::arguments_among(t, places),
        t.kind(n as int) != "line_comment"@ && t.kind(n as int) != "block_comment"@ ==> edit_callers::arguments_among(
            t,
            places.push(n),
        ) == edit_callers::arguments_among(t, places) + 1,
{
    assert(places.push(n).drop_last() =~= places);
}

// ---------------------------------------------------------------------------
// Paths
// ---------------------------------------------------------------------------

/// So many times `super`.
pub open spec fn supers(n: nat) -> Seq<Seq<char>> {
    Seq::new(n, |i: int| "super"@)
}

proof fn lemma_climbed(mods: Seq<Seq<char>>, n: nat, rest: Seq<Seq<char>>)
    requires
        rest.len() == 0 || rest[0] != "super"@,
    ensures
        n <= mods.len() ==> edit_callers::climbed(mods, supers(n) + rest) == Some(mods.take(mods.len() - n) + rest),
        n > mods.len() ==> edit_callers::climbed(mods, supers(n) + rest) is None,
    decreases n,
{
    let parts = supers(n) + rest;
    if n == 0 {
        assert(parts =~= rest);
        assert(mods.take(mods.len() as int) =~= mods);
    } else {
        assert(parts[0] == "super"@);
        assert(parts.skip(1) =~= supers((n - 1) as nat) + rest);
        if mods.len() > 0 {
            lemma_climbed(mods.drop_last(), (n - 1) as nat, rest);
            if n <= mods.len() {
                assert(mods.drop_last().take(mods.len() - n) =~= mods.take(mods.len() - n));
            }
        }
    }
}

/// A path leads from the modules that it stands in: `self` stays, each `super`
/// goes one module up, and the rest goes down; past the outermost module it
/// leads nowhere, and a path that starts otherwise is not certain.
pub proof fn law_paths_lead_up_and_down_the_modules(mods: Seq<Seq<char>>, n: nat, rest: Seq<Seq<char>>)
    requires
        rest.len() == 0 || rest[0] != "super"@,
    ensures
        n <= mods.len() ==> edit_callers::resolved(mods, seq!["self"@] + supers(n) + rest) == Some(
            mods.take(mods.len() - n) + rest,
        ),
        n > mods.len() ==> edit_callers::resolved(mods, seq!["self"@] + supers(n) + rest) is None,
        0 < n <= mods.len() ==> edit_callers::resolved(mods, supers(n) + rest) == Some(
            mods.take(mods.len() - n) + rest,
        ),
        n > mods.len() ==> edit_callers::resolved(mods, supers(n) + rest) is None,
        rest.len() == 0 || rest[0] != "self"@ ==> edit_callers::resolved(mods, rest) is None,
{
    reveal_strlit("self");
    reveal_strlit("super");
    assert("self"@.len() != "super"@.len());
    lemma_climbed(mods, n, rest);
    let from_self = seq!["self"@] + supers(n) + rest;
    assert(from_self[0] == "self"@);
    assert(from_self.skip(1) =~= supers(n) + rest);
    if n > 0 {
        assert((supers(n) + rest)[0] == "super"@);
    }
}

/// The modules around a node: one more below a named module, the same below
/// anything else, and none below an `impl`, a trait, a function or a block.
pub proof fn law_modules_are_the_named_modules_around(t: SyntaxTree, i: int, p: usize)
    requires
        0 <= i,
        t.nodes()[i].parent == Some(p),
        p < i,
    ensures
        t.kind(p as int) == "impl_item"@ || t.kind(p as int) == "trait_item"@ || t.kind(p as int) == "function_item"@
            || t.kind(p as int) == "block"@ ==> edit_callers::modules(t, i) is None,
        edit_callers::modules(t, p as int) is None ==> edit_callers::modules(t, i) is None,
        t.kind(p as int) == "mod_item"@ ==> (edit_callers::modules(t, p as int) matches Some(above) ==> (t.field(
            p as int,
            "name"@,
        ) matches Some(n) ==> edit_callers::modules(t, i) == Some(above.push(t.text(n as int))))),
        t.kind(p as int) == "source_file"@ || t.kind(p as int) == "declaration_list"@ ==> edit_callers::modules(t, i)
            == edit_callers::modules(t, p as int),
{
    reveal_strlit("mod_item");
    reveal_strlit("impl_item");
    reveal_strlit("trait_item");
    reveal_strlit("function_item");
    reveal_strlit("block");
    reveal_strlit("source_file");
    reveal_strlit("declaration_list");
    let k = t.kind(p as int);
    if k == "mod_item"@ {
        assert(k[0] == 'm');
        assert("impl_item"@.len() == 9 && "trait_item"@.len() == 10 && "function_item"@.len() == 13 && "block"@.len()
            == 5 && k.len() == 8);
    }
    if k == "source_file"@ {
        assert(k.len() == 11);
        assert("mod_item"@.len() == 8);
    }
    if k == "declaration_list"@ {
        assert(k.len() == 16);
        assert("mod_item"@.len() == 8);
    }
}

// ---------------------------------------------------------------------------
// Calls
// ---------------------------------------------------------------------------

/// A call outside the declaration certainly means it: the path that it names
/// leads from its modules to the declaration.
pub open spec fn certainly_calls(t: SyntaxTree, c: Change, call: int, callee: int, args: int, caller: Seq<Seq<char>>) -> bool {
    &&& !(t.nodes()[c.target as int].start <= t.nodes()[call].start && t.nodes()[call].start
        < t.nodes()[c.target as int].end)
    &&& t.field(call, "function"@) == Some(callee as usize)
    &&& t.field(call, "arguments"@) == Some(args as usize)
    &&& 0 <= callee <= usize::MAX
    &&& 0 <= args <= usize::MAX
    &&& edit_callers::modules_of_call(t, call) == Some(caller)
    &&& edit_callers::resolved(caller, text::parted(t.text(callee), "::"@)) == Some(
        text::views(c.modules@).push(c.symbol@),
    )
}

/// The declaration took so many arguments, and no longer does.
pub open spec fn no_longer_takes(before: Arity, after: Arity, n: nat) -> bool {
    &&& before.minimum <= n
    &&& before.maximum matches Some(m) ==> n <= m
    &&& n < after.minimum || (after.maximum matches Some(m) && n > m)
}

/// The declaration was public and becomes private, and the caller stands neither
/// in its module nor below it.
pub open spec fn no_longer_sees(c: Change, caller: Seq<Seq<char>>) -> bool {
    &&& c.before@.visibility == Some("pub"@)
    &&& c.after@.visibility == Some("private"@)
    &&& !(exists|below: Seq<Seq<char>>| caller == text::views(c.modules@) + below)
}

proof fn lemma_begins_with(s: Seq<Seq<char>>, p: Seq<Seq<char>>)
    ensures
        edit_callers::begins_with(s, p) <==> exists|below: Seq<Seq<char>>| s == p + below,
{
    if edit_callers::begins_with(s, p) {
        assert(s =~= p + s.skip(p.len() as int));
    }
    if exists|below: Seq<Seq<char>>| s == p + below {
        let below = choose|below: Seq<Seq<char>>| s == p + below;
        assert((p + below).take(p.len() as int) =~= p);
    }
}

/// A call that certainly means the declaration is named exactly where the
/// declaration no longer takes its arguments or is no longer seen from there.
/// What is named is the place and the text of the call.
pub proof fn law_a_call_that_no_longer_works_is_named(
    t: SyntaxTree,
    c: Change,
    call: int,
    callee: int,
    args: int,
    caller: Seq<Seq<char>>,
)
    requires
        certainly_calls(t, c, call, callee, args, caller),
    ensures
        ({
            let n = edit_callers::arguments_among(t, t.children(args));
            let p = edit_callers::problem(t, c, call);
            &&& p is Some <==> no_longer_sees(c, caller) || (c.before@.arity matches Some(b) && (c.after@.arity matches Some(
                a,
            ) && no_longer_takes(b, a, n)))
            &&& p matches Some(v) ==> v.file == c.file@ && v.line == t.nodes()[call].row + 1 && v.expression == t.text(
                callee,
            )
        }),
{
    lemma_begins_with(caller, text::views(c.modules@));
}

/// What is wrong with a named call is said: the number of its arguments, the
/// visibility, or both in this order.
pub proof fn law_a_named_call_is_told_why(t: SyntaxTree, c: Change, call: int, callee: int, args: int, caller: Seq<Seq<char>>)
    requires
        certainly_calls(t, c, call, callee, args, caller),
        edit_callers::problem(t, c, call) is Some,
    ensures
        ({
            let n = edit_callers::arguments_among(t, t.children(args));
            let counts = c.before@.arity matches Some(b) && (c.after@.arity matches Some(a) && no_longer_takes(b, a, n));
            let count = text::decimal(n) + edit_callers::COUNT_REASON@;
            edit_callers::problem(t, c, call)->0.reason == if counts && no_longer_sees(c, caller) {
                count + "; "@ + edit_callers::PRIVATE_REASON@
            } else if counts {
                count
            } else {
                edit_callers::PRIVATE_REASON@
            }
        }),
{
    lemma_begins_with(caller, text::views(c.modules@));
    let n = edit_callers::arguments_among(t, t.children(args));
    let why = edit_callers::reasons(c.before@, c.after@, n, caller, text::views(c.modules@));
    let count = text::decimal(n) + edit_callers::COUNT_REASON@;
    let counts = edit_callers::outgrown(c.before@.arity, c.after@.arity, n);
    let hidden = edit_callers::shut_out(c.before@.visibility, c.after@.visibility, caller, text::views(c.modules@));
    reveal_with_fuel(text::joined, 3);
    if counts && hidden {
        assert(why =~= seq![count, edit_callers::PRIVATE_REASON@]);
        assert(why.drop_last() =~= seq![count]);
    } else if counts {
        assert(why =~= seq![count]);
    } else {
        assert(why =~= seq![edit_callers::PRIVATE_REASON@]);
    }
}

/// A call stands in the modules of the nearest function around it.
pub proof fn law_a_call_stands_where_its_function_does(t: SyntaxTree, call: int, p: usize)
    requires
        0 < call < t.nodes().len(),
        t.nodes()[call].parent == Some(p),
        p < call,
    ensures
        t.kind(p as int) == "function_item"@ ==> edit_callers::modules_of_call(t, call) == edit_callers::modules(
            t,
            p as int,
        ),
        t.kind(p as int) != "function_item"@ ==> edit_callers::modules_of_call(t, call)
            == edit_callers::modules_of_call(t, p as int),
        t.nodes()[0].parent is None ==> edit_callers::modules_of_call(t, 0) is None,
{
}

/// A call inside the declaration, or one that does not certainly mean it, is
/// never named.
pub proof fn law_an_uncertain_call_is_never_named(t: SyntaxTree, c: Change, call: int)
    requires
        edit_callers::problem(t, c, call) is Some,
    ensures
        exists|callee: int, args: int, caller: Seq<Seq<char>>|
            #![trigger certainly_calls(t, c, call, callee, args, caller)]
            certainly_calls(t, c, call, callee, args, caller),
{
    let callee = t.field(call, "function"@)->0 as int;
    let args = t.field(call, "arguments"@)->0 as int;
    let caller = edit_callers::modules_of_call(t, call)->0;
    assert(certainly_calls(t, c, call, callee, args, caller));
}

/// Every call among the nodes that no longer works is listed, in order, and
/// nothing else.
pub proof fn law_every_call_that_no_longer_works_is_listed(t: SyntaxTree, c: Change, places: Seq<usize>)
    ensures
        forall|k: int|
            0 <= k < places.len() && t.kind(places[k] as int) == "call_expression"@ && (#[trigger] edit_callers::problem(
                t,
                c,
                places[k] as int,
            )) is Some ==> edit_callers::problems(t, c, places).contains(
                edit_callers::problem(t, c, places[k] as int)->0,
            ),
        forall|i: int|
            0 <= i < edit_callers::problems(t, c, places).len() ==> exists|k: int|
                0 <= k < places.len() && t.kind(places[k] as int) == "call_expression"@
                    && #[trigger] edit_callers::problem(t, c, places[k] as int) == Some(
                    #[trigger] edit_callers::problems(t, c, places)[i],
                ),
    decreases places.len(),
{
    let all = edit_callers::problems(t, c, places);
    if places.len() > 0 {
        let front = places.drop_last();
        law_every_call_that_no_longer_works_is_listed(t, c, front);
        let some = edit_callers::problems(t, c, front);
        assert forall|k: int|
            0 <= k < places.len() && t.kind(places[k] as int) == "call_expression"@ && (#[trigger] edit_callers::problem(
                t,
                c,
                places[k] as int,
            )) is Some implies all.contains(edit_callers::problem(t, c, places[k] as int)->0) by {
            let p = edit_callers::problem(t, c, places[k] as int)->0;
            if k < front.len() {
                assert(front[k] == places[k]);
                assert(edit_callers::problem(t, c, front[k] as int) is Some);
                let i = choose|i: int| 0 <= i < some.len() && some[i] == p;
                assert(all[i] == p);
            } else {
                assert(all[all.len() - 1] == p);
            }
        }
        assert forall|i: int| 0 <= i < all.len() implies exists|k: int|
            0 <= k < places.len() && t.kind(places[k] as int) == "call_expression"@ && #[trigger] edit_callers::problem(
                t,
                c,
                places[k] as int,
            ) == Some(#[trigger] all[i]) by {
            if i < some.len() {
                assert(some[i] == all[i]);
                let k = choose|k: int|
                    0 <= k < front.len() && t.kind(front[k] as int) == "call_expression"@
                        && #[trigger] edit_callers::problem(t, c, front[k] as int) == Some(some[i]);
                assert(front[k] == places[k]);
                assert(edit_callers::problem(t, c, places[k] as int) == Some(all[i]));
            } else {
                let k = places.len() - 1;
                assert(edit_callers::problem(t, c, places[k] as int) == Some(all[i]));
            }
        }
    }
}

/// A report lists every incompatible caller up to a hundred, and says where it
/// left some out.
pub proof fn law_a_report_says_where_it_left_callers_out(r: EditCheckReport, all: Seq<CallerView>)
    requires
        edit_report::listed(r, all),
    ensures
        all.len() <= 100 ==> text::views(r.incompatible_callers@) == all && !r.callers_truncated,
        all.len() > 100 ==> r.incompatible_callers@.len() == 100 && r.callers_truncated,
        forall|i: int|
            0 <= i < r.incompatible_callers@.len() ==> i < all.len() && (#[trigger] r.incompatible_callers@[i])@ == all[i],
{
    broadcast use text::group_views;

    let shown = text::views(r.incompatible_callers@);
    assert(shown.len() == r.incompatible_callers@.len());
    assert forall|i: int| 0 <= i < r.incompatible_callers@.len() implies i < all.len()
        && (#[trigger] r.incompatible_callers@[i])@ == all[i] by {
        assert(shown[i] == r.incompatible_callers@[i]@);
    }
}

/// What can change the meaning of a path keeps the report from naming callers:
/// an attribute, a macro or an import anywhere in the file, a method or a nested
/// function, and any language but Rust.
pub proof fn law_no_caller_is_named_where_names_are_not_settled(t: SyntaxTree, language: Language, target: int, k: int)
    requires
        0 <= k < t.walk(0).len(),
    ensures
        language != Language::Rust ==> edit_callers::blind_spot(t, language, target) is Some,
        t.kind(t.walk(0)[k] as int) == "attribute_item"@ || t.kind(t.walk(0)[k] as int) == "inner_attribute_item"@
            || t.kind(t.walk(0)[k] as int) == "macro_invocation"@ || t.kind(t.walk(0)[k] as int) == "macro_definition"@
            || t.kind(t.walk(0)[k] as int) == "use_declaration"@ ==> edit_callers::blind_spot(t, language, target) is Some,
        edit_callers::modules(t, target) is None ==> edit_callers::blind_spot(t, language, target) is Some,
{
    if edit_callers::unsettling_kind(t.kind(t.walk(0)[k] as int)) {
        assert(edit_callers::unsettled(t));
    }
}

// ---------------------------------------------------------------------------
// Signatures
// ---------------------------------------------------------------------------

/// How parameters add up: a required one raises both bounds, an optional one only
/// the upper, a variadic one lifts the upper bound, a comment does nothing. A
/// required parameter after a variadic one cannot be counted.
pub proof fn law_parameters_add_up(t: SyntaxTree, language: Language, params: Seq<usize>, p: usize, min: nat, max: nat)
    requires
        edit_check::counted(t, language, params) == Some((min, Some(max))),
        !text::contains(t.kind(p as int), "attribute"@),
        t.text(p as int) != "void"@,
        language != Language::Go,
        language != Language::TypeScript,
    ensures
        ({
            let k = t.kind(p as int);
            let all = edit_check::counted(t, language, params.push(p));
            let plain = !text::contains(k, "variadic"@) && !(exists|j: int|
                0 <= j < t.children(p as int).len() && t.kind(#[trigger] t.children(p as int)[j] as int)
                    == "rest_pattern"@);
            &&& k == "comment"@ || k == "line_comment"@ || k == "block_comment"@ ==> all == Some((min, Some(max)))
            &&& k == "self_parameter"@ || k == "positional_separator"@ || k == "keyword_separator"@ || k
                == "dictionary_splat_pattern"@ || k == "list_splat_pattern"@ ==> all is None || k == "comment"@ || k
                == "line_comment"@ || k == "block_comment"@
            &&& k == "parameter"@ && plain && t.field(p as int, "default_value"@) is None && t.field(
                p as int,
                "value"@,
            ) is None ==> all == Some((max + 1, Some(max + 1)))
            &&& k == "parameter"@ && plain && (t.field(p as int, "default_value"@) is Some || t.field(
                p as int,
                "value"@,
            ) is Some) ==> all == Some((min, Some(max + 1)))
            &&& k == "default_parameter"@ && plain ==> all == Some((min, Some(max + 1)))
            &&& k == "optional_parameter"@ && plain ==> all == Some((min, Some(max + 1)))
            &&& k == "variadic_parameter"@ && text::contains(k, "variadic"@) ==> all == Some((min, None::<nat>))
            &&& k == "spread_parameter"@ ==> all == Some((min, None::<nat>))
            &&& k == "rest_pattern"@ ==> all == Some((min, None::<nat>))
        }),
{
    reveal_strlit("comment");
    reveal_strlit("line_comment");
    reveal_strlit("block_comment");
    reveal_strlit("self_parameter");
    reveal_strlit("positional_separator");
    reveal_strlit("keyword_separator");
    reveal_strlit("dictionary_splat_pattern");
    reveal_strlit("list_splat_pattern");
    reveal_strlit("parameter");
    reveal_strlit("default_parameter");
    reveal_strlit("typed_default_parameter");
    reveal_strlit("optional_parameter");
    reveal_strlit("assignment_pattern");
    reveal_strlit("optional_parameter_declaration");
    reveal_strlit("variadic_parameter");
    reveal_strlit("spread_parameter");
    reveal_strlit("rest_pattern");
    assert(params.push(p).drop_last() =~= params);
    let k = t.kind(p as int);
    assert("parameter"@.len() == 9 && "default_parameter"@.len() == 17 && "optional_parameter"@.len() == 18
        && "variadic_parameter"@.len() == 18 && "spread_parameter"@.len() == 16 && "rest_pattern"@.len() == 12);
    assert("comment"@.len() == 7 && "line_comment"@.len() == 12 && "block_comment"@.len() == 13
        && "self_parameter"@.len() == 14 && "positional_separator"@.len() == 20 && "keyword_separator"@.len() == 17
        && "dictionary_splat_pattern"@.len() == 24 && "list_splat_pattern"@.len() == 18);
    assert("typed_default_parameter"@.len() == 23 && "assignment_pattern"@.len() == 18
        && "optional_parameter_declaration"@.len() == 30);
    assert("default_parameter"@[0] == 'd' && "keyword_separator"@[0] == 'k');
    assert("optional_parameter"@[0] == 'o' && "list_splat_pattern"@[0] == 'l' && "variadic_parameter"@[0] == 'v'
        && "assignment_pattern"@[0] == 'a');
    assert("rest_pattern"@[0] == 'r' && "line_comment"@[0] == 'l');
}

/// In Rust a declaration without a visibility is private, and one with a
/// visibility has that text; in Go the first letter of the name decides; in C a
/// static function is internal.
pub proof fn law_visibility_follows_the_language(t: SyntaxTree, i: int)
    ensures
        (forall|k: int|
            0 <= k < t.children(i).len() ==> t.kind(#[trigger] t.children(i)[k] as int) != "visibility_modifier"@ && t.kind(
                t.children(i)[k] as int,
            ) != "modifiers"@) ==> edit_check::visibility(t, Language::Rust, i) == Some("private"@)
            && edit_check::visibility(t, Language::Java, i) == Some("default"@) && edit_check::visibility(
            t,
            Language::Php,
            i,
        ) == Some("default"@),
        t.children(i).len() > 0 && t.kind(t.children(i)[0] as int) == "visibility_modifier"@ ==> edit_check::visibility(
            t,
            Language::Rust,
            i,
        ) == Some(t.text(t.children(i)[0] as int)),
        edit_check::declared_name(t, i) matches Some(n) ==> {
            &&& n.len() > 0 && text::uppercase(n[0]) ==> edit_check::visibility(t, Language::Go, i) == Some("exported"@)
            &&& n.len() > 0 && !text::uppercase(n[0]) ==> edit_check::visibility(t, Language::Go, i) == Some(
                "unexported"@,
            )
        },
        (exists|k: int|
            0 <= k < t.children(i).len() && t.kind(#[trigger] t.children(i)[k] as int) == "storage_class_specifier"@
                && t.text(t.children(i)[k] as int) == "static"@) ==> edit_check::visibility(t, Language::C, i) == Some(
            "internal"@,
        ),
        !(exists|k: int|
            0 <= k < t.children(i).len() && t.kind(#[trigger] t.children(i)[k] as int) == "storage_class_specifier"@
                && t.text(t.children(i)[k] as int) == "static"@) ==> edit_check::visibility(t, Language::C, i) == Some(
            "external"@,
        ),
{
    lemma_no_modifier(t, t.children(i));
}

proof fn lemma_no_modifier(t: SyntaxTree, places: Seq<usize>)
    ensures
        (forall|k: int|
            0 <= k < places.len() ==> t.kind(#[trigger] places[k] as int) != "visibility_modifier"@ && t.kind(
                places[k] as int,
            ) != "modifiers"@) ==> edit_check::modifier_among(t, places) is None,
    decreases places.len(),
{
    if places.len() > 0 {
        lemma_no_modifier(t, places.skip(1));
        assert forall|k: int| 0 <= k < places.skip(1).len() implies #[trigger] places.skip(1)[k] == places[k + 1] by {
        }
    }
}

/// An arity is not known for JavaScript, nor for C without parameters; in PHP any
/// number of further arguments is taken.
pub proof fn law_some_languages_leave_the_arity_open(t: SyntaxTree, params: int)
    ensures
        edit_check::arity(t, Language::JavaScript, params) is None,
        t.children(params).len() == 0 ==> edit_check::arity(t, Language::C, params) is None,
        edit_check::arity(t, Language::Php, params) matches Some((min, max)) ==> max is None,
        edit_check::counted(t, Language::Rust, t.children(params)) matches Some((min, max)) ==> !(exists|k: int|
            0 <= k < t.nodes()[params].children@.len() && t.kind(#[trigger] t.nodes()[params].children@[k] as int)
                == "..."@) ==> edit_check::arity(t, Language::Rust, params) == Some((min, max)),
{
}

// ---------------------------------------------------------------------------
// Requests
// ---------------------------------------------------------------------------

/// A request is taken exactly where the project is absolute, the file is a path
/// below it that does not climb, and the replacement is at most a mebibyte.
pub proof fn law_a_request_stays_below_its_project(project: Seq<char>, file: Seq<char>, replacement: Seq<char>)
    ensures
        edit_report::request_fault(project, file, replacement) is None <==> {
            &&& project.len() > 0 && project[0] == '/'
            &&& file.len() > 0 && file[0] != '/'
            &&& text::pieces(file, '/')[0] != "."@
            &&& !text::pieces(file, '/').contains(".."@)
            &&& edit_report::bytes_of(replacement) <= 1_048_576
        },
{
    reveal_strlit("/");
}

/// The proposed file is the file with the declaration cut out and the replacement
/// in its place; everything around it stays.
pub proof fn law_a_proposal_replaces_the_declaration_alone(t: SyntaxTree, n: int, replacement: Seq<char>)
    requires
        0 <= t.nodes()[n].start <= t.nodes()[n].end <= t.source().len(),
    ensures
        ({
            let s = t.nodes()[n].start as int;
            let e = t.nodes()[n].end as int;
            let p = edit_report::proposed(t, n, replacement);
            &&& p.len() == t.source().len() - (e - s) + replacement.len()
            &&& p.take(s) == t.source().take(s)
            &&& p.subrange(s, s + replacement.len()) == replacement
            &&& p.skip(s + replacement.len()) == t.source().skip(e)
        }),
{
    let s = t.nodes()[n].start as int;
    let e = t.nodes()[n].end as int;
    let p = edit_report::proposed(t, n, replacement);
    assert(p.take(s) =~= t.source().take(s));
    assert(p.subrange(s, s + replacement.len()) =~= replacement);
    assert(p.skip(s + replacement.len()) =~= t.source().skip(e));
}

/// A report tells whether the accepted arguments and the visibility changed, by
/// comparing the two signatures, and every language that is not modelled is said.
pub proof fn law_a_report_tells_what_changed(
    r: EditCheckReport,
    t: SyntaxTree,
    old_node: int,
    new: SyntaxTree,
    new_node: int,
    language: Language,
    file: Seq<char>,
    symbol: Seq<char>,
)
    requires
        edit_report::reports(r, t, old_node, new, new_node, language, file, symbol),
    ensures
        r.arity_changed <==> r.before@.arity != r.after@.arity,
        r.visibility_changed <==> r.before@.visibility != r.after@.visibility,
        r.overloads_changed <==> text::views(r.overloads_before@) != text::views(r.overloads_after@),
        r.line == t.nodes()[old_node].row + 1,
        r.file@ == file,
        r.symbol@ == symbol,
        r.counts_floor,
        text::views(r.unknown@).contains(edit_report::SYNTAX_NOTE@),
        language == Language::C || language == Language::Cpp ==> text::views(r.unknown@).contains(edit_report::C_NOTE@),
        r.before@.arity is None || r.after@.arity is None ==> text::views(r.unknown@).contains(edit_report::ARITY_NOTE@),
        r.before@.visibility is None || r.after@.visibility is None ==> text::views(r.unknown@).contains(
            edit_report::VISIBILITY_NOTE@,
        ),
        language != Language::Rust ==> r.incompatible_callers@.len() == 0,
{
    let u = text::views(r.unknown@);
    let a = seq![edit_report::SYNTAX_NOTE@];
    let c = language == Language::C || language == Language::Cpp;
    let b = edit_report::noted(c, edit_report::C_NOTE@);
    let ar = r.before@.arity is None || r.after@.arity is None;
    let d = edit_report::noted(ar, edit_report::ARITY_NOTE@);
    let vi = r.before@.visibility is None || r.after@.visibility is None;
    assert(u[0] == a[0]);
    if c {
        assert(u[1] == edit_report::C_NOTE@);
    }
    if ar {
        assert(u[(a + b).len() as int] == edit_report::ARITY_NOTE@);
    }
    if vi {
        assert(u[(a + b + d).len() as int] == edit_report::VISIBILITY_NOTE@);
    }
}

/// A replacement is refused for the first of these: a syntax error, no single
/// declaration in the old scope, another name, or text around the declaration.
pub proof fn law_a_replacement_is_one_declaration_of_the_same_name(
    t: SyntaxTree,
    old_node: int,
    new: SyntaxTree,
    symbol: Seq<char>,
    len: nat,
)
    requires
        edit_report::replacement_fault(t, old_node, new, false, symbol, len) is None,
    ensures
        exists|n: usize| {
            &&& #[trigger] new.walk(0).contains(n)
            &&& edit_check::declares_function(new, n as int)
            &&& edit_check::declared_name(new, n as int) == Some(symbol)
            &&& t.nodes()[old_node].start <= new.nodes()[n as int].start
            &&& new.nodes()[n as int].end <= t.nodes()[old_node].start + len
            &&& new.scope(n as int) == t.scope(old_node)
        },
{
    broadcast use {vstd::seq_lib::group_filter_ensures, vstd::seq::Seq::lemma_filter_contains_rev};

    let found = edit_report::replacements(t, old_node, new, len);
    let n = found[0];
    assert(found.contains(found[0]));
    assert(new.walk(0).contains(n));
}

/// The symbol is looked for on its line where one is given: what is selected
/// declares the symbol there, and every such declaration is selected.
pub proof fn law_a_declaration_is_selected_by_name_and_line(t: SyntaxTree, symbol: Seq<char>, line: Option<usize>, n: usize)
    ensures
        edit_report::selected(t, symbol, line).contains(n) <==> {
            &&& t.walk(0).contains(n)
            &&& edit_check::declares_function(t, n as int)
            &&& edit_check::declared_name(t, n as int) == Some(symbol)
            &&& line matches Some(l) ==> t.nodes()[n as int].row + 1 == l
        },
{
    broadcast use {vstd::seq_lib::group_filter_ensures, vstd::seq::Seq::lemma_filter_contains_rev};

    let found = edit_report::selected(t, symbol, line);
    if found.contains(n) {
        let i = choose|i: int| 0 <= i < found.len() && found[i] == n;
        assert(edit_check::declares(t, found[i] as int, symbol));
    }
    if t.walk(0).contains(n) {
        let k = choose|k: int| 0 <= k < t.walk(0).len() && t.walk(0)[k] == n;
        assert(edit_report::selected(t, symbol, line).contains(t.walk(0)[k]) || true);
    }
}

} // verus!
