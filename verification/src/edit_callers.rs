//! Callers that a changed declaration leaves behind, as far as the syntax of one
//! file can prove it.
use vstd::prelude::*;
use vstd::string::*;
use crate::edit_check::{Arity, Signature, SignatureView, MAX_CALLERS};
use crate::syntax;
use crate::syntax::{Language, SyntaxTree};
use crate::text;
use crate::text::{concat2, decimal_of, join, same, split_str};

verus! {

/// A call that was accepted and would no longer be.
#[derive(Debug)]
pub struct IncompatibleCaller {
    pub file: String,
    pub line: usize,
    pub expression: String,
    pub reason: String,
}

pub struct CallerView {
    pub file: Seq<char>,
    pub line: nat,
    pub expression: Seq<char>,
    pub reason: Seq<char>,
}

impl View for IncompatibleCaller {
    type V = CallerView;

    open spec fn view(&self) -> CallerView {
        CallerView {
            file: self.file@,
            line: self.line as nat,
            expression: self.expression@,
            reason: self.reason@,
        }
    }
}

// ---------------------------------------------------------------------------
// Modules
// ---------------------------------------------------------------------------

/// Below such a node a path no longer names a free function.
pub open spec fn hides_modules(k: Seq<char>) -> bool {
    k == "impl_item"@ || k == "trait_item"@ || k == "function_item"@ || k == "block"@
}

/// The modules around a node, the outermost first, where only modules are.
pub open spec fn modules(t: SyntaxTree, i: int) -> Option<Seq<Seq<char>>>
    decreases i,
    when 0 <= i
{
    match t.nodes()[i].parent {
        None => Some(Seq::empty()),
        Some(p) => if p >= i || hides_modules(t.kind(p as int)) {
            None
        } else {
            match modules(t, p as int) {
                None => None,
                Some(above) => if t.kind(p as int) == "mod_item"@ {
                    match t.field(p as int, "name"@) {
                        Some(n) => Some(above.push(t.text(n as int))),
                        None => None,
                    }
                } else {
                    Some(above)
                },
            }
        },
    }
}

pub open spec fn followed_by(above: Option<Seq<Seq<char>>>, below: Seq<Seq<char>>) -> Option<Seq<Seq<char>>> {
    match above {
        Some(a) => Some(a + below),
        None => None,
    }
}

/// Names the modules around a node.
pub fn rust_modules(t: &SyntaxTree, i: usize) -> (out: Option<Vec<String>>)
    requires
        t.wf(),
        i < t.nodes().len(),
    ensures
        match out {
            Some(v) => modules(*t, i as int) == Some(text::views(v@)),
            None => modules(*t, i as int) is None,
        },
{
    broadcast use text::group_views;
    let mut out: Vec<String> = Vec::new();
    let mut at: usize = i;
    assert(followed_by(modules(*t, i as int), text::views(out@)) == modules(*t, i as int)) by {
        if let Some(a) = modules(*t, i as int) {
            assert(a + text::views(out@) =~= a);
        }
    }
    loop
        invariant
            t.wf(),
            at <= i < t.nodes().len(),
            modules(*t, i as int) == followed_by(modules(*t, at as int), text::views(out@)),
        ensures
            modules(*t, i as int) == Some(text::views(out@)),
        decreases at,
    {
        broadcast use text::group_views;
        assert(syntax::node_fits(t.nodes(), t.source().len(), at as int));
        match t.node(at).parent {
            None => {
                assert(Seq::<Seq<char>>::empty() + text::views(out@) =~= text::views(out@));
                break;
            },
            Some(p) => {
                if t.is_kind(p, "impl_item") || t.is_kind(p, "trait_item") || t.is_kind(p, "function_item") || t.is_kind(
                    p,
                    "block",
                ) {
                    return None;
                }
                if t.is_kind(p, "mod_item") {
                    match t.field_of(p, "name") {
                        Some(n) => {
                            let ghost before = text::views(out@);
                            out.insert(0, t.text_of(n));
                            proof {
                                let name = t.text(n as int);
                                assert(text::views(out@) =~= seq![name] + before);
                                if let Some(a) = modules(*t, p as int) {
                                    assert(a.push(name) + before =~= a + (seq![name] + before));
                                }
                            }
                        },
                        None => {
                            return None;
                        },
                    }
                }
                at = p;
            },
        }
    }
    Some(out)
}

/// The nearest function around a node.
pub open spec fn enclosing(t: SyntaxTree, i: int) -> Option<usize>
    decreases i,
    when 0 <= i
{
    match t.nodes()[i].parent {
        None => None,
        Some(p) => if p >= i {
            None
        } else if t.kind(p as int) == "function_item"@ {
            Some(p)
        } else {
            enclosing(t, p as int)
        },
    }
}

fn enclosing_of(t: &SyntaxTree, i: usize) -> (out: Option<usize>)
    requires
        t.wf(),
        i < t.nodes().len(),
    ensures
        out == enclosing(*t, i as int),
        out matches Some(f) ==> f < t.nodes().len(),
{
    let mut at: usize = i;
    loop
        invariant
            t.wf(),
            at <= i < t.nodes().len(),
            enclosing(*t, i as int) == enclosing(*t, at as int),
        decreases at,
    {
        assert(syntax::node_fits(t.nodes(), t.source().len(), at as int));
        match t.node(at).parent {
            None => {
                return None;
            },
            Some(p) => {
                if t.is_kind(p, "function_item") {
                    return Some(p);
                }
                at = p;
            },
        }
    }
}

// ---------------------------------------------------------------------------
// Paths
// ---------------------------------------------------------------------------

/// A path below some modules, each leading `super` one module up.
pub open spec fn climbed(mods: Seq<Seq<char>>, parts: Seq<Seq<char>>) -> Option<Seq<Seq<char>>>
    decreases parts.len(),
{
    if parts.len() > 0 && parts[0] == "super"@ {
        if mods.len() == 0 {
            None
        } else {
            climbed(mods.drop_last(), parts.skip(1))
        }
    } else {
        Some(mods + parts)
    }
}

/// Where a path leads from inside some modules; only one that starts with
/// `self` or `super` is certain.
pub open spec fn resolved(mods: Seq<Seq<char>>, parts: Seq<Seq<char>>) -> Option<Seq<Seq<char>>> {
    if parts.len() > 0 && parts[0] == "self"@ {
        climbed(mods, parts.skip(1))
    } else if parts.len() > 0 && parts[0] == "super"@ {
        climbed(mods, parts)
    } else {
        None
    }
}

fn copy_from(v: &Vec<String>, from: usize, to: usize, out: &mut Vec<String>)
    requires
        from <= to <= v@.len(),
    ensures
        text::views(final(out)@) == text::views(old(out)@) + text::views(v@).subrange(from as int, to as int),
{
    broadcast use text::group_views;
    let ghost start = text::views(out@);
    let ghost all = text::views(v@);
    let mut i: usize = from;
    assert(start + all.subrange(from as int, from as int) =~= start);
    while i < to
        invariant
            from <= i <= to <= v@.len(),
            all == text::views(v@),
            text::views(out@) == start + all.subrange(from as int, i as int),
        decreases to - i,
    {
        broadcast use text::group_views;
        assert(all.subrange(from as int, i + 1) =~= all.subrange(from as int, i as int).push(all[i as int]));
        out.push(v[i].clone());
        assert(text::views(out@) =~= start + all.subrange(from as int, i + 1));
        i += 1;
    }
}

/// Follows a path from inside some modules.
pub fn resolve(mods: &Vec<String>, parts: &Vec<String>) -> (out: Option<Vec<String>>)
    ensures
        match out {
            Some(v) => resolved(text::views(mods@), text::views(parts@)) == Some(text::views(v@)),
            None => resolved(text::views(mods@), text::views(parts@)) is None,
        },
{
    broadcast use text::group_views;
    let ghost ms = text::views(mods@);
    let ghost ps = text::views(parts@);
    if parts.len() == 0 {
        return None;
    }
    assert(ps[0] == parts@[0]@);
    let mut from: usize = if same(parts[0].as_str(), "self") {
        1
    } else if same(parts[0].as_str(), "super") {
        0
    } else {
        return None;
    };
    let mut depth: usize = mods.len();
    proof {
        assert(ps.skip(0) =~= ps);
        assert(ms.take(ms.len() as int) =~= ms);
        reveal_strlit("self");
        reveal_strlit("super");
        assert("self"@.len() != "super"@.len());
    }
    while from < parts.len() && same(parts[from].as_str(), "super")
        invariant
            ms == text::views(mods@),
            ps == text::views(parts@),
            from <= parts@.len(),
            depth <= mods@.len(),
            resolved(ms, ps) == climbed(ms.take(depth as int), ps.skip(from as int)),
        decreases parts@.len() - from,
    {
        broadcast use text::group_views;
        assert(ps.skip(from as int)[0] == parts@[from as int]@);
        if depth == 0 {
            return None;
        }
        assert(ms.take(depth as int).drop_last() =~= ms.take(depth - 1));
        assert(ps.skip(from as int).skip(1) =~= ps.skip(from + 1));
        depth -= 1;
        from += 1;
    }
    proof {
        if from < parts@.len() {
            assert(ps.skip(from as int)[0] == parts@[from as int]@);
        }
    }
    let mut out: Vec<String> = Vec::new();
    copy_from(mods, 0, depth, &mut out);
    copy_from(parts, from, parts.len(), &mut out);
    assert(text::views(out@) =~= ms.take(depth as int) + ps.skip(from as int));
    Some(out)
}

// ---------------------------------------------------------------------------
// One call
// ---------------------------------------------------------------------------

/// A declaration takes this many arguments.
pub open spec fn accepts(a: Arity, count: nat) -> bool {
    count >= a.minimum && (a.maximum matches Some(max) ==> count <= max)
}

fn does_accept(a: &Arity, count: usize) -> (r: bool)
    ensures
        r == accepts(*a, count as nat),
{
    count >= a.minimum && match a.maximum {
        Some(max) => count <= max,
        None => true,
    }
}

/// How many arguments stand among these nodes; comments are none.
pub open spec fn arguments_among(t: SyntaxTree, places: Seq<usize>) -> nat
    decreases places.len(),
{
    if places.len() == 0 {
        0
    } else {
        arguments_among(t, places.drop_last()) + (if t.kind(places.last() as int) == "line_comment"@ || t.kind(
            places.last() as int,
        ) == "block_comment"@ {
            0nat
        } else {
            1
        })
    }
}

pub const COUNT_REASON: &'static str = " arguments accepted at HEAD are outside the proposed argument count";

pub const PRIVATE_REASON: &'static str =
    "the caller is outside the newly private function's module and its descendants";

/// The number of arguments was accepted and no longer is.
pub open spec fn outgrown(before: Option<Arity>, after: Option<Arity>, count: nat) -> bool {
    match (before, after) {
        (Some(b), Some(a)) => accepts(b, count) && !accepts(a, count),
        _ => false,
    }
}

/// One list begins with another.
pub open spec fn begins_with(s: Seq<Seq<char>>, p: Seq<Seq<char>>) -> bool {
    p.len() <= s.len() && s.take(p.len() as int) == p
}

/// The function was public, becomes private, and the caller is outside.
pub open spec fn shut_out(
    before: Option<Seq<char>>,
    after: Option<Seq<char>>,
    caller: Seq<Seq<char>>,
    target: Seq<Seq<char>>,
) -> bool {
    before == Some("pub"@) && after == Some("private"@) && !begins_with(caller, target)
}

/// Why a call with this many arguments, from these modules, no longer works.
pub open spec fn reasons(
    before: SignatureView,
    after: SignatureView,
    count: nat,
    caller: Seq<Seq<char>>,
    target: Seq<Seq<char>>,
) -> Seq<Seq<char>> {
    (if outgrown(before.arity, after.arity, count) {
        seq![text::decimal(count) + COUNT_REASON@]
    } else {
        Seq::empty()
    }) + (if shut_out(before.visibility, after.visibility, caller, target) {
        seq![PRIVATE_REASON@]
    } else {
        Seq::empty()
    })
}

/// The modules that a call stands in.
pub open spec fn modules_of_call(t: SyntaxTree, call: int) -> Option<Seq<Seq<char>>> {
    match enclosing(t, call) {
        Some(f) => modules(t, f as int),
        None => None,
    }
}

/// What is changing: the declaration, its name, where it lies, and its
/// signature before and after.
pub struct Change {
    pub target: usize,
    pub symbol: String,
    pub file: String,
    pub modules: Vec<String>,
    pub before: Signature,
    pub after: Signature,
}

/// The incompatibility that a call certainly has, if it has one.
pub open spec fn problem(t: SyntaxTree, c: Change, call: int) -> Option<CallerView> {
    if t.nodes()[c.target as int].start <= t.nodes()[call].start < t.nodes()[c.target as int].end {
        None
    } else {
        match (t.field(call, "function"@), modules_of_call(t, call), t.field(call, "arguments"@)) {
            (Some(callee), Some(caller), Some(args)) => {
                let path = t.text(callee as int);
                let why = reasons(
                    c.before@,
                    c.after@,
                    arguments_among(t, t.children(args as int)),
                    caller,
                    text::views(c.modules@),
                );
                if resolved(caller, text::parted(path, "::"@)) == Some(text::views(c.modules@).push(c.symbol@))
                    && why.len() > 0 {
                    Some(
                        CallerView {
                            file: c.file@,
                            line: (t.nodes()[call].row + 1) as nat,
                            expression: path,
                            reason: text::joined(why, "; "@),
                        },
                    )
                } else {
                    None
                }
            },
            _ => None,
        }
    }
}

fn count_arguments(t: &SyntaxTree, args: usize) -> (n: usize)
    requires
        t.wf(),
        args < t.nodes().len(),
    ensures
        n == arguments_among(*t, t.children(args as int)),
{
    let places = t.children_of(args);
    let mut n: usize = 0;
    let mut k: usize = 0;
    while k < places.len()
        invariant
            k <= places@.len(),
            n <= k,
            forall|j: int| 0 <= j < places@.len() ==> args < #[trigger] places@[j] < t.nodes().len(),
            n == arguments_among(*t, places@.take(k as int)),
        decreases places@.len() - k,
    {
        proof {
            assert(places@.take(k + 1).drop_last() =~= places@.take(k as int));
            assert(places@.take(k + 1).last() == places@[k as int]);
        }
        if !(t.is_kind(places[k], "line_comment") || t.is_kind(places[k], "block_comment")) {
            n += 1;
        }
        k += 1;
    }
    assert(places@.take(places@.len() as int) =~= places@);
    n
}

fn does_begin_with(s: &Vec<String>, p: &Vec<String>) -> (r: bool)
    ensures
        r == begins_with(text::views(s@), text::views(p@)),
{
    broadcast use text::group_views;
    let ghost ss = text::views(s@);
    let ghost ps = text::views(p@);
    if p.len() > s.len() {
        return false;
    }
    let mut k: usize = 0;
    while k < p.len()
        invariant
            ss == text::views(s@),
            ps == text::views(p@),
            p@.len() <= s@.len(),
            k <= p@.len(),
            forall|j: int| 0 <= j < k ==> #[trigger] ss[j] == ps[j],
        decreases p@.len() - k,
    {
        broadcast use text::group_views;
        if !same(s[k].as_str(), p[k].as_str()) {
            assert(ss.take(ps.len() as int)[k as int] != ps[k as int]);
            return false;
        }
        assert(ss[k as int] == ps[k as int]);
        k += 1;
    }
    assert(ss.take(ps.len() as int) =~= ps);
    true
}

fn same_lists(a: &Vec<String>, b: &Vec<String>, last: &str) -> (r: bool)
    ensures
        r == (text::views(a@) == text::views(b@).push(last@)),
{
    broadcast use text::group_views;
    let ghost want = text::views(b@).push(last@);
    let n: usize = a.len();
    if n == 0 || n - 1 != b.len() {
        assert(text::views(a@).len() != want.len());
        return false;
    }
    if !same(a[n - 1].as_str(), last) {
        assert(text::views(a@)[n - 1] != want[n - 1]);
        return false;
    }
    if !does_begin_with(a, b) {
        assert(want.take(b@.len() as int) =~= text::views(b@));
        return false;
    }
    assert(text::views(a@) =~= want) by {
        assert forall|k: int| 0 <= k < n implies text::views(a@)[k] == want[k] by {
            if k < b@.len() {
                assert(text::views(a@).take(b@.len() as int)[k] == text::views(b@)[k]);
            }
        }
    }
    true
}

fn is_text(s: &Option<String>, t: &str) -> (r: bool)
    ensures
        r == (text::view_opt(*s) == Some(t@)),
{
    match s {
        Some(x) => same(x.as_str(), t),
        None => false,
    }
}

fn reasons_of(c: &Change, count: usize, caller: &Vec<String>) -> (out: Vec<String>)
    ensures
        text::views(out@) == reasons(c.before@, c.after@, count as nat, text::views(caller@), text::views(c.modules@)),
{
    broadcast use text::group_views;
    let mut out: Vec<String> = Vec::new();
    if let (Some(b), Some(a)) = (&c.before.arity, &c.after.arity) {
        if does_accept(b, count) && !does_accept(a, count) {
            out.push(concat2(decimal_of(count as u64).as_str(), COUNT_REASON));
        }
    }
    let ghost first = text::views(out@);
    assert(first =~= (if outgrown(c.before@.arity, c.after@.arity, count as nat) {
        seq![text::decimal(count as nat) + COUNT_REASON@]
    } else {
        Seq::empty()
    }));
    if is_text(&c.before.visibility, "pub") && is_text(&c.after.visibility, "private") && !does_begin_with(
        caller,
        &c.modules,
    ) {
        out.push(PRIVATE_REASON.to_string());
        assert(text::views(out@) =~= first + seq![PRIVATE_REASON@]);
    } else {
        assert(first + Seq::<Seq<char>>::empty() =~= first);
    }
    out
}

fn problem_of(t: &SyntaxTree, c: &Change, call: usize) -> (out: Option<IncompatibleCaller>)
    requires
        t.wf(),
        c.target < t.nodes().len(),
        call < t.nodes().len(),
    ensures
        match out {
            Some(p) => problem(*t, *c, call as int) == Some(p@),
            None => problem(*t, *c, call as int) is None,
        },
{
    let at: usize = t.node(call).start;
    if t.node(c.target).start <= at && at < t.node(c.target).end {
        return None;
    }
    let callee = match t.field_of(call, "function") {
        Some(n) => n,
        None => {
            return None;
        },
    };
    let caller = match enclosing_of(t, call) {
        Some(f) => match rust_modules(t, f) {
            Some(m) => m,
            None => {
                return None;
            },
        },
        None => {
            return None;
        },
    };
    let args = match t.field_of(call, "arguments") {
        Some(n) => n,
        None => {
            return None;
        },
    };
    let path = t.text_of(callee);
    proof {
        reveal_strlit("::");
    }
    match resolve(&caller, &split_str(path.as_str(), "::")) {
        Some(full) => if !same_lists(&full, &c.modules, c.symbol.as_str()) {
            return None;
        },
        None => {
            return None;
        },
    }
    let why = reasons_of(c, count_arguments(t, args), &caller);
    if why.len() == 0 {
        return None;
    }
    assert(syntax::node_fits(t.nodes(), t.source().len(), call as int));
    Some(
        IncompatibleCaller {
            file: c.file.clone(),
            line: t.node(call).row + 1,
            expression: path,
            reason: join(&why, "; "),
        },
    )
}

// ---------------------------------------------------------------------------
// All calls of a file
// ---------------------------------------------------------------------------

pub const OTHER_LANGUAGE_NOTE: &'static str =
    "Provable caller checks currently cover explicit self::/super:: paths to Rust free functions only; other languages receive declaration/overload diffs.";

pub const RESOLUTION_NOTE: &'static str =
    "Rust attributes, macros, or imports can alter name resolution; caller compatibility is unknown.";

pub const METHOD_NOTE: &'static str =
    "Rust methods and nested functions need semantic resolution; caller compatibility is unknown.";

/// Kinds of nodes that can change what a path means.
pub open spec fn unsettling_kind(k: Seq<char>) -> bool {
    k == "attribute_item"@ || k == "inner_attribute_item"@ || k == "macro_invocation"@ || k == "macro_definition"@ || k
        == "use_declaration"@
}

/// Some node of the file can change what a path means.
pub open spec fn unsettled(t: SyntaxTree) -> bool {
    exists|k: int| 0 <= k < t.walk(0).len() && unsettling_kind(t.kind(#[trigger] t.walk(0)[k] as int))
}

/// Why nothing certain can be said of the callers.
pub open spec fn blind_spot(t: SyntaxTree, language: Language, target: int) -> Option<Seq<char>> {
    if language != Language::Rust {
        Some(OTHER_LANGUAGE_NOTE@)
    } else if unsettled(t) {
        Some(RESOLUTION_NOTE@)
    } else if modules(t, target) is None {
        Some(METHOD_NOTE@)
    } else {
        None
    }
}

/// The problems of the calls among these nodes, in order.
pub open spec fn problems(t: SyntaxTree, c: Change, places: Seq<usize>) -> Seq<CallerView>
    decreases places.len(),
{
    if places.len() == 0 {
        Seq::empty()
    } else {
        let front = problems(t, c, places.drop_last());
        if t.kind(places.last() as int) == "call_expression"@ {
            match problem(t, c, places.last() as int) {
                Some(p) => front.push(p),
                None => front,
            }
        } else {
            front
        }
    }
}

fn is_unsettled(t: &SyntaxTree, nodes: &Vec<usize>) -> (r: bool)
    requires
        t.wf(),
        nodes@ == t.walk(0),
        forall|k: int| 0 <= k < nodes@.len() ==> #[trigger] nodes@[k] < t.nodes().len(),
    ensures
        r == unsettled(*t),
{
    let mut k: usize = 0;
    while k < nodes.len()
        invariant
            t.wf(),
            nodes@ == t.walk(0),
            forall|j: int| 0 <= j < nodes@.len() ==> #[trigger] nodes@[j] < t.nodes().len(),
            k <= nodes@.len(),
            forall|j: int| 0 <= j < k ==> !unsettling_kind(t.kind(#[trigger] t.walk(0)[j] as int)),
        decreases nodes@.len() - k,
    {
        let n: usize = nodes[k];
        if t.is_kind(n, "attribute_item") || t.is_kind(n, "inner_attribute_item") || t.is_kind(n, "macro_invocation")
            || t.is_kind(n, "macro_definition") || t.is_kind(n, "use_declaration") {
            assert(unsettling_kind(t.kind(t.walk(0)[k as int] as int)));
            return true;
        }
        k += 1;
    }
    false
}

/// What is known of the callers of a changed declaration.
pub struct CallerFindings {
    pub callers: Vec<IncompatibleCaller>,
    pub truncated: bool,
}

fn callers_among(t: &SyntaxTree, c: &Change, nodes: &Vec<usize>) -> (out: CallerFindings)
    requires
        t.wf(),
        c.target < t.nodes().len(),
        forall|k: int| 0 <= k < nodes@.len() ==> #[trigger] nodes@[k] < t.nodes().len(),
    ensures
        ({
            let all = problems(*t, *c, nodes@);
            &&& out.truncated == (all.len() > MAX_CALLERS)
            &&& text::views(out.callers@) == (if all.len() > MAX_CALLERS {
                all.take(MAX_CALLERS as int)
            } else {
                all
            })
        }),
{
    broadcast use text::group_views;
    let ghost all = problems(*t, *c, nodes@);
    let mut callers: Vec<IncompatibleCaller> = Vec::new();
    let mut k: usize = 0;
    while k < nodes.len()
        invariant
            t.wf(),
            c.target < t.nodes().len(),
            forall|j: int| 0 <= j < nodes@.len() ==> #[trigger] nodes@[j] < t.nodes().len(),
            k <= nodes@.len(),
            callers@.len() <= MAX_CALLERS,
            text::views(callers@) == problems(*t, *c, nodes@.take(k as int)),
        decreases nodes@.len() - k,
    {
        broadcast use text::group_views;
        proof {
            assert(nodes@.take(k + 1).drop_last() =~= nodes@.take(k as int));
            assert(nodes@.take(k + 1).last() == nodes@[k as int]);
        }
        if t.is_kind(nodes[k], "call_expression") {
            if let Some(p) = problem_of(t, c, nodes[k]) {
                if callers.len() == MAX_CALLERS {
                    proof {
                        lemma_problems_grow(*t, *c, nodes@, k + 1);
                        let some = problems(*t, *c, nodes@.take(k + 1));
                        assert(some =~= text::views(callers@).push(p@));
                        let whole = problems(*t, *c, nodes@);
                        assert(whole.take(MAX_CALLERS as int) =~= text::views(callers@)) by {
                            assert forall|j: int| 0 <= j < MAX_CALLERS implies whole[j] == text::views(callers@)[j] by {
                                assert(whole.take(some.len() as int)[j] == some[j]);
                            }
                        }
                    }
                    return CallerFindings { callers, truncated: true };
                }
                callers.push(p);
            }
        }
        k += 1;
    }
    assert(nodes@.take(nodes@.len() as int) =~= nodes@);
    CallerFindings { callers, truncated: false }
}

/// Looking at more nodes only adds problems behind those already found.
proof fn lemma_problems_grow(t: SyntaxTree, c: Change, places: Seq<usize>, k: int)
    requires
        0 <= k <= places.len(),
    ensures
        problems(t, c, places.take(k)).len() <= problems(t, c, places).len(),
        problems(t, c, places).take(problems(t, c, places.take(k)).len() as int) == problems(t, c, places.take(k)),
    decreases places.len() - k,
{
    let some = problems(t, c, places.take(k));
    if k == places.len() {
        assert(places.take(k) =~= places);
        assert(some.take(some.len() as int) =~= some);
    } else {
        lemma_problems_grow(t, c, places, k + 1);
        assert(places.take(k + 1).drop_last() =~= places.take(k));
        let more = problems(t, c, places.take(k + 1));
        let all = problems(t, c, places);
        assert(more.take(some.len() as int) =~= some);
        assert(all.take(some.len() as int) =~= all.take(more.len() as int).take(some.len() as int));
    }
}

/// Finds the callers in the file that certainly cannot follow the change, or
/// says why none can be named. The change comes back with the modules that its
/// declaration stands in.
pub fn rust_callers(t: &SyntaxTree, language: Language, change: Change) -> (out: (
    Change,
    CallerFindings,
    Option<&'static str>,
))
    requires
        t.wf(),
        change.target < t.nodes().len(),
    ensures
        match out.2 {
            Some(note) => blind_spot(*t, language, change.target as int) == Some(note@) && out.1.callers@.len() == 0
                && !out.1.truncated && out.0 == change,
            None => {
                &&& blind_spot(*t, language, change.target as int) is None
                &&& Some(text::views(out.0.modules@)) == modules(*t, change.target as int)
                &&& ({
                    let all = problems(*t, out.0, t.walk(0));
                    &&& out.1.truncated == (all.len() > MAX_CALLERS)
                    &&& text::views(out.1.callers@) == (if all.len() > MAX_CALLERS {
                        all.take(MAX_CALLERS as int)
                    } else {
                        all
                    })
                })
            },
        },
        out.0 == (Change { modules: out.0.modules, ..change }),
{
    if language != Language::Rust {
        return (change, CallerFindings { callers: Vec::new(), truncated: false }, Some(OTHER_LANGUAGE_NOTE));
    }
    let nodes = t.walk_of(0);
    if is_unsettled(t, &nodes) {
        return (change, CallerFindings { callers: Vec::new(), truncated: false }, Some(RESOLUTION_NOTE));
    }
    match rust_modules(t, change.target) {
        None => (change, CallerFindings { callers: Vec::new(), truncated: false }, Some(METHOD_NOTE)),
        Some(modules) => {
            let c = Change { modules, ..change };
            let found = callers_among(t, &c, &nodes);
            (c, found, None)
        },
    }
}

/// Whoever is named as incompatible was accepted before: an unchanged signature
/// leaves no caller behind.
pub proof fn law_an_unchanged_signature_breaks_no_caller(t: SyntaxTree, c: Change, call: int)
    requires
        c.before@.arity == c.after@.arity,
        c.before@.visibility == c.after@.visibility,
    ensures
        problem(t, c, call) is None,
{
    reveal_strlit("pub");
    reveal_strlit("private");
    assert("pub"@.len() != "private"@.len());
}

/// A declaration that takes fewer arguments at least and more at most breaks no
/// call for its arguments.
pub proof fn law_widening_the_arity_breaks_no_call(before: Arity, after: Arity, count: nat)
    requires
        after.minimum <= before.minimum,
        after.maximum matches Some(a) ==> (before.maximum matches Some(b) && b <= a),
    ensures
        !outgrown(Some(before), Some(after), count),
{
}

} // verus!
