//! Picking definitions: by identity, by name, and by the lines they span.
use vstd::prelude::*;
use crate::model;
use crate::model::Symbol;
use crate::text;
use crate::text::same;

verus! {

/// The identities of a sequence of definitions.
pub open spec fn keys(s: Seq<Symbol>) -> Seq<model::SymbolKey> {
    s.map_values(|x: Symbol| x.key())
}

/// Whether two definitions are one.
pub fn same_symbol(a: &Symbol, b: &Symbol) -> (r: bool)
    ensures
        r == (a.key() == b.key()),
{
    a.line_start == b.line_start && same(a.file_path.as_str(), b.file_path.as_str()) && same(
        a.qualified_name.as_str(),
        b.qualified_name.as_str(),
    )
}

/// Whether a definition is among `v`.
pub fn has_symbol(v: &Vec<Symbol>, x: &Symbol) -> (r: bool)
    ensures
        r == keys(v@).contains(x.key()),
{
    let mut i: usize = 0;
    while i < v.len()
        invariant
            i <= v.len(),
            forall|j: int| 0 <= j < i ==> keys(v@)[j] != x.key(),
        decreases v.len() - i,
    {
        if same_symbol(&v[i], x) {
            assert(keys(v@)[i as int] == x.key());
            return true;
        }
        i += 1;
    }
    false
}

/// The definitions of `s` in the order of their first appearance, each once.
pub open spec fn first_by_key(s: Seq<Symbol>) -> Seq<Symbol>
    decreases s.len(),
{
    if s.len() == 0 {
        s
    } else if keys(first_by_key(s.drop_last())).contains(s.last().key()) {
        first_by_key(s.drop_last())
    } else {
        first_by_key(s.drop_last()).push(s.last())
    }
}

/// First appearances repeat no definition and lose none.
pub proof fn law_first_appearances_lose_no_definition(s: Seq<Symbol>)
    ensures
        keys(first_by_key(s)).no_duplicates(),
        forall|k: model::SymbolKey| #[trigger]
            keys(first_by_key(s)).contains(k) <==> keys(s).contains(k),
    decreases s.len(),
{
    if s.len() > 0 {
        let front = s.drop_last();
        law_first_appearances_lose_no_definition(front);
        let kept = first_by_key(front);
        let x = s.last();
        assert(s =~= front.push(x));
        assert(keys(s) =~= keys(front).push(x.key()));
        assert forall|k: model::SymbolKey| #[trigger]
            keys(first_by_key(s)).contains(k) <==> keys(s).contains(k) by {
            if keys(s).contains(k) {
                let i = choose|i: int| 0 <= i < keys(s).len() && keys(s)[i] == k;
                if i < front.len() {
                    assert(keys(front)[i] == k);
                    assert(keys(kept).contains(k));
                }
            }
            if keys(front).contains(k) {
                let i = choose|i: int| 0 <= i < keys(front).len() && keys(front)[i] == k;
                assert(keys(s)[i] == k);
            }
            assert(keys(s)[s.len() - 1] == x.key());
            if !keys(kept).contains(x.key()) {
                let r = keys(first_by_key(s));
                assert(r =~= keys(kept).push(x.key()));
                assert(r[r.len() - 1] == x.key());
                if keys(kept).contains(k) {
                    let i = choose|i: int| 0 <= i < keys(kept).len() && keys(kept)[i] == k;
                    assert(r[i] == k);
                }
                if r.contains(k) {
                    let i = choose|i: int| 0 <= i < r.len() && r[i] == k;
                    if i < kept.len() {
                        assert(keys(kept)[i] == k);
                        assert(keys(kept).contains(k));
                    }
                }
            }
        }
        if !keys(kept).contains(x.key()) {
            assert(keys(kept.push(x)) =~= keys(kept).push(x.key()));
        }
    }
}

// ---------------------------------------------------------------------------
// Lines
// ---------------------------------------------------------------------------

/// `line` lies within the definition.
pub open spec fn encloses(s: Symbol, line: u32) -> bool {
    s.line_start <= line <= s.line_end
}

pub open spec fn span(s: Symbol) -> int {
    s.line_end - s.line_start
}

/// The definition at `i` is the innermost around `line`: it encloses the
/// line, none that does is shorter, and it is the first of the shortest.
pub open spec fn is_innermost(symbols: Seq<Symbol>, line: u32, i: int) -> bool {
    &&& 0 <= i < symbols.len()
    &&& encloses(symbols[i], line)
    &&& forall|j: int|
        0 <= j < symbols.len() && encloses(#[trigger] symbols[j], line) ==> span(symbols[i]) < span(
            symbols[j],
        ) || (span(symbols[i]) == span(symbols[j]) && i <= j)
}

/// The position of the innermost definition around `line`.
pub open spec fn innermost_at(symbols: Seq<Symbol>, line: u32) -> Option<int> {
    if exists|i: int| is_innermost(symbols, line, i) {
        Some(choose|i: int| is_innermost(symbols, line, i))
    } else {
        None
    }
}

/// There is an innermost definition around a line where some definition
/// encloses the line.
pub proof fn law_an_enclosed_line_has_an_innermost_definition(symbols: Seq<Symbol>, line: u32, k: int)
    requires
        0 <= k < symbols.len(),
        encloses(symbols[k], line),
    ensures
        exists|i: int| is_innermost(symbols, line, i),
    decreases span(symbols[k]), k,
{
    if !is_innermost(symbols, line, k) {
        let j = choose|j: int|
            0 <= j < symbols.len() && encloses(#[trigger] symbols[j], line) && !(span(symbols[k])
                < span(symbols[j]) || (span(symbols[k]) == span(symbols[j]) && k <= j));
        law_an_enclosed_line_has_an_innermost_definition(symbols, line, j);
    }
}

/// The innermost definition around `line`.
pub fn innermost(symbols: &Vec<Symbol>, line: u32) -> (r: Option<usize>)
    ensures
        match r {
            Some(i) => innermost_at(symbols@, line) == Some(i as int) && is_innermost(
                symbols@,
                line,
                i as int,
            ),
            None => innermost_at(symbols@, line) is None && forall|j: int|
                0 <= j < symbols@.len() ==> !encloses(#[trigger] symbols@[j], line),
        },
{
    let mut best: Option<usize> = None;
    let mut i: usize = 0;
    while i < symbols.len()
        invariant
            i <= symbols.len(),
            match best {
                Some(b) => is_innermost(symbols@.take(i as int), line, b as int),
                None => forall|j: int| 0 <= j < i ==> !encloses(#[trigger] symbols@[j], line),
            },
        decreases symbols.len() - i,
    {
        let ghost t = symbols@.take(i as int);
        let ghost u = symbols@.take(i + 1);
        let s = &symbols[i];
        assert(forall|j: int| 0 <= j < i ==> t[j] == u[j]);
        assert(u[i as int] == s);
        if s.line_start <= line && line <= s.line_end {
            match best {
                Some(b) => {
                    assert(u[b as int] == t[b as int]);
                    if s.line_end - s.line_start < symbols[b].line_end - symbols[b].line_start {
                        best = Some(i);
                        assert forall|j: int|
                            0 <= j < u.len() && encloses(#[trigger] u[j], line) implies span(u[i as int])
                            < span(u[j]) || (span(u[i as int]) == span(u[j]) && i <= j) by {
                            if j < i {
                                assert(encloses(t[j], line));
                            }
                        }
                    } else {
                        assert forall|j: int|
                            0 <= j < u.len() && encloses(#[trigger] u[j], line) implies span(u[b as int])
                            < span(u[j]) || (span(u[b as int]) == span(u[j]) && b <= j) by {
                            if j < i {
                                assert(encloses(t[j], line));
                            }
                        }
                    }
                },
                None => {
                    best = Some(i);
                    assert forall|j: int|
                        0 <= j < u.len() && encloses(#[trigger] u[j], line) implies j == i by {
                        if j < i {
                            assert(!encloses(symbols@[j], line));
                        }
                    }
                },
            }
        } else {
            match best {
                Some(b) => {
                    assert forall|j: int|
                        0 <= j < u.len() && encloses(#[trigger] u[j], line) implies span(u[b as int])
                        < span(u[j]) || (span(u[b as int]) == span(u[j]) && b <= j) by {
                        assert(encloses(t[j], line));
                    }
                },
                None => {},
            }
        }
        i += 1;
    }
    proof {
        assert(symbols@.take(symbols@.len() as int) =~= symbols@);
        if best is Some {
            let b = best->0 as int;
            let c = choose|c: int| is_innermost(symbols@, line, c);
            assert(is_innermost(symbols@, line, b));
            assert(is_innermost(symbols@, line, c));
            assert(encloses(symbols@[b], line) && encloses(symbols@[c], line));
            assert(b == c);
        }
    }
    best
}

// ---------------------------------------------------------------------------
// Names
// ---------------------------------------------------------------------------

/// The position of the first definition with the qualified name `qn`, looking
/// from position `i` on.
pub open spec fn named_from(symbols: Seq<Symbol>, qn: Seq<char>, i: int) -> Option<int>
    decreases symbols.len() - i,
{
    if i < 0 || i >= symbols.len() {
        None
    } else if symbols[i].qualified_name@ == qn {
        Some(i)
    } else {
        named_from(symbols, qn, i + 1)
    }
}

/// The definition that owns a reference: the one whose qualified name was
/// recorded with it, or else the innermost around its line.
pub open spec fn owner(
    symbols: Seq<Symbol>,
    recorded: Option<Seq<char>>,
    line: u32,
) -> Option<int> {
    match recorded {
        Some(qn) => match named_from(symbols, qn, 0) {
            Some(i) => Some(i),
            None => innermost_at(symbols, line),
        },
        None => innermost_at(symbols, line),
    }
}

pub fn owner_of(symbols: &Vec<Symbol>, recorded: &Option<String>, line: u32) -> (r: Option<usize>)
    ensures
        match r {
            Some(i) => owner(symbols@, text::view_opt(*recorded), line) == Some(i as int) && i
                < symbols.len(),
            None => owner(symbols@, text::view_opt(*recorded), line) is None,
        },
{
    if let Some(qn) = recorded {
        let mut i: usize = 0;
        while i < symbols.len()
            invariant
                i <= symbols.len(),
                *recorded == Some(*qn),
                named_from(symbols@, qn@, 0) == named_from(symbols@, qn@, i as int),
            decreases symbols.len() - i,
        {
            if same(symbols[i].qualified_name.as_str(), qn.as_str()) {
                return Some(i);
            }
            i += 1;
        }
    }
    innermost(symbols, line)
}

} // verus!
