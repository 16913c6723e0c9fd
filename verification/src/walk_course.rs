//! Whole walks: what a run goes through when an index answers it, and why a
//! warm cache makes no difference.
use vstd::prelude::*;
use crate::imports;
use crate::impact;
use crate::impact::{FileSymbols, Walk, WalkBudget, WalkOutcome};
use crate::model;
use crate::model::{FileCategory, Reference, Symbol};
use crate::order;
use crate::resolution;
use crate::resolution::OutgoingRef;
use crate::symbols;
use crate::text;
use crate::walk_cache;
use crate::walk_cache::{CacheRoom, Memo, WalkCache};
use crate::walk_run;
use crate::walk_run::{Ask, Stage, WalkRun};

verus! {

/// What answers the questions of a walk.
pub struct Answers {
    /// How many files refer to a name, and how many definitions share it.
    pub price: spec_fn(Seq<char>) -> (usize, usize),
    /// The references that mean a definition.
    pub rows: spec_fn(model::SymbolKey) -> Seq<Reference>,
    pub imports: Seq<Reference>,
    /// The positions that are remembered of the import rows that name a file.
    pub known: spec_fn(Seq<char>) -> Option<Seq<usize>>,
    /// The definitions in the files of some references.
    pub definitions: spec_fn(Seq<Reference>) -> Seq<FileSymbols>,
}

/// A run after it was given what it asked for.
pub open spec fn answered(a: WalkRun, b: WalkRun, ask: Ask, from: Answers) -> bool {
    match ask {
        Ask::Nothing => b == a,
        Ask::Over => b == a,
        Ask::Price(i) => {
            let (files, definitions) = (from.price)(a.walk.frontier@[i as int].name@);
            walk_run::price_taken(a, b, files, definitions)
        },
        Ask::Rows(i) => walk_run::rows_taken(a, b, (from.rows)(a.walk.frontier@[i as int].key())),
        Ask::Remembered(i) => walk_run::remembered_taken(
            a,
            b,
            (from.known)(a.walk.file_frontier@[i as int]@),
        ),
        Ask::Imports(_, _, _) => walk_run::imports_taken(a, b, from.imports),
        Ask::Matched(_) => b == (WalkRun { matches: b.matches, ..a }),
        Ask::Definitions => walk_run::definitions_taken(a, b, (from.definitions)(a.walk.pending@)),
    }
}

/// A run goes one step on: it asks, and is answered.
pub open spec fn goes_on(a: WalkRun, b: WalkRun, passed: bool, from: Answers) -> bool {
    exists|m: WalkRun, ask: Ask| #[trigger]
        walk_run::stepped(a, m, passed, ask) && answered(m, b, ask, from)
}

/// Two walks that stand at the same place.
pub open spec fn same_walk(a: Walk, b: Walk) -> bool {
    &&& a.file_target == b.file_target
    &&& a.max_depth == b.max_depth
    &&& a.max_frontier == b.max_frontier
    &&& text::views(a.origins@) == text::views(b.origins@)
    &&& a.depth == b.depth
    &&& a.frontier@ == b.frontier@
    &&& text::views(a.file_frontier@) == text::views(b.file_frontier@)
    &&& a.visited_symbols@ == b.visited_symbols@
    &&& text::views(a.visited_files@) == text::views(b.visited_files@)
    &&& a.pending@ == b.pending@
    &&& text::views(a.reached@) == text::views(b.reached@)
    &&& a.seed_count == b.seed_count
    &&& a.capped == b.capped
}

/// Two runs that stand at the same place, with the same steps left. Which
/// import rows were remembered and found of a file is of no account once it is
/// matched.
pub open spec fn same_run(a: WalkRun, b: WalkRun) -> bool {
    &&& same_walk(a.walk, b.walk)
    &&& a.budget == b.budget
    &&& a.import_rows == b.import_rows
    &&& a.stage == b.stage
    &&& text::views(a.priced@) == text::views(b.priced@)
    &&& a.admitted@ == b.admitted@
    &&& a.spent == b.spent
}

proof fn lemma_same_pricing(a: WalkRun, b: WalkRun, a2: WalkRun, b2: WalkRun, i: usize, passed: bool, x: Ask, y: Ask)
    requires
        same_run(a, b),
        walk_run::priced_step(a, a2, i, passed, x),
        walk_run::priced_step(b, b2, i, passed, y),
    ensures
        x == y,
        same_run(a2, b2),
{
    broadcast use text::group_views;

    if i >= a.walk.frontier@.len() || (i % walk_run::POLL_STRIDE == 0 && walk_run::late(a.budget, passed)) {
        assert(text::views(a2.priced@) =~= text::views(b2.priced@));
        assert(a2.admitted@ =~= b2.admitted@);
    }
}

proof fn lemma_same_files(a: WalkRun, b: WalkRun, a2: WalkRun, b2: WalkRun, i: usize, passed: bool, x: Ask, y: Ask)
    requires
        same_run(a, b),
        walk_run::file_step(a, a2, i, passed, x),
        walk_run::file_step(b, b2, i, passed, y),
    ensures
        x == y,
        same_run(a2, b2),
{
    broadcast use text::group_views;

    assert(text::views(a.walk.file_frontier@).len() == a.walk.file_frontier@.len());
    assert(text::views(b.walk.file_frontier@).len() == b.walk.file_frontier@.len());
    if i < a.walk.file_frontier@.len() {
        assert(text::views(a.walk.file_frontier@)[i as int] == a.walk.file_frontier@[i as int]@);
        assert(text::views(b.walk.file_frontier@)[i as int] == b.walk.file_frontier@[i as int]@);
    }
}

/// Two runs at the same place ask the same and go to the same place.
proof fn lemma_same_step(a: WalkRun, b: WalkRun, a2: WalkRun, b2: WalkRun, passed: bool, x: Ask, y: Ask)
    requires
        same_run(a, b),
        !(a.stage is Matching),
        walk_run::stepped(a, a2, passed, x),
        walk_run::stepped(b, b2, passed, y),
    ensures
        x == y,
        same_run(a2, b2),
{
    match a.stage {
        Stage::Pricing(i) => lemma_same_pricing(a, b, a2, b2, i, passed, x, y),
        Stage::Fetching(i) => {},
        Stage::Files(i) => lemma_same_files(a, b, a2, b2, i, passed, x, y),
        Stage::Recalling(i) => {},
        Stage::Matching(i, from) => {},
        Stage::Closing => {},
        Stage::Over => {},
    }
}

proof fn lemma_same_rows(a: WalkRun, b: WalkRun, a2: WalkRun, b2: WalkRun, rows: Seq<Reference>)
    requires
        same_run(a, b),
        walk_run::rows_taken(a, a2, rows),
        walk_run::rows_taken(b, b2, rows),
    ensures
        same_run(a2, b2),
{
    let i = a.stage->Fetching_0 as int;
    let f = |r: Reference| a.walk.frontier@[i].name@;
    let g = |r: Reference| b.walk.frontier@[i].name@;
    assert(f =~= g);
}

proof fn lemma_same_definitions(a: WalkRun, b: WalkRun, a2: WalkRun, b2: WalkRun, by_file: Seq<FileSymbols>)
    requires
        same_run(a, b),
        walk_run::definitions_taken(a, a2, by_file),
        walk_run::definitions_taken(b, b2, by_file),
    ensures
        same_run(a2, b2),
{
    broadcast use text::group_views;

    assert(text::views(a2.priced@) =~= text::views(b2.priced@));
    assert(a2.walk.pending@ =~= b2.walk.pending@);
    assert(text::views(a2.walk.file_frontier@).len() == a2.walk.file_frontier@.len());
    assert(text::views(b2.walk.file_frontier@).len() == b2.walk.file_frontier@.len());
}

// ---------------------------------------------------------------------------
// Matching a file
// ---------------------------------------------------------------------------

/// All positions of the import rows that name a file.
pub open spec fn all_naming(from: Answers, file: Seq<char>) -> Seq<usize> {
    impact::naming(from.imports, file, 0, from.imports.len() as int)
}

/// A run that matches a file has found the import rows that name it, as far as
/// it has come.
pub open spec fn finds(a: WalkRun, from: Answers) -> bool {
    a.stage matches Stage::Matching(i, upto) ==> (a.known is None ==> a.matches@ == impact::naming(
        from.imports,
        a.walk.file_frontier@[i as int]@,
        0,
        upto as int,
    ))
}

/// What a run hands out to be remembered of a file is right: the positions of
/// all import rows that name it.
pub proof fn law_what_is_remembered_of_a_file_is_right(
    a: WalkRun,
    m: WalkRun,
    b: WalkRun,
    passed: bool,
    ask: Ask,
    from: Answers,
)
    requires
        a.wf(),
        a.import_rows == from.imports.len(),
        finds(a, from),
        walk_run::stepped(a, m, passed, ask),
        answered(m, b, ask, from),
    ensures
        finds(b, from),
        ask matches Ask::Matched(i) ==> m.matches@ == all_naming(from, m.walk.file_frontier@[i as int]@),
{
    match a.stage {
        Stage::Matching(i, upto) => {
            if a.known is None && ask is Imports {
                let to = walk_run::stretch_end(upto, a.import_rows);
                impact::lemma_naming_joins(
                    from.imports,
                    a.walk.file_frontier@[i as int]@,
                    0,
                    upto as int,
                    to,
                );
            }
        },
        Stage::Recalling(i) => {
            assert(b.matches@ =~= Seq::empty());
        },
        _ => {},
    }
}

/// A run goes through the whole of the import rows for one file, and the
/// deadline does not pass meanwhile.
pub open spec fn matches_a_file(path: Seq<WalkRun>, from: Answers) -> bool {
    &&& path.len() > 1
    &&& path[0].stage is Recalling
    &&& path.last().stage is Files
    &&& forall|j: int| 0 <= j < path.len() ==> (#[trigger] path[j]).wf()
    &&& forall|j: int| 0 < j < path.len() - 1 ==> (#[trigger] path[j]).stage is Matching
    &&& forall|j: int|
        0 <= j < path.len() - 1 ==> goes_on(#[trigger] path[j], path[j + 1], false, from)
}

/// The positions that are recorded of a file once `upto` rows are gone through.
spec fn recorded_upto(known: Option<Seq<usize>>, from: Answers, file: Seq<char>, upto: int) -> Seq<usize> {
    match known {
        Some(at) => at.take(upto),
        None => impact::naming(from.imports, file, 0, upto),
    }
}

/// How far a run has come in matching a file that it began to match at `a`.
spec fn come_to(a: WalkRun, b: WalkRun, from: Answers, upto: int) -> bool {
    let i = a.stage->Recalling_0;
    let file = a.walk.file_frontier@[i as int]@;
    &&& b == (WalkRun { walk: b.walk, stage: b.stage, known: b.known, matches: b.matches, ..a })
    &&& match b.known {
        Some(at) => (from.known)(file) == Some(at@),
        None => (from.known)(file) is None,
    }
    &&& 0 <= upto <= b.rows_to_match()
    &&& impact::imports_recorded(
        a.walk,
        b.walk,
        impact::rows_at(from.imports, recorded_upto((from.known)(file), from, file, upto)),
    )
}

proof fn lemma_comes_on(a: WalkRun, b: WalkRun, c: WalkRun, from: Answers, upto: usize)
    requires
        a.wf(),
        a.stage is Recalling,
        a.import_rows == from.imports.len(),
        b.wf(),
        b.stage == Stage::Matching(a.stage->Recalling_0, upto),
        come_to(a, b, from, upto as int),
        goes_on(b, c, false, from),
    ensures
        ({
            ||| c.stage matches Stage::Matching(i, to) && i == a.stage->Recalling_0 && come_to(
                a,
                c,
                from,
                to as int,
            )
            ||| {
                &&& c.stage == Stage::Files((a.stage->Recalling_0 + 1) as usize)
                &&& upto == b.rows_to_match()
                &&& come_to(a, c, from, upto as int)
            }
        }),
{
    let i = a.stage->Recalling_0;
    let file = a.walk.file_frontier@[i as int]@;
    let known = (from.known)(file);
    let (m, ask) = choose|m: WalkRun, ask: Ask| #[trigger]
        walk_run::stepped(b, m, false, ask) && answered(m, c, ask, from);
    if upto < b.rows_to_match() {
        let to = walk_run::stretch_end(upto, b.rows_to_match());
        let before = recorded_upto(known, from, file, upto as int);
        let after = recorded_upto(known, from, file, to);
        let part = walk_run::stretch_of(b, from.imports);
        assert(b.walk.file_frontier == a.walk.file_frontier);
        match b.known {
            Some(at) => {
                assert(at@.take(to) =~= at@.take(upto as int) + at@.subrange(upto as int, to));
            },
            None => {
                impact::lemma_naming_joins(from.imports, file, 0, upto as int, to);
            },
        }
        assert(after == before + part);
        impact::law_import_rows_record_alike_in_stretches(
            a.walk,
            b.walk,
            c.walk,
            impact::rows_at(from.imports, before),
            impact::rows_at(from.imports, part),
        );
        assert(impact::rows_at(from.imports, after) =~= impact::rows_at(from.imports, before)
            + impact::rows_at(from.imports, part));
    }
}

proof fn lemma_begins_to_match(a: WalkRun, b: WalkRun, from: Answers)
    requires
        a.wf(),
        a.stage is Recalling,
        goes_on(a, b, false, from),
    ensures
        b.stage == Stage::Matching(a.stage->Recalling_0, 0),
        come_to(a, b, from, 0),
{
    let file = a.walk.file_frontier@[a.stage->Recalling_0 as int]@;
    let none = impact::rows_at(from.imports, recorded_upto((from.known)(file), from, file, 0));
    assert(none =~= Seq::empty());
    reveal(Seq::filter);
    assert(impact::outside(text::views(a.walk.origins@), none) =~= Seq::empty());
    assert(a.walk.pending@ + Seq::<Reference>::empty() =~= a.walk.pending@);
}

proof fn lemma_comes_along(path: Seq<WalkRun>, from: Answers, j: int)
    requires
        matches_a_file(path, from),
        path[0].import_rows == from.imports.len(),
        0 < j < path.len() - 1,
    ensures
        path[j].stage matches Stage::Matching(i, upto) && i == path[0].stage->Recalling_0 && come_to(
            path[0],
            path[j],
            from,
            upto as int,
        ),
    decreases j,
{
    assert(goes_on(path[j - 1], path[j - 1 + 1], false, from));
    if j == 1 {
        lemma_begins_to_match(path[0], path[1], from);
    } else {
        lemma_comes_along(path, from, j - 1);
        assert(path[j].stage is Matching);
        lemma_comes_on(path[0], path[j - 1], path[j], from, path[j - 1].stage->Matching_1);
    }
}

/// A file is matched alike whether or not the import rows that name it are
/// remembered: the run goes on to the next file, nothing is charged, and just
/// the rows that name the file are recorded.
pub proof fn law_a_file_is_matched_alike_from_memory(path: Seq<WalkRun>, from: Answers)
    requires
        matches_a_file(path, from),
        path[0].import_rows == from.imports.len(),
        ({
            let file = path[0].walk.file_frontier@[path[0].stage->Recalling_0 as int]@;
            (from.known)(file) is None || (from.known)(file) == Some(all_naming(from, file))
        }),
    ensures
        path.last() == (WalkRun {
            walk: path.last().walk,
            stage: Stage::Files((path[0].stage->Recalling_0 + 1) as usize),
            known: path.last().known,
            matches: path.last().matches,
            ..path[0]
        }),
        impact::imports_recorded(
            path[0].walk,
            path.last().walk,
            impact::rows_at(
                from.imports,
                all_naming(from, path[0].walk.file_frontier@[path[0].stage->Recalling_0 as int]@),
            ),
        ),
{
    let n = path.len() - 1;
    assert(goes_on(path[n - 1], path[n - 1 + 1], false, from));
    if n == 1 {
        lemma_begins_to_match(path[0], path[1], from);
    } else {
        lemma_comes_along(path, from, n - 1);
        lemma_comes_on(path[0], path[n - 1], path[n], from, path[n - 1].stage->Matching_1);
        let file = path[0].walk.file_frontier@[path[0].stage->Recalling_0 as int]@;
        let all = all_naming(from, file);
        assert(all.take(all.len() as int) =~= all);
    }
}

/// A run goes on: by a step, or by the matching of a whole file.
#[verifier::opaque]
pub open spec fn moves_on(a: WalkRun, b: WalkRun, passed: bool, from: Answers) -> bool {
    if a.stage is Recalling {
        exists|path: Seq<WalkRun>| #[trigger] matches_a_file(path, from) && path[0] == a && path.last() == b
    } else {
        goes_on(a, b, passed, from)
    }
}

// ---------------------------------------------------------------------------
// A warm cache
// ---------------------------------------------------------------------------

/// The answers where a cache is asked first.
pub open spec fn served(cache: WalkCache, plain: Answers) -> Answers {
    Answers {
        rows: |k: model::SymbolKey|
            match cache.references.at(k) {
                Some(known) => known@,
                None => (plain.rows)(k),
            },
        known: |file: Seq<char>|
            match cache.import_matches.at((file, ""@, 0u32)) {
                Some(at) => Some(at@),
                None => (plain.known)(file),
            },
        ..plain
    }
}

/// The references that a memo may hold of a definition: those that mean it.
pub open spec fn meant(plain: Answers) -> spec_fn(model::SymbolKey, Vec<Reference>) -> bool {
    |k: model::SymbolKey, rows: Vec<Reference>| rows@ == (plain.rows)(k)
}

/// The positions that a memo may hold of a file: those of the import rows that
/// name it.
pub open spec fn named(plain: Answers) -> spec_fn(model::SymbolKey, Vec<usize>) -> bool {
    |k: model::SymbolKey, at: Vec<usize>| at@ == all_naming(plain, k.0)
}

/// What a cache holds of the references and of the import rows is right.
pub open spec fn right(cache: WalkCache, plain: Answers) -> bool {
    &&& walk_cache::tells(cache.references, meant(plain))
    &&& walk_cache::tells(cache.import_matches, named(plain))
}

/// A memo that stays, or remembers one value that it may hold.
pub open spec fn learns<V>(
    before: Memo<V>,
    after: Memo<V>,
    may_hold: spec_fn(model::SymbolKey, V) -> bool,
) -> bool {
    ||| after == before
    ||| exists|k: model::SymbolKey, value: V, room: CacheRoom, left: CacheRoom, bytes: usize, r: bool|
        {
            &&& #[trigger] walk_cache::kept(before, after, k, value, room, left, bytes, r)
            &&& may_hold(k, value)
        }
}

/// A cache that stays, or remembers what is right.
pub open spec fn cache_learns(before: WalkCache, after: WalkCache, plain: Answers) -> bool {
    &&& learns(before.references, after.references, meant(plain))
    &&& learns(before.import_matches, after.import_matches, named(plain))
}

proof fn lemma_learns<V>(
    before: Memo<V>,
    after: Memo<V>,
    may_hold: spec_fn(model::SymbolKey, V) -> bool,
)
    requires
        walk_cache::tells(before, may_hold),
        learns(before, after, may_hold),
    ensures
        walk_cache::tells(after, may_hold),
{
    if after != before {
        let (key, value, room, left, bytes, r) = choose|
            key: model::SymbolKey,
            value: V,
            room: CacheRoom,
            left: CacheRoom,
            bytes: usize,
            r: bool,
        |
            {
                &&& #[trigger] walk_cache::kept(before, after, key, value, room, left, bytes, r)
                &&& may_hold(key, value)
            };
        walk_cache::law_remembering_what_is_right_keeps_a_memo_right(
            before,
            after,
            key,
            value,
            room,
            left,
            bytes,
            r,
            may_hold,
        );
    }
}

proof fn lemma_stays_right(caches: Seq<WalkCache>, plain: Answers, k: int)
    requires
        0 <= k < caches.len(),
        right(caches[0], plain),
        forall|j: int|
            0 <= j < caches.len() - 1 ==> cache_learns(#[trigger] caches[j], caches[j + 1], plain),
    ensures
        right(caches[k], plain),
    decreases k,
{
    if k > 0 {
        lemma_stays_right(caches, plain, k - 1);
        assert(cache_learns(caches[k - 1], caches[k - 1 + 1], plain));
        lemma_learns(caches[k - 1].references, caches[k].references, meant(plain));
        lemma_learns(caches[k - 1].import_matches, caches[k].import_matches, named(plain));
    }
}

/// A cache that is right serves what the index gives.
proof fn lemma_served(cache: WalkCache, plain: Answers, k: model::SymbolKey, file: Seq<char>)
    requires
        right(cache, plain),
        (plain.known)(file) is None,
    ensures
        (served(cache, plain).rows)(k) == (plain.rows)(k),
        ({
            let known = (served(cache, plain).known)(file);
            known is None || known == Some(all_naming(served(cache, plain), file))
        }),
{
    if cache.references.at(k) is Some {
        assert((meant(plain))(k, cache.references.at(k)->0));
    }
    let key: model::SymbolKey = (file, ""@, 0u32);
    if cache.import_matches.at(key) is Some {
        assert((named(plain))(key, cache.import_matches.at(key)->0));
    }
}

proof fn lemma_same_matching(
    a: WalkRun,
    b: WalkRun,
    a2: WalkRun,
    b2: WalkRun,
    passed: bool,
    plain: Answers,
    cache: WalkCache,
)
    requires
        same_run(a, b),
        a.stage is Recalling,
        a.wf(),
        a.import_rows == plain.imports.len(),
        right(cache, plain),
        forall|file: Seq<char>| (#[trigger] (plain.known)(file)) is None,
        moves_on(a, a2, passed, plain),
        moves_on(b, b2, passed, served(cache, plain)),
    ensures
        same_run(a2, b2),
        !(a2.stage is Matching),
        a2.import_rows == a.import_rows,
{
    broadcast use text::group_views;

    reveal(moves_on);
    let p = choose|path: Seq<WalkRun>| #[trigger]
        matches_a_file(path, plain) && path[0] == a && path.last() == a2;
    let q = choose|path: Seq<WalkRun>| #[trigger]
        matches_a_file(path, served(cache, plain)) && path[0] == b && path.last() == b2;
    let i = a.stage->Recalling_0 as int;
    assert(text::views(a.walk.file_frontier@)[i] == a.walk.file_frontier@[i]@);
    assert(text::views(b.walk.file_frontier@).len() == b.walk.file_frontier@.len());
    assert(text::views(b.walk.file_frontier@)[i] == b.walk.file_frontier@[i]@);
    let file = a.walk.file_frontier@[i]@;
    assert((plain.known)(file) is None);
    lemma_served(cache, plain, (file, ""@, 0u32), file);
    law_a_file_is_matched_alike_from_memory(p, plain);
    law_a_file_is_matched_alike_from_memory(q, served(cache, plain));
    assert(all_naming(served(cache, plain), file) == all_naming(plain, file));
}

proof fn lemma_same_going(
    a: WalkRun,
    b: WalkRun,
    a2: WalkRun,
    b2: WalkRun,
    passed: bool,
    plain: Answers,
    cache: WalkCache,
)
    requires
        same_run(a, b),
        a.wf(),
        !(a.stage is Matching),
        !(a.stage is Recalling),
        right(cache, plain),
        goes_on(a, a2, passed, plain),
        goes_on(b, b2, passed, served(cache, plain)),
        forall|file: Seq<char>| (#[trigger] (plain.known)(file)) is None,
    ensures
        same_run(a2, b2),
        !(a2.stage is Matching),
        a2.import_rows == a.import_rows,
{
    let (m, x) = choose|m: WalkRun, ask: Ask| #[trigger]
        walk_run::stepped(a, m, passed, ask) && answered(m, a2, ask, plain);
    let (n, y) = choose|m: WalkRun, ask: Ask| #[trigger]
        walk_run::stepped(b, m, passed, ask) && answered(m, b2, ask, served(cache, plain));
    lemma_same_step(a, b, m, n, passed, x, y);
    match x {
        Ask::Rows(i) => {
            let key = m.walk.frontier@[i as int].key();
            assert((plain.known)(""@) is None);
            lemma_served(cache, plain, key, ""@);
            lemma_same_rows(m, n, a2, b2, (plain.rows)(key));
        },
        Ask::Definitions => {
            lemma_same_definitions(m, n, a2, b2, (plain.definitions)(m.walk.pending@));
        },
        _ => {},
    }
}

proof fn lemma_same_move(
    a: WalkRun,
    b: WalkRun,
    a2: WalkRun,
    b2: WalkRun,
    passed: bool,
    plain: Answers,
    cache: WalkCache,
)
    requires
        same_run(a, b),
        a.wf(),
        !(a.stage is Matching),
        a.import_rows == plain.imports.len(),
        right(cache, plain),
        moves_on(a, a2, passed, plain),
        moves_on(b, b2, passed, served(cache, plain)),
        forall|file: Seq<char>| (#[trigger] (plain.known)(file)) is None,
    ensures
        same_run(a2, b2),
        !(a2.stage is Matching),
        a2.import_rows == a.import_rows,
{
    if a.stage is Recalling {
        lemma_same_matching(a, b, a2, b2, passed, plain, cache);
    } else {
        reveal(moves_on);
        lemma_same_going(a, b, a2, b2, passed, plain, cache);
    }
}

/// A warm cache changes no walk: of two walks from the same place on the same
/// index, one of which asks a cache first that earlier walks filled and that it
/// goes on to fill itself, each step finds the same files for the same charge.
/// `plain` and `cached` are the runs of the two, with the matching of a file
/// taken as one step, `caches` is what the cache holds along the second, and
/// `passed` what the clock says at each step. The clock is looked at less often
/// where import rows are remembered, so the law leaves out a deadline that
/// passes while a file is matched.
pub proof fn law_a_warm_cache_changes_no_walk(
    from: Answers,
    plain: Seq<WalkRun>,
    cached: Seq<WalkRun>,
    caches: Seq<WalkCache>,
    passed: Seq<bool>,
    k: int,
)
    requires
        0 <= k < plain.len(),
        plain.len() == cached.len(),
        plain.len() == caches.len(),
        plain.len() == passed.len(),
        same_run(plain[0], cached[0]),
        !(plain[0].stage is Matching),
        plain[0].import_rows == from.imports.len(),
        forall|file: Seq<char>| (#[trigger] (from.known)(file)) is None,
        right(caches[0], from),
        forall|j: int| 0 <= j < plain.len() ==> (#[trigger] plain[j]).wf(),
        forall|j: int|
            0 <= j < caches.len() - 1 ==> cache_learns(#[trigger] caches[j], caches[j + 1], from),
        forall|j: int| 0 <= j < plain.len() - 1 ==> moves_on(#[trigger] plain[j], plain[j + 1], passed[j], from),
        forall|j: int|
            0 <= j < cached.len() - 1 ==> moves_on(
                #[trigger] cached[j],
                cached[j + 1],
                passed[j],
                served(caches[j], from),
            ),
    ensures
        plain[k].stage == cached[k].stage,
        plain[k].budget == cached[k].budget,
        text::views(plain[k].walk.reached@) == text::views(cached[k].walk.reached@),
        plain[k].walk.capped == cached[k].walk.capped,
        plain[k].walk.seed_count == cached[k].walk.seed_count,
        same_run(plain[k], cached[k]),
        !(plain[k].stage is Matching),
        plain[k].import_rows == from.imports.len(),
    decreases k,
{
    if k > 0 {
        law_a_warm_cache_changes_no_walk(from, plain, cached, caches, passed, k - 1);
        lemma_stays_right(caches, from, k - 1);
        assert(moves_on(plain[k - 1], plain[k - 1 + 1], passed[k - 1], from));
        assert(moves_on(cached[k - 1], cached[k - 1 + 1], passed[k - 1], served(caches[k - 1], from)));
        lemma_same_move(
            plain[k - 1],
            cached[k - 1],
            plain[k],
            cached[k],
            passed[k - 1],
            from,
            caches[k - 1],
        );
    }
}

/// Walks that stand at the same place end in the same outcome.
pub proof fn law_walks_at_one_place_end_alike(
    a: Walk,
    b: Walk,
    categories: Seq<FileCategory>,
    source_only: bool,
    x: WalkOutcome,
    y: WalkOutcome,
)
    requires
        same_walk(a, b),
        impact::ends_in(a, categories, source_only, x),
        impact::ends_in(b, categories, source_only, y),
    ensures
        text::views(x.entries@) == text::views(y.entries@),
        text::views(x.edge_counts@) == text::views(y.edge_counts@),
        x.capped == y.capped,
        x.seed_count == y.seed_count,
{
}

proof fn lemma_begun_alike(a: WalkRun, b: WalkRun, walk: Walk, budget: Option<WalkBudget>, rows: usize)
    requires
        walk_run::begun(a, walk, budget, rows),
        walk_run::begun(b, walk, budget, rows),
    ensures
        same_run(a, b),
{
    broadcast use text::group_views;

    assert(text::views(a.priced@) =~= text::views(b.priced@));
    assert(a.admitted@ =~= b.admitted@);
    assert(text::views(a.walk.reached@) =~= text::views(b.walk.reached@));
}

/// A warm cache changes no answer and no charge: of two whole walks of one
/// target on one index, within the same budget, the one without a cache and the
/// one with a cache that holds only what is right end alike. They find the same
/// files with the same edges, count the same seeds, are capped alike, and leave
/// the same steps. `plain` and `cached` are the runs from their beginning to
/// their end, and `passed` is what the clock says along them.
pub proof fn law_a_warm_cache_changes_no_answer(
    from: Answers,
    walk: Walk,
    budget: Option<WalkBudget>,
    plain: Seq<WalkRun>,
    cached: Seq<WalkRun>,
    caches: Seq<WalkCache>,
    passed: Seq<bool>,
    categories: Seq<FileCategory>,
    source_only: bool,
    x: WalkOutcome,
    y: WalkOutcome,
)
    requires
        plain.len() > 0,
        plain.len() == cached.len(),
        plain.len() == caches.len(),
        plain.len() == passed.len(),
        from.imports.len() <= usize::MAX,
        walk_run::begun(plain[0], walk, budget, from.imports.len() as usize),
        walk_run::begun(cached[0], walk, budget, from.imports.len() as usize),
        forall|file: Seq<char>| (#[trigger] (from.known)(file)) is None,
        right(caches[0], from),
        forall|j: int| 0 <= j < plain.len() ==> (#[trigger] plain[j]).wf(),
        forall|j: int|
            0 <= j < caches.len() - 1 ==> cache_learns(#[trigger] caches[j], caches[j + 1], from),
        forall|j: int| 0 <= j < plain.len() - 1 ==> moves_on(#[trigger] plain[j], plain[j + 1], passed[j], from),
        forall|j: int|
            0 <= j < cached.len() - 1 ==> moves_on(
                #[trigger] cached[j],
                cached[j + 1],
                passed[j],
                served(caches[j], from),
            ),
        plain.last().stage is Over,
        impact::ends_in(plain.last().walk, categories, source_only, x),
        impact::ends_in(cached.last().walk, categories, source_only, y),
    ensures
        cached.last().stage is Over,
        text::views(x.entries@) == text::views(y.entries@),
        text::views(x.edge_counts@) == text::views(y.edge_counts@),
        x.capped == y.capped,
        x.seed_count == y.seed_count,
        plain.last().budget == cached.last().budget,
        right(caches.last(), from),
{
    lemma_begun_alike(plain[0], cached[0], walk, budget, from.imports.len() as usize);
    law_a_warm_cache_changes_no_walk(from, plain, cached, caches, passed, plain.len() - 1);
    lemma_stays_right(caches, from, caches.len() - 1);
    law_walks_at_one_place_end_alike(
        plain.last().walk,
        cached.last().walk,
        categories,
        source_only,
        x,
        y,
    );
}

/// A cache that remembers nothing is right.
pub proof fn law_an_empty_cache_is_right(cache: WalkCache, from: Answers)
    requires
        cache.references.count() == 0,
        cache.import_matches.count() == 0,
    ensures
        right(cache, from),
{
    walk_cache::law_an_empty_memo_is_right(cache.references, meant(from));
    walk_cache::law_an_empty_memo_is_right(cache.import_matches, named(from));
}

// ---------------------------------------------------------------------------
// Resolving with a cache
// ---------------------------------------------------------------------------

/// What an index holds: the references to a name, the definitions that a
/// spelling may mean, and the names that a file uses.
pub struct IndexRows {
    pub references: spec_fn(Seq<char>) -> Seq<Reference>,
    pub candidates: spec_fn(Seq<char>) -> Seq<Symbol>,
    pub outgoing: spec_fn(Seq<char>) -> Seq<OutgoingRef>,
}

/// The names that a file brings in.
pub open spec fn brought_in(ix: IndexRows, file: Seq<char>) -> Seq<Seq<char>> {
    order::ascending_set(resolution::imported_names((ix.outgoing)(file)))
}

/// The definitions that a spelling in a file means.
pub open spec fn meaning(ix: IndexRows, file: Seq<char>, name: Seq<char>) -> Seq<Symbol> {
    resolution::callees((ix.candidates)(name), file, name, brought_in(ix, file))
}

/// Of some references those that mean the definition that `key` identifies.
pub open spec fn meaning_it(ix: IndexRows, rows: Seq<Reference>, key: model::SymbolKey) -> Seq<Reference>
    decreases rows.len(),
{
    if rows.len() == 0 {
        rows
    } else {
        let front = meaning_it(ix, rows.drop_last(), key);
        if symbols::keys(meaning(ix, rows.last().from_file@, rows.last().to_name@)).contains(key) {
            front.push(rows.last())
        } else {
            front
        }
    }
}

/// The imports that a memo may hold of a file: those that it brings in.
pub open spec fn right_imports(ix: IndexRows) -> spec_fn(model::SymbolKey, Vec<String>) -> bool {
    |k: model::SymbolKey, imports: Vec<String>| text::views(imports@) == brought_in(ix, k.0)
}

/// The definitions that a memo may hold of a spelling: those that it means.
pub open spec fn right_meanings(ix: IndexRows) -> spec_fn(model::SymbolKey, Vec<Symbol>) -> bool {
    |k: model::SymbolKey, found: Vec<Symbol>| found@ == meaning(ix, k.0, k.1)
}

/// A spelling is resolved rightly with the imports that a right cache holds of
/// its file, and without any where it needs none.
pub proof fn law_remembered_imports_resolve_rightly(
    ix: IndexRows,
    cache: WalkCache,
    file: Seq<char>,
    name: Seq<char>,
    imports: Seq<Seq<char>>,
)
    requires
        walk_cache::tells(cache.caller_imports, right_imports(ix)),
        resolution::left_to_imports((ix.candidates)(name), name) ==> {
            ||| imports == brought_in(ix, file)
            ||| cache.caller_imports.at((file, ""@, 0u32)) is Some && imports == text::views(
                cache.caller_imports.at((file, ""@, 0u32))->0@,
            )
        },
    ensures
        resolution::callees((ix.candidates)(name), file, name, imports) == meaning(ix, file, name),
{
    let key: model::SymbolKey = (file, ""@, 0u32);
    if !resolution::left_to_imports((ix.candidates)(name), name) {
        resolution::law_imports_decide_only_where_needed(
            (ix.candidates)(name),
            file,
            name,
            imports,
            brought_in(ix, file),
        );
    } else if cache.caller_imports.at(key) is Some {
        assert((right_imports(ix))(key, cache.caller_imports.at(key)->0));
    }
}

} // verus!
