//! Looking up what spellings and definitions mean, in a cache first.
//!
//! A lookup says which rows of the index it needs next and takes them; what it
//! found, and the cache did not know, is handed back to be remembered.
use vstd::prelude::*;
use vstd::string::*;
use crate::impact;
use crate::impact::resolve_references_to_symbol;
use crate::model;
use crate::model::{Reference, Symbol};
use crate::order;
use crate::resolution;
use crate::resolution::{import_refs_for_file, needs_imports, resolve_callee_definitions, OutgoingRef};
use crate::text;
use crate::text::same;
use crate::walk_cache;
use crate::walk_cache::{definition_key, file_key, spelling_key, WalkCache};
use crate::walk_course;
use crate::walk_course::IndexRows;

verus! {

fn copy_symbols(v: &Vec<Symbol>) -> (out: Vec<Symbol>)
    ensures
        out@ == v@,
{
    let out = v.clone();
    assert(out@ =~= v@);
    out
}

fn copy_references(v: &Vec<Reference>) -> (out: Vec<Reference>)
    ensures
        out@ == v@,
{
    let out = v.clone();
    assert(out@ =~= v@);
    out
}

/// The key of a spelling.
pub open spec fn spelling(file: Seq<char>, name: Seq<char>) -> model::SymbolKey {
    (file, name, 0u32)
}

// ---------------------------------------------------------------------------
// What a spelling means
// ---------------------------------------------------------------------------

/// Where the lookup of a spelling stands.
#[derive(Debug)]
pub enum MeaningStage {
    /// The definitions that the spelling may mean are needed.
    Candidates,
    /// The names that the file uses are needed, to decide among these.
    Outgoing(Vec<Symbol>),
    /// The cache knew what the spelling means.
    Known(Vec<Symbol>),
    /// What the spelling means was found out.
    Found(Vec<Symbol>),
}

/// The lookup of what a spelling in a file means.
#[derive(Debug)]
pub struct MeaningLookup {
    pub file: String,
    pub name: String,
    pub stage: MeaningStage,
}

impl MeaningLookup {
    /// What the lookup holds is what the index says.
    pub open spec fn true_to(self, ix: IndexRows) -> bool {
        match self.stage {
            MeaningStage::Candidates => true,
            MeaningStage::Outgoing(c) => c@ == (ix.candidates)(self.name@),
            MeaningStage::Known(v) => v@ == walk_course::meaning(ix, self.file@, self.name@),
            MeaningStage::Found(v) => v@ == walk_course::meaning(ix, self.file@, self.name@),
        }
    }

    /// Begins with what the cache knows.
    pub fn begin(cache: &WalkCache, file: &str, name: &str) -> (out: MeaningLookup)
        ensures
            out.file@ == file@,
            out.name@ == name@,
            match cache.resolutions.at(spelling(file@, name@)) {
                Some(v) => out.stage matches MeaningStage::Known(w) && w@ == v@,
                None => out.stage is Candidates,
            },
            forall|ix: IndexRows|
                walk_cache::tells(cache.resolutions, walk_course::right_meanings(ix)) ==> #[trigger] out.true_to(ix),
    {
        let stage = match cache.resolutions.get(&spelling_key(file, name)) {
            Some(v) => MeaningStage::Known(copy_symbols(v)),
            None => MeaningStage::Candidates,
        };
        let out = MeaningLookup { file: file.to_string(), name: name.to_string(), stage };
        proof {
            assert forall|ix: IndexRows|
                walk_cache::tells(
                    cache.resolutions,
                    walk_course::right_meanings(ix),
                ) implies #[trigger] out.true_to(ix) by {
                let k = spelling(file@, name@);
                if cache.resolutions.at(k) is Some {
                    assert((walk_course::right_meanings(ix))(k, cache.resolutions.at(k)->0));
                }
            }
        }
        out
    }

    /// Takes the definitions that the spelling may mean. Imports are looked at
    /// only where they decide, and in the cache first.
    pub fn take_candidates(&mut self, cache: &WalkCache, candidates: Vec<Symbol>)
        requires
            old(self).stage is Candidates,
        ensures
            final(self).file == old(self).file,
            final(self).name == old(self).name,
            ({
                let known = cache.caller_imports.at(spelling(old(self).file@, ""@));
                let decided = |imports: Seq<Seq<char>>|
                    resolution::callees(candidates@, old(self).file@, old(self).name@, imports);
                if !resolution::left_to_imports(candidates@, old(self).name@) {
                    final(self).stage matches MeaningStage::Found(v) && v@ == decided(Seq::empty())
                } else {
                    match known {
                        Some(imports) => final(self).stage matches MeaningStage::Found(v) && v@ == decided(
                            text::views(imports@),
                        ),
                        None => final(self).stage == MeaningStage::Outgoing(candidates),
                    }
                }
            }),
            forall|ix: IndexRows|
                walk_cache::tells(cache.caller_imports, walk_course::right_imports(ix)) && candidates@ == (
                ix.candidates)(old(self).name@) ==> #[trigger] final(self).true_to(ix),
    {
        broadcast use text::group_views;
        let ghost all = candidates@;
        let ghost file = self.file@;
        let ghost name = self.name@;
        proof {
            assert forall|ix: IndexRows, imports: Seq<Seq<char>>|
                walk_cache::tells(cache.caller_imports, walk_course::right_imports(ix)) && all == (ix.candidates)(name)
                    && (resolution::left_to_imports(all, name) ==> cache.caller_imports.at(spelling(file, ""@)) is Some
                    && imports == text::views(
                    cache.caller_imports.at(spelling(file, ""@))->0@,
                )) implies #[trigger] resolution::callees(all, file, name, imports) == #[trigger] walk_course::meaning(
                ix,
                file,
                name,
            ) by {
                walk_course::law_remembered_imports_resolve_rightly(ix, *cache, file, name, imports);
            }
        }
        if !needs_imports(&candidates, self.name.as_str()) {
            let none: Vec<String> = Vec::new();
            assert(text::views(none@) =~= Seq::<Seq<char>>::empty());
            let found = resolve_callee_definitions(candidates, self.file.as_str(), self.name.as_str(), &none);
            self.stage = MeaningStage::Found(found);
            return ;
        }
        match cache.caller_imports.get(&file_key(self.file.as_str())) {
            Some(imports) => {
                let found = resolve_callee_definitions(candidates, self.file.as_str(), self.name.as_str(), imports);
                self.stage = MeaningStage::Found(found);
            },
            None => {
                self.stage = MeaningStage::Outgoing(candidates);
            },
        }
    }

    /// Takes the names that the file uses. The imports among them come back, to
    /// be remembered.
    pub fn take_outgoing(&mut self, outgoing: &Vec<OutgoingRef>) -> (imports: Vec<String>)
        requires
            old(self).stage is Outgoing,
        ensures
            final(self).file == old(self).file,
            final(self).name == old(self).name,
            text::views(imports@) == order::ascending_set(resolution::imported_names(outgoing@)),
            final(self).stage matches MeaningStage::Found(v) && v@ == resolution::callees(
                old(self).stage->Outgoing_0@,
                old(self).file@,
                old(self).name@,
                text::views(imports@),
            ),
            forall|ix: IndexRows|
                old(self).true_to(ix) && outgoing@ == (ix.outgoing)(old(self).file@)
                    ==> #[trigger] final(self).true_to(ix),
    {
        let imports = import_refs_for_file(outgoing);
        let mut stage = MeaningStage::Candidates;
        std::mem::swap(&mut stage, &mut self.stage);
        if let MeaningStage::Outgoing(candidates) = stage {
            let found = resolve_callee_definitions(candidates, self.file.as_str(), self.name.as_str(), &imports);
            self.stage = MeaningStage::Found(found);
        }
        imports
    }
}

// ---------------------------------------------------------------------------
// Which references mean a definition
// ---------------------------------------------------------------------------

/// Where the lookup of a definition stands.
#[derive(Debug)]
pub enum LookupStage {
    /// The references to its name are needed.
    Rows,
    /// What the next of their spellings means is looked up.
    Meaning(MeaningLookup),
    /// The cache knew the references that mean it.
    Known(Vec<Reference>),
    /// The references that mean it were found out.
    Found(Vec<Reference>),
}

/// The lookup of the references that mean a definition. `resolved` holds what
/// the first of the rows mean.
#[derive(Debug)]
pub struct ReferenceLookup {
    pub sym: Symbol,
    pub rows: Vec<Reference>,
    pub resolved: Vec<Vec<Symbol>>,
    pub stage: LookupStage,
}

/// Two rows of one file with one spelling.
pub open spec fn spelled_alike(a: Reference, b: Reference) -> bool {
    a.from_file@ == b.from_file@ && a.to_name@ == b.to_name@
}

/// What the row at `j` means is known from an earlier row, or from the cache.
pub open spec fn reused(cache: WalkCache, rows: Seq<Reference>, resolved: Seq<Vec<Symbol>>, j: int) -> bool {
    let known = cache.resolutions.at(spelling(rows[j].from_file@, rows[j].to_name@));
    ||| exists|i: int| 0 <= i < j && spelled_alike(rows[i], rows[j]) && (#[trigger] resolved[i])@ == resolved[j]@
    ||| known is Some && resolved[j]@ == known->0@
}

/// The rows before `n` mean what the index says.
pub open spec fn resolved_truly(ix: IndexRows, rows: Seq<Reference>, resolved: Seq<Vec<Symbol>>, n: int) -> bool {
    forall|j: int|
        0 <= j < n ==> (#[trigger] resolved[j])@ == walk_course::meaning(ix, rows[j].from_file@, rows[j].to_name@)
}

impl ReferenceLookup {
    /// Where the lookup may stand: a spelling is looked up for the first row
    /// that has no meaning yet, and the answer has them all.
    pub open spec fn wf(self) -> bool {
        match self.stage {
            LookupStage::Rows => self.rows@.len() == 0 && self.resolved@.len() == 0,
            LookupStage::Meaning(l) => {
                &&& self.resolved@.len() < self.rows@.len()
                &&& l.file@ == self.rows@[self.resolved@.len() as int].from_file@
                &&& l.name@ == self.rows@[self.resolved@.len() as int].to_name@
            },
            LookupStage::Known(_) => self.rows@.len() == 0 && self.resolved@.len() == 0,
            LookupStage::Found(v) => {
                &&& self.resolved@.len() == self.rows@.len()
                &&& v@ == impact::rows_resolving_to(self.rows@, self.resolved@, self.sym.key())
            },
        }
    }

    /// What the lookup holds is what the index says.
    pub open spec fn true_to(self, ix: IndexRows) -> bool {
        &&& self.stage is Meaning || self.stage is Found ==> self.rows@ == (ix.references)(self.sym.name@)
        &&& self.stage matches LookupStage::Known(v) ==> v@ == walk_course::meaning_it(
            ix,
            (ix.references)(self.sym.name@),
            self.sym.key(),
        )
        &&& resolved_truly(ix, self.rows@, self.resolved@, self.resolved@.len() as int)
    }

    /// Begins with what the cache knows.
    pub fn begin(cache: &WalkCache, sym: Symbol) -> (out: ReferenceLookup)
        ensures
            out.wf(),
            out.sym == sym,
            out.rows@.len() == 0,
            out.resolved@.len() == 0,
            match cache.references.at(sym.key()) {
                Some(v) => out.stage matches LookupStage::Known(w) && w@ == v@,
                None => out.stage is Rows,
            },
            forall|ix: IndexRows|
                (cache.references.at(sym.key()) matches Some(v) ==> v@ == walk_course::meaning_it(
                    ix,
                    (ix.references)(sym.name@),
                    sym.key(),
                )) ==> #[trigger] out.true_to(ix),
    {
        let stage = match cache.references.get(&definition_key(&sym)) {
            Some(v) => LookupStage::Known(copy_references(v)),
            None => LookupStage::Rows,
        };
        ReferenceLookup { sym, rows: Vec::new(), resolved: Vec::new(), stage }
    }

    fn earlier(&self, n: usize) -> (r: Option<usize>)
        requires
            n < self.rows@.len(),
            n <= self.resolved@.len(),
        ensures
            match r {
                Some(i) => i < n && spelled_alike(self.rows@[i as int], self.rows@[n as int]),
                None => forall|i: int|
                    0 <= i < n ==> !spelled_alike(#[trigger] self.rows@[i], self.rows@[n as int]),
            },
    {
        let mut i: usize = 0;
        while i < n
            invariant
                n < self.rows@.len(),
                i <= n,
                forall|j: int| 0 <= j < i ==> !spelled_alike(#[trigger] self.rows@[j], self.rows@[n as int]),
            decreases n - i,
        {
            if same(self.rows[i].from_file.as_str(), self.rows[n].from_file.as_str()) && same(
                self.rows[i].to_name.as_str(),
                self.rows[n].to_name.as_str(),
            ) {
                return Some(i);
            }
            i += 1;
        }
        None
    }

    /// Goes on as far as earlier rows and the cache lead.
    fn advance(&mut self, cache: &WalkCache)
        requires
            old(self).resolved@.len() <= old(self).rows@.len(),
        ensures
            final(self).wf(),
            went_on(*old(self), *final(self), *cache),
            forall|ix: IndexRows|
                walk_cache::tells(cache.resolutions, walk_course::right_meanings(ix)) && old(self).rows@ == (
                ix.references)(old(self).sym.name@) && resolved_truly(
                    ix,
                    old(self).rows@,
                    old(self).resolved@,
                    old(self).resolved@.len() as int,
                ) ==> #[trigger] final(self).true_to(ix),
    {
        let ghost start = self.resolved@;
        let ghost rows = self.rows@;
        while self.resolved.len() < self.rows.len()
            invariant
                self.sym == old(self).sym,
                self.rows == old(self).rows,
                rows == self.rows@,
                start == old(self).resolved@,
                start.len() <= self.resolved@.len() <= rows.len(),
                forall|j: int| 0 <= j < start.len() ==> #[trigger] self.resolved@[j] == start[j],
                forall|j: int|
                    start.len() <= j < self.resolved@.len() ==> #[trigger] reused(*cache, rows, self.resolved@, j),
                forall|ix: IndexRows|
                    walk_cache::tells(cache.resolutions, walk_course::right_meanings(ix)) && resolved_truly(
                        ix,
                        rows,
                        start,
                        start.len() as int,
                    ) ==> #[trigger] resolved_truly(ix, rows, self.resolved@, self.resolved@.len() as int),
            decreases rows.len() - self.resolved@.len(),
        {
            let n: usize = self.resolved.len();
            let ghost before = self.resolved@;
            let found = match self.earlier(n) {
                Some(i) => copy_symbols(&self.resolved[i]),
                None => {
                    let lookup = MeaningLookup::begin(
                        cache,
                        self.rows[n].from_file.as_str(),
                        self.rows[n].to_name.as_str(),
                    );
                    match lookup.stage {
                        MeaningStage::Known(v) => v,
                        _ => {
                            self.stage = LookupStage::Meaning(lookup);
                            return ;
                        },
                    }
                },
            };
            self.resolved.push(found);
            proof {
                let after = self.resolved@;
                assert forall|j: int| start.len() <= j < after.len() implies #[trigger] reused(*cache, rows, after, j) by {
                    if j < n {
                        assert(reused(*cache, rows, before, j));
                        let known = cache.resolutions.at(spelling(rows[j].from_file@, rows[j].to_name@));
                        if !(known is Some && before[j]@ == known->0@) {
                            let i = choose|i: int|
                                0 <= i < j && spelled_alike(rows[i], rows[j]) && (#[trigger] before[i])@ == before[j]@;
                            assert(after[i] == before[i]);
                        }
                        assert(after[j] == before[j]);
                    } else {
                        assert(after[j] == found);
                        if exists|i: int|
                            0 <= i < j && spelled_alike(rows[i], rows[j]) && (#[trigger] before[i])@ == found@ {
                            let i = choose|i: int|
                                0 <= i < j && spelled_alike(rows[i], rows[j]) && (#[trigger] before[i])@ == found@;
                            assert(after[i] == before[i]);
                        }
                    }
                }
                assert forall|ix: IndexRows|
                    walk_cache::tells(cache.resolutions, walk_course::right_meanings(ix)) && resolved_truly(
                        ix,
                        rows,
                        start,
                        start.len() as int,
                    ) implies #[trigger] resolved_truly(ix, rows, after, after.len() as int) by {
                    assert(resolved_truly(ix, rows, before, before.len() as int));
                    lemma_reusing_stays_true(ix, *cache, rows, before, after);
                }
            }
        }
        let found = resolve_references_to_symbol(&self.sym, &self.rows, &self.resolved);
        self.stage = LookupStage::Found(found);
    }

    /// Takes the references to the name of the definition.
    pub fn take_rows(&mut self, cache: &WalkCache, rows: Vec<Reference>)
        requires
            old(self).wf(),
            old(self).stage is Rows,
        ensures
            final(self).wf(),
            went_on((ReferenceLookup { rows, ..*old(self) }), *final(self), *cache),
            forall|ix: IndexRows|
                walk_cache::tells(cache.resolutions, walk_course::right_meanings(ix)) && rows@ == (ix.references)(
                    old(self).sym.name@,
                ) ==> #[trigger] final(self).true_to(ix),
    {
        self.rows = rows;
        self.advance(cache);
    }

    /// Takes what the spelling that was looked up means.
    pub fn take_meaning(&mut self, cache: &WalkCache, found: Vec<Symbol>)
        requires
            old(self).wf(),
            old(self).stage is Meaning,
        ensures
            final(self).wf(),
            exists|mid: ReferenceLookup|
                mid.resolved@ == old(self).resolved@.push(found) && mid == (ReferenceLookup {
                    resolved: mid.resolved,
                    ..*old(self)
                }) && #[trigger] went_on(mid, *final(self), *cache),
            forall|ix: IndexRows|
                walk_cache::tells(cache.resolutions, walk_course::right_meanings(ix)) && old(self).true_to(ix)
                    && found@ == walk_course::meaning(
                    ix,
                    old(self).stage->Meaning_0.file@,
                    old(self).stage->Meaning_0.name@,
                ) ==> #[trigger] final(self).true_to(ix),
    {
        let ghost before = self.resolved@;
        self.resolved.push(found);
        proof {
            let after = self.resolved@;
            assert forall|ix: IndexRows|
                old(self).true_to(ix) && found@ == walk_course::meaning(
                    ix,
                    old(self).stage->Meaning_0.file@,
                    old(self).stage->Meaning_0.name@,
                ) implies #[trigger] resolved_truly(ix, old(self).rows@, after, after.len() as int) by {
                assert forall|j: int| 0 <= j < after.len() implies (#[trigger] after[j])@ == walk_course::meaning(
                    ix,
                    old(self).rows@[j].from_file@,
                    old(self).rows@[j].to_name@,
                ) by {
                    if j < before.len() {
                        assert(after[j] == before[j]);
                    }
                }
            }
        }
        let ghost mid = *self;
        self.advance(cache);
        assert(went_on(mid, *self, *cache));
    }
}

proof fn lemma_reusing_stays_true(
    ix: IndexRows,
    cache: WalkCache,
    rows: Seq<Reference>,
    before: Seq<Vec<Symbol>>,
    after: Seq<Vec<Symbol>>,
)
    requires
        walk_cache::tells(cache.resolutions, walk_course::right_meanings(ix)),
        resolved_truly(ix, rows, before, before.len() as int),
        after.len() == before.len() + 1,
        forall|j: int| 0 <= j < before.len() ==> #[trigger] after[j] == before[j],
        reused(cache, rows, after, before.len() as int),
    ensures
        resolved_truly(ix, rows, after, after.len() as int),
{
    let n = before.len() as int;
    let k = spelling(rows[n].from_file@, rows[n].to_name@);
    if cache.resolutions.at(k) is Some {
        assert((walk_course::right_meanings(ix))(k, cache.resolutions.at(k)->0));
    }
    assert forall|j: int| 0 <= j < after.len() implies (#[trigger] after[j])@ == walk_course::meaning(
        ix,
        rows[j].from_file@,
        rows[j].to_name@,
    ) by {
        if j < n {
            assert(after[j] == before[j]);
        } else if !(cache.resolutions.at(k) is Some && after[n]@ == cache.resolutions.at(k)->0@) {
            let i = choose|i: int|
                0 <= i < n && spelled_alike(rows[i], rows[n]) && (#[trigger] after[i])@ == after[n]@;
            assert(after[i] == before[i]);
        }
    }
}

/// A lookup went on: what its rows mean is added as far as earlier rows and the
/// cache lead. Then it is done, or stands at a spelling that neither knows.
pub open spec fn went_on(a: ReferenceLookup, b: ReferenceLookup, cache: WalkCache) -> bool {
    &&& b.sym == a.sym
    &&& b.rows == a.rows
    &&& a.resolved@.len() <= b.resolved@.len() <= a.rows@.len()
    &&& forall|j: int| 0 <= j < a.resolved@.len() ==> #[trigger] b.resolved@[j] == a.resolved@[j]
    &&& forall|j: int|
        a.resolved@.len() <= j < b.resolved@.len() ==> #[trigger] reused(cache, a.rows@, b.resolved@, j)
    &&& if b.resolved@.len() == a.rows@.len() {
        b.stage is Found
    } else {
        let next = a.rows@[b.resolved@.len() as int];
        &&& b.stage matches LookupStage::Meaning(l) && l.stage is Candidates
        &&& cache.resolutions.at(spelling(next.from_file@, next.to_name@)) is None
        &&& forall|i: int| 0 <= i < b.resolved@.len() ==> !spelled_alike(#[trigger] a.rows@[i], next)
    }
}

/// The references that a lookup ends with.
pub open spec fn answer(lookup: ReferenceLookup) -> Option<Seq<Reference>> {
    match lookup.stage {
        LookupStage::Known(v) => Some(v@),
        LookupStage::Found(v) => Some(v@),
        _ => None,
    }
}

/// What a lookup finds is what the index says, whatever a right cache already
/// knew: exactly the references that mean the definition.
pub proof fn law_a_lookup_finds_what_the_index_says(ix: IndexRows, lookup: ReferenceLookup)
    requires
        lookup.wf(),
        lookup.true_to(ix),
        answer(lookup) is Some,
    ensures
        answer(lookup) == Some(
            walk_course::meaning_it(ix, (ix.references)(lookup.sym.name@), lookup.sym.key()),
        ),
{
    if lookup.stage is Found {
        lemma_found(ix, lookup.rows@, lookup.resolved@, lookup.sym.key());
    }
}

/// A lookup always goes on: with every spelling whose meaning it takes, more of
/// its rows have one, and once all have, the answer is there.
pub proof fn law_a_lookup_comes_to_an_answer(
    a: ReferenceLookup,
    mid: ReferenceLookup,
    b: ReferenceLookup,
    cache: WalkCache,
    found: Vec<Symbol>,
)
    requires
        a.wf(),
        a.stage is Meaning,
        mid.resolved@ == a.resolved@.push(found),
        mid == (ReferenceLookup { resolved: mid.resolved, ..a }),
        went_on(mid, b, cache),
    ensures
        b.rows@.len() - b.resolved@.len() < a.rows@.len() - a.resolved@.len(),
        b.stage is Found || b.stage is Meaning,
        b.stage is Found == (b.resolved@.len() == b.rows@.len()),
{
}

proof fn lemma_found(ix: IndexRows, rows: Seq<Reference>, resolved: Seq<Vec<Symbol>>, key: model::SymbolKey)
    requires
        rows.len() <= resolved.len(),
        resolved_truly(ix, rows, resolved, rows.len() as int),
    ensures
        impact::rows_resolving_to(rows, resolved, key) == walk_course::meaning_it(ix, rows, key),
    decreases rows.len(),
{
    if rows.len() > 0 {
        let front = rows.drop_last();
        assert forall|j: int| 0 <= j < front.len() implies (#[trigger] resolved[j])@ == walk_course::meaning(
            ix,
            front[j].from_file@,
            front[j].to_name@,
        ) by {
            assert(front[j] == rows[j]);
        }
        lemma_found(ix, front, resolved, key);
        assert(resolved[rows.len() - 1]@ == walk_course::meaning(ix, rows.last().from_file@, rows.last().to_name@));
    }
}

} // verus!
