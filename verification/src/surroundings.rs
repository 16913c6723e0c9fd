//! What lies around definitions, and the order in which it is offered to a
//! bundle.
use vstd::prelude::*;
use crate::bundle;
use crate::bundle::callee_targets;
use crate::model::{Reference, Symbol};
use crate::text;

verus! {

/// What lies around a definition: the references that mean it, the references
/// inside it, and what each of these means.
#[derive(Debug)]
pub struct Surroundings {
    pub callers: Vec<Reference>,
    pub calls: Vec<Reference>,
    pub resolved: Vec<Vec<Symbol>>,
}

/// A line of a file.
#[derive(Debug)]
pub struct Place {
    pub file: String,
    pub line: u32,
}

impl View for Place {
    type V = (Seq<char>, u32);

    open spec fn view(&self) -> (Seq<char>, u32) {
        (self.file@, self.line)
    }
}

pub open spec fn caller_places(rows: Seq<Reference>) -> Seq<(Seq<char>, u32)> {
    rows.map_values(|r: Reference| (r.from_file@, r.line))
}

pub open spec fn definition_places(defs: Seq<Symbol>) -> Seq<(Seq<char>, u32)> {
    defs.map_values(|d: Symbol| (d.file_path@, d.line_start))
}

/// The definitions that the references inside some definitions lead to, each
/// once.
pub open spec fn called_around(around: Seq<Surroundings>) -> Seq<Symbol>
    decreases around.len(),
{
    if around.len() == 0 {
        Seq::empty()
    } else {
        let front = called_around(around.drop_last());
        front + bundle::targets(around.last().calls@, around.last().resolved@, front)
    }
}

/// Where what lies around some definitions stands: of each in turn first its
/// callers, and then the definitions that it calls and none before it did.
pub open spec fn places(around: Seq<Surroundings>, callers: bool, callees: bool) -> Seq<(Seq<char>, u32)>
    decreases around.len(),
{
    if around.len() == 0 {
        Seq::empty()
    } else {
        let last = around.last();
        places(around.drop_last(), callers, callees) + (if callers {
            caller_places(last.callers@)
        } else {
            Seq::empty()
        }) + (if callees {
            definition_places(bundle::targets(last.calls@, last.resolved@, called_around(around.drop_last())))
        } else {
            Seq::empty()
        })
    }
}

fn add_callers(out: &mut Vec<Place>, rows: &Vec<Reference>)
    ensures
        text::views(final(out)@) == text::views(old(out)@) + caller_places(rows@),
{
    broadcast use text::group_views;
    let ghost start = text::views(out@);
    let ghost all = caller_places(rows@);
    let mut i: usize = 0;
    assert(start + all.take(0) =~= start);
    while i < rows.len()
        invariant
            i <= rows@.len(),
            all == caller_places(rows@),
            text::views(out@) == start + all.take(i as int),
        decreases rows@.len() - i,
    {
        broadcast use text::group_views;
        out.push(Place { file: rows[i].from_file.clone(), line: rows[i].line });
        assert(start + all.take(i + 1) =~= (start + all.take(i as int)).push(all[i as int]));
        i += 1;
    }
    assert(all.take(all.len() as int) =~= all);
}

fn add_definitions(out: &mut Vec<Place>, defs: &Vec<Symbol>)
    ensures
        text::views(final(out)@) == text::views(old(out)@) + definition_places(defs@),
{
    broadcast use text::group_views;
    let ghost start = text::views(out@);
    let ghost all = definition_places(defs@);
    let mut i: usize = 0;
    assert(start + all.take(0) =~= start);
    while i < defs.len()
        invariant
            i <= defs@.len(),
            all == definition_places(defs@),
            text::views(out@) == start + all.take(i as int),
        decreases defs@.len() - i,
    {
        broadcast use text::group_views;
        out.push(Place { file: defs[i].file_path.clone(), line: defs[i].line_start });
        assert(start + all.take(i + 1) =~= (start + all.take(i as int)).push(all[i as int]));
        i += 1;
    }
    assert(all.take(all.len() as int) =~= all);
}

/// Lists where what lies around some definitions stands, in the order in which
/// it is offered.
pub fn places_around(around: &Vec<Surroundings>, callers: bool, callees: bool) -> (out: Vec<Place>)
    requires
        forall|i: int|
            0 <= i < around@.len() ==> (#[trigger] around@[i]).calls@.len() == around@[i].resolved@.len(),
    ensures
        text::views(out@) == places(around@, callers, callees),
{
    broadcast use text::group_views;
    let mut out: Vec<Place> = Vec::new();
    let mut seen: Vec<Symbol> = Vec::new();
    let mut i: usize = 0;
    assert(around@.take(0) =~= Seq::<Surroundings>::empty());
    assert(text::views(out@) =~= Seq::empty());
    while i < around.len()
        invariant
            i <= around@.len(),
            forall|i: int|
                0 <= i < around@.len() ==> (#[trigger] around@[i]).calls@.len() == around@[i].resolved@.len(),
            seen@ == called_around(around@.take(i as int)),
            text::views(out@) == places(around@.take(i as int), callers, callees),
        decreases around@.len() - i,
    {
        broadcast use text::group_views;
        proof {
            assert(around@.take(i + 1).drop_last() =~= around@.take(i as int));
            assert(around@.take(i + 1).last() == around@[i as int]);
        }
        let ghost before = text::views(out@);
        if callers {
            add_callers(&mut out, &around[i].callers);
        } else {
            assert(before + Seq::<(Seq<char>, u32)>::empty() =~= before);
        }
        let ghost between = text::views(out@);
        let mut called = callee_targets(&around[i].calls, &around[i].resolved, &seen);
        if callees {
            add_definitions(&mut out, &called);
        } else {
            assert(between + Seq::<(Seq<char>, u32)>::empty() =~= between);
        }
        seen.append(&mut called);
        i += 1;
    }
    assert(around@.take(around@.len() as int) =~= around@);
    out
}

} // verus!
