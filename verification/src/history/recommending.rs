//! The recommendation of tests from request to answer: what is answered at
//! once, and what waits for the dependency walks.
use vstd::prelude::*;
use vstd::string::*;
use crate::history::answer;
use crate::history::answer::{
    assemble, indexed_tests, is_nothing_usable, nothing_named, nothing_parsed, IndexedPath, Inputs,
};
use crate::history::reach::{ReachRun, ReachabilityOptions};
use crate::history::recommend;
use crate::history::recommend::{
    base_recommendations, triage_inputs, BaseRecommendations, CoupledInput, InputTriage, KnownInput,
    TestRecommendations,
};
use crate::impact::WalkBudget;
use crate::text;
use crate::text::copy_strings;

verus! {

/// A recommendation whose walks are under way.
#[derive(Debug)]
pub struct Recommending {
    pub inputs: Inputs,
    pub base: BaseRecommendations,
    pub triage: InputTriage,
    /// The test files of the index.
    pub tests: Vec<String>,
    pub run: ReachRun,
}

/// How a recommendation begins.
#[derive(Debug)]
pub enum Opening {
    Answer(TestRecommendations),
    Walk(Recommending),
}

/// The paths of an index.
pub open spec fn names_of(index: Seq<IndexedPath>) -> Seq<Seq<char>> {
    index.map_values(|p: IndexedPath| p.path@)
}

fn list_names(index: &Vec<IndexedPath>) -> (out: Vec<String>)
    ensures
        text::views(out@) == names_of(index@),
{
    broadcast use text::group_views;
    let ghost names = names_of(index@);
    let mut out: Vec<String> = Vec::new();
    let mut i: usize = 0;
    while i < index.len()
        invariant
            i <= index@.len(),
            names == names_of(index@),
            text::views(out@) == names.take(i as int),
        decreases index@.len() - i,
    {
        broadcast use text::group_views;
        assert(names.take(i + 1) =~= names.take(i as int).push(names[i as int]));
        out.push(index[i].path.clone());
        i += 1;
    }
    assert(names.take(names.len() as int) =~= names);
    out
}

/// The walks that a recommendation begins with: those of the walkable inputs,
/// or none where the index holds no test that they could reach.
pub open spec fn begins_walks(w: Recommending, opts: ReachabilityOptions) -> bool {
    &&& text::views(w.run.walkable@) == (if w.tests@.len() == 0 {
        Seq::empty()
    } else {
        text::views(w.triage.walkable@)
    })
    &&& text::views(w.run.inputs@) == text::views(w.inputs.paths@)
    &&& w.run.floor == opts.min_input_budget
    &&& w.run.pool == opts.work_budget
    &&& w.run.at == 0
    &&& w.run.share == 0
    &&& w.run.budget == (WalkBudget { remaining: 0, exhausted: true, deadline_hit: false })
    &&& w.run.outcome.reached@.len() == 0 && w.run.outcome.unwalked@.len() == 0
        && w.run.outcome.partial@.len() == 0 && w.run.outcome.no_symbol@.len() == 0
}

/// How a request is opened. Where no input names a file, or none has a parser,
/// the answer needs no walk.
pub open spec fn opens(
    o: Opening,
    inputs: Inputs,
    index: Seq<IndexedPath>,
    rows: Seq<CoupledInput>,
    known: Seq<KnownInput>,
    opts: ReachabilityOptions,
) -> bool {
    match o {
        Opening::Answer(r) => if inputs.paths@.len() == 0 {
            answer::answers_nothing(r, inputs@)
        } else {
            exists|base: BaseRecommendations, t: InputTriage|
                {
                    &&& #[trigger] recommend::base_of(base, names_of(index), rows)
                    &&& #[trigger] recommend::triages(t, known)
                    &&& answer::nothing_usable(t)
                    &&& answer::answers_unparsed(r, inputs@, base, t)
                }
        },
        Opening::Walk(w) => {
            &&& inputs.paths@.len() > 0
            &&& w.inputs == inputs
            &&& recommend::base_of(w.base, names_of(index), rows)
            &&& recommend::triages(w.triage, known)
            &&& !answer::nothing_usable(w.triage)
            &&& text::views(w.tests@) == answer::test_files(index, w.base)
            &&& begins_walks(w, opts)
        },
    }
}

/// Opens a request for tests. `rows` and `known` say of each input what it
/// changes with and what is known of it.
pub fn recommend_tests_with_reachability(
    inputs: Inputs,
    index: &Vec<IndexedPath>,
    rows: &Vec<CoupledInput>,
    known: &Vec<KnownInput>,
    opts: &ReachabilityOptions,
) -> (out: Opening)
    requires
        inputs.paths@.len() == inputs.given@.len(),
    ensures
        opens(out, inputs, index@, rows@, known@, *opts),
{
    broadcast use text::group_views;
    if inputs.paths.len() == 0 {
        return Opening::Answer(nothing_named(&inputs));
    }
    let names = list_names(index);
    let base = base_recommendations(&names, rows);
    let triage = triage_inputs(known);
    if is_nothing_usable(&triage) {
        let answer = nothing_parsed(&inputs, base, &triage);
        proof {
            assert(recommend::base_of(base, names_of(index@), rows@));
            assert(recommend::triages(triage, known@));
        }
        return Opening::Answer(answer);
    }
    let tests = indexed_tests(index, &base);
    let walkable = if tests.len() == 0 {
        Vec::new()
    } else {
        copy_strings(&triage.walkable)
    };
    let run = ReachRun::begin(walkable, copy_strings(&inputs.paths), opts);
    Opening::Walk(Recommending { inputs, base, triage, tests, run })
}

impl Recommending {
    /// The answer, once the walks are over.
    pub fn finish(self, opts: &ReachabilityOptions) -> (out: TestRecommendations)
        requires
            self.inputs.paths@.len() == self.inputs.given@.len(),
        ensures
            answer::answers(
                out,
                self.inputs@,
                self.base,
                self.triage,
                text::views(self.tests@),
                self.run.outcome,
                *opts,
            ),
    {
        assemble(&self.inputs, self.base, &self.triage, &self.tests, self.run.outcome, opts)
    }
}

} // verus!
