//! Cycles of imports and the members that churn most.
use vstd::prelude::*;
use crate::history::risk_diff;
use crate::history::risk_diff::Component;
use crate::order;
use crate::text;

verus! {

/// The member at `i` has the most churn of the first `n`, and is the first that
/// has as much.
pub open spec fn churns_most(c: Component, n: int, i: int) -> bool {
    &&& 0 <= i < n
    &&& c.churn@[i] is Some
    &&& forall|j: int|
        0 <= j < n && (#[trigger] c.churn@[j]) is Some ==> c.churn@[j]->0 <= c.churn@[i]->0 && (c.churn@[j]->0
            == c.churn@[i]->0 ==> i <= j)
}

proof fn lemma_some_member_churns_most(c: Component, n: int)
    requires
        0 <= n <= c.churn@.len(),
        exists|k: int| 0 <= k < n && (#[trigger] c.churn@[k]) is Some,
    ensures
        exists|i: int| #[trigger] churns_most(c, n, i),
    decreases n,
{
    if exists|k: int| 0 <= k < n - 1 && (#[trigger] c.churn@[k]) is Some {
        lemma_some_member_churns_most(c, n - 1);
        let b = choose|i: int| #[trigger] churns_most(c, n - 1, i);
        if c.churn@[n - 1] is Some && c.churn@[n - 1]->0 > c.churn@[b]->0 {
            assert(churns_most(c, n, n - 1));
        } else {
            assert(churns_most(c, n, b));
        }
    } else {
        assert(c.churn@[n - 1] is Some);
        assert(churns_most(c, n, n - 1));
    }
}

/// The most churned member is the first with the highest churn that is known;
/// there is none only where no churn is.
pub proof fn law_the_first_of_the_highest_churn_is_picked(c: Component)
    requires
        c.files@.len() == c.churn@.len(),
    ensures
        risk_diff::most_churned(c) is None <==> forall|j: int|
            0 <= j < c.churn@.len() ==> (#[trigger] c.churn@[j]) is None,
        risk_diff::most_churned(c) matches Some(f) ==> exists|i: int| #[trigger]
            churns_most(c, c.churn@.len() as int, i) && c.files@[i]@ == f,
{
    let n = c.churn@.len() as int;
    if exists|k: int| 0 <= k < n && (#[trigger] c.churn@[k]) is Some {
        lemma_some_member_churns_most(c, n);
        let i = choose|i: int| #[trigger] churns_most(c, n, i);
        assert forall|j: int| 0 <= j < n && (#[trigger] c.churn@[j]) is Some implies c.churn@[j]->0 < c.churn@[i]->0 || (
        c.churn@[j]->0 == c.churn@[i]->0 && i <= j) by {
            assert(c.churn@[j]->0 <= c.churn@[i]->0);
        }
        assert(risk_diff::is_most_churned(c.churn@, i));
        let b = choose|b: int| risk_diff::is_most_churned(c.churn@, b);
        assert(risk_diff::is_most_churned(c.churn@, b));
        assert(churns_most(c, n, b));
    } else {
        assert forall|i: int| !risk_diff::is_most_churned(c.churn@, i) by {
            if 0 <= i < n {
                assert(!(c.churn@[i] is Some));
            }
        }
    }
}

/// The member at `i` has the most churn of the first `n`, and none that has as
/// much comes before it by name.
pub open spec fn churns_most_by_name(c: Component, n: int, i: int) -> bool {
    &&& 0 <= i < n
    &&& c.churn@[i] is Some
    &&& forall|j: int|
        0 <= j < n && (#[trigger] c.churn@[j]) is Some ==> c.churn@[j]->0 <= c.churn@[i]->0 && (c.churn@[j]->0
            == c.churn@[i]->0 ==> !order::text_before(c.files@[j]@, c.files@[i]@))
}

proof fn lemma_some_member_leads_by_name(c: Component, n: int)
    requires
        0 <= n <= c.churn@.len(),
        c.files@.len() == c.churn@.len(),
        exists|k: int| 0 <= k < n && (#[trigger] c.churn@[k]) is Some,
    ensures
        exists|i: int| #[trigger] churns_most_by_name(c, n, i),
    decreases n,
{
    let last = c.files@[n - 1]@;
    order::lemma_text_before_irreflexive(last);
    if exists|k: int| 0 <= k < n - 1 && (#[trigger] c.churn@[k]) is Some {
        lemma_some_member_leads_by_name(c, n - 1);
        let b = choose|i: int| #[trigger] churns_most_by_name(c, n - 1, i);
        let best = c.files@[b]@;
        if c.churn@[n - 1] is Some && (c.churn@[n - 1]->0 > c.churn@[b]->0 || (c.churn@[n - 1]->0 == c.churn@[b]->0
            && order::text_before(last, best))) {
            assert forall|j: int| 0 <= j < n && (#[trigger] c.churn@[j]) is Some implies c.churn@[j]->0 <= c.churn@[n
                - 1]->0 && (c.churn@[j]->0 == c.churn@[n - 1]->0 ==> !order::text_before(c.files@[j]@, last)) by {
                if j < n - 1 && c.churn@[j]->0 == c.churn@[n - 1]->0 && order::text_before(c.files@[j]@, last) {
                    order::lemma_text_before_transitive(c.files@[j]@, last, best);
                }
            }
            assert(churns_most_by_name(c, n, n - 1));
        } else {
            assert(churns_most_by_name(c, n, b));
        }
    } else {
        assert(c.churn@[n - 1] is Some);
        assert(churns_most_by_name(c, n, n - 1));
    }
}

/// Of the members with the highest churn that is known, the first by name is
/// told of the cycle of a file.
pub proof fn law_the_first_name_of_the_highest_churn_is_picked(c: Component)
    requires
        c.files@.len() == c.churn@.len(),
    ensures
        risk_diff::most_churned_by_name(c) is None <==> forall|j: int|
            0 <= j < c.churn@.len() ==> (#[trigger] c.churn@[j]) is None,
        risk_diff::most_churned_by_name(c) matches Some(f) ==> exists|i: int| #[trigger]
            churns_most_by_name(c, c.churn@.len() as int, i) && c.files@[i]@ == f,
{
    let n = c.churn@.len() as int;
    if exists|k: int| 0 <= k < n && (#[trigger] c.churn@[k]) is Some {
        lemma_some_member_leads_by_name(c, n);
        let i = choose|i: int| #[trigger] churns_most_by_name(c, n, i);
        assert forall|j: int| 0 <= j < n && (#[trigger] c.churn@[j]) is Some implies c.churn@[j]->0 < c.churn@[i]->0 || (
        c.churn@[j]->0 == c.churn@[i]->0 && !order::text_before(c.files@[j]@, c.files@[i]@)) by {
            assert(c.churn@[j]->0 <= c.churn@[i]->0);
        }
        assert(risk_diff::leads_by_name(c, i));
        let b = choose|b: int| risk_diff::leads_by_name(c, b);
        assert(risk_diff::leads_by_name(c, b));
        assert(churns_most_by_name(c, n, b));
    } else {
        assert forall|i: int| !risk_diff::leads_by_name(c, i) by {
            if 0 <= i < n {
                assert(!(c.churn@[i] is Some));
            }
        }
    }
}

/// A component of at least two files that holds the file.
pub open spec fn is_cycle_of(c: Component, file: Seq<char>) -> bool {
    c.files@.len() >= 2 && text::views(c.files@).contains(file)
}

/// The cycle of a file is the first component of at least two files that holds
/// it; without one the file is in none.
pub proof fn law_the_cycle_of_a_file_is_the_first_that_holds_it(components: Seq<Component>, file: Seq<char>, from: int)
    requires
        0 <= from,
    ensures
        match risk_diff::first_concerning(components, seq![file], from) {
            Some(i) => from <= i < components.len() && is_cycle_of(components[i], file) && forall|j: int|
                from <= j < i ==> !is_cycle_of(#[trigger] components[j], file),
            None => forall|j: int|
                from <= j < components.len() ==> !is_cycle_of(#[trigger] components[j], file),
        },
    decreases components.len() - from,
{
    if from < components.len() {
        let c = components[from];
        let members = text::views(c.files@);
        assert(risk_diff::concerns(c, seq![file]) <==> is_cycle_of(c, file)) by {
            if risk_diff::meet(members, seq![file]) {
                let i = choose|i: int| 0 <= i < members.len() && seq![file].contains(#[trigger] members[i]);
                assert(members[i] == file);
            }
            if members.contains(file) {
                let i = choose|i: int| 0 <= i < members.len() && members[i] == file;
                assert(seq![file][0] == members[i]);
                assert(seq![file].contains(members[i]));
            }
        }
        law_the_cycle_of_a_file_is_the_first_that_holds_it(components, file, from + 1);
    }
}

} // verus!
