//! Which components of a candidate are to be updated.
use serde_json::Value;
use vstd::prelude::*;

use crate::error::{GEPAError, Result};
use crate::optimizer::adapter::{candidate_entries, Candidate};
use crate::optimizer::data_loader::DataId;
use crate::optimizer::state::{component_names, names_of, GEPAState};
use crate::score::Score;
use crate::text::text_views;

verus! {

/// Chooses the components that a mutation updates.
pub trait ComponentSelector<Id: DataId>: Send + Sync {
    /// Whether `r` is what the selector may give for a candidate with the given
    /// components, and `after` the state that is left: anything, unless an impl
    /// says more.
    open spec fn may_give(
        &self,
        before: GEPAState<Id>,
        after: GEPAState<Id>,
        trajectories: Seq<Value>,
        subsample_scores: Seq<Score>,
        candidate_idx: usize,
        entries: Seq<(Seq<char>, Seq<char>)>,
        r: Result<Vec<String>>,
    ) -> bool {
        true
    }

    /// The names of the components to update, at least one. Of the state only
    /// the counters of the components that come next may change.
    ///
    /// # Errors
    /// An error where there is no component.
    fn select_components(
        &self,
        state: &mut GEPAState<Id>,
        trajectories: &[Value],
        subsample_scores: &[Score],
        candidate_idx: usize,
        candidate: &Candidate,
    ) -> (r: Result<Vec<String>>)
        requires
            candidate_idx < old(state).named_predictor_id_to_update_next@.len(),
        ensures
            *final(state) == (GEPAState {
                named_predictor_id_to_update_next: final(state).named_predictor_id_to_update_next,
                ..*old(state)
            }),
            final(state).named_predictor_id_to_update_next@.len() == old(
                state,
            ).named_predictor_id_to_update_next@.len(),
            r matches Ok(names) ==> names@.len() > 0,
            self.may_give(
                *old(state),
                *final(state),
                trajectories@,
                subsample_scores@,
                candidate_idx,
                candidate_entries(*candidate),
                r,
            ),
    ;
}

fn no_components() -> (e: GEPAError)
    ensures
        e matches GEPAError::Config(text) && text@ == "candidate has no components to update"@,
{
    GEPAError::Config("candidate has no components to update".to_owned())
}

/// One component at a time, in turn. Every candidate has its own counter.
pub struct RoundRobinSelector;

/// Whether `name` is the component whose turn it was with candidate `i`, and
/// `after` is `before` with the turn passed on.
pub open spec fn took_turn<Id: DataId>(
    before: GEPAState<Id>,
    after: GEPAState<Id>,
    i: usize,
    name: Seq<char>,
) -> bool {
    let n = before.list_of_named_predictors@.len() as int;
    let turn = before.named_predictor_id_to_update_next@[i as int] as int % n;
    &&& n > 0
    &&& name == before.list_of_named_predictors@[turn]@
    &&& after.list_of_named_predictors == before.list_of_named_predictors
    &&& after.named_predictor_id_to_update_next@
        == before.named_predictor_id_to_update_next@.update(i as int, ((turn + 1) % n) as usize)
}

impl<Id: DataId> ComponentSelector<Id> for RoundRobinSelector {
    /// The component whose turn it is.
    open spec fn may_give(
        &self,
        before: GEPAState<Id>,
        after: GEPAState<Id>,
        trajectories: Seq<Value>,
        subsample_scores: Seq<Score>,
        candidate_idx: usize,
        entries: Seq<(Seq<char>, Seq<char>)>,
        r: Result<Vec<String>>,
    ) -> bool {
        match r {
            Ok(names) => names@.len() == 1 && took_turn(before, after, candidate_idx, names@[0]@),
            Err(e) => {
                &&& before.list_of_named_predictors@.len() == 0
                &&& e matches GEPAError::Config(text)
                &&& text@ == "candidate has no components to update"@
                &&& after == before
            },
        }
    }

    fn select_components(
        &self,
        state: &mut GEPAState<Id>,
        trajectories: &[Value],
        subsample_scores: &[Score],
        candidate_idx: usize,
        candidate: &Candidate,
    ) -> (r: Result<Vec<String>>) {
        let n: usize = state.list_of_named_predictors.len();
        if n == 0 {
            return Err(no_components());
        }
        let pid: usize = state.named_predictor_id_to_update_next[candidate_idx] % n;
        let next: usize = if pid + 1 == n {
            0
        } else {
            pid + 1
        };
        proof {
            if pid + 1 < n {
                vstd::arithmetic::div_mod::lemma_small_mod((pid + 1) as nat, n as nat);
            } else {
                vstd::arithmetic::div_mod::lemma_mod_self_0(n as int);
            }
        }
        state.named_predictor_id_to_update_next.set(candidate_idx, next);
        let name = state.list_of_named_predictors[pid].clone();
        Ok(vec![name])
    }
}

/// All components of the candidate.
pub struct AllComponentSelector;

impl<Id: DataId> ComponentSelector<Id> for AllComponentSelector {
    /// The names of all components, in their order.
    open spec fn may_give(
        &self,
        before: GEPAState<Id>,
        after: GEPAState<Id>,
        trajectories: Seq<Value>,
        subsample_scores: Seq<Score>,
        candidate_idx: usize,
        entries: Seq<(Seq<char>, Seq<char>)>,
        r: Result<Vec<String>>,
    ) -> bool {
        &&& after == before
        &&& match r {
            Ok(names) => entries.len() > 0 && text_views(names@) == component_names(entries),
            Err(e) => {
                &&& entries.len() == 0
                &&& e matches GEPAError::Config(text)
                &&& text@ == "candidate has no components to update"@
            },
        }
    }

    fn select_components(
        &self,
        state: &mut GEPAState<Id>,
        trajectories: &[Value],
        subsample_scores: &[Score],
        candidate_idx: usize,
        candidate: &Candidate,
    ) -> (r: Result<Vec<String>>) {
        let names = names_of(candidate);
        assert(text_views(names@).len() == component_names(candidate_entries(*candidate)).len());
        if names.len() == 0 {
            return Err(no_components());
        }
        Ok(names)
    }
}

/// Whether every step from one state to the next passes the turn on with
/// candidate `i`; `names` are the components whose turn it was.
pub open spec fn takes_turns<Id: DataId>(
    states: Seq<GEPAState<Id>>,
    i: usize,
    names: Seq<Seq<char>>,
) -> bool {
    &&& states.len() == names.len() + 1
    &&& i < states[0].named_predictor_id_to_update_next@.len()
    &&& forall|k: int|
        0 <= k < names.len() ==> took_turn(
            #[trigger] states[k],
            states[k + 1],
            i,
            names[k],
        )
}

/// After `k` steps it is the turn of the component `k` places on.
proof fn lemma_turn<Id: DataId>(
    states: Seq<GEPAState<Id>>,
    i: usize,
    names: Seq<Seq<char>>,
    k: int,
)
    requires
        takes_turns(states, i, names),
        names.len() > 0,
        0 <= k <= names.len(),
    ensures
        ({
            let n = states[0].list_of_named_predictors@.len() as int;
            let first = states[0].named_predictor_id_to_update_next@[i as int] as int;
            &&& n > 0
            &&& states[k].list_of_named_predictors == states[0].list_of_named_predictors
            &&& states[k].named_predictor_id_to_update_next@.len()
                == states[0].named_predictor_id_to_update_next@.len()
            &&& states[k].named_predictor_id_to_update_next@[i as int] as int % n == (first + k)
                % n
        }),
    decreases k,
{
    let n = states[0].list_of_named_predictors@.len() as int;
    let first = states[0].named_predictor_id_to_update_next@[i as int] as int;
    if k > 0 {
        lemma_turn(states, i, names, k - 1);
        assert(took_turn(states[k - 1], states[k], i, names[k - 1]));
        let turn = states[k - 1].named_predictor_id_to_update_next@[i as int] as int % n;
        let next = (turn + 1) % n;
        vstd::arithmetic::div_mod::lemma_mod_bound(turn + 1, n);
        vstd::arithmetic::div_mod::lemma_small_mod(next as nat, n as nat);
        vstd::arithmetic::div_mod::lemma_add_mod_noop_right(1, first + k - 1, n);
        assert(turn == (first + k - 1) % n);
        assert(next == (first + k) % n);
        assert(states[0].list_of_named_predictors.len() == n);
        assert(states[k].named_predictor_id_to_update_next@[i as int] == next);
    } else {
        assert(took_turn(states[0], states[1], i, names[0]));
    }
}

/// Taking turns comes round to the same component after as many steps as there
/// are components.
pub proof fn turns_come_round<Id: DataId>(
    states: Seq<GEPAState<Id>>,
    i: usize,
    names: Seq<Seq<char>>,
    k: int,
)
    requires
        takes_turns(states, i, names),
        0 <= k,
        k + states[0].list_of_named_predictors@.len() < names.len(),
    ensures
        names[k + states[0].list_of_named_predictors@.len() as int] == names[k],
{
    let n = states[0].list_of_named_predictors@.len() as int;
    let first = states[0].named_predictor_id_to_update_next@[i as int] as int;
    lemma_turn(states, i, names, k);
    lemma_turn(states, i, names, k + n);
    assert(took_turn(states[k], states[k + 1], i, names[k]));
    assert(took_turn(states[k + n], states[k + n + 1], i, names[k + n]));
    vstd::arithmetic::div_mod::lemma_mod_add_multiples_vanish(first + k, n);
    assert((first + (k + n)) % n == (first + k) % n);
    assert(states[k + n].named_predictor_id_to_update_next@[i as int] as int % n
        == states[k].named_predictor_id_to_update_next@[i as int] as int % n);
}

/// Taking turns reaches every component within as many steps as there are
/// components.
pub proof fn every_component_has_its_turn<Id: DataId>(
    states: Seq<GEPAState<Id>>,
    i: usize,
    names: Seq<Seq<char>>,
    component: int,
)
    requires
        takes_turns(states, i, names),
        0 <= component < states[0].list_of_named_predictors@.len() <= names.len(),
    ensures
        exists|k: int|
            0 <= k < states[0].list_of_named_predictors@.len() && #[trigger] names[k]
                == states[0].list_of_named_predictors@[component]@,
{
    let n = states[0].list_of_named_predictors@.len() as int;
    let first = states[0].named_predictor_id_to_update_next@[i as int] as int;
    let start = first % n;
    vstd::arithmetic::div_mod::lemma_mod_bound(first, n);
    let k = if component >= start {
        component - start
    } else {
        component - start + n
    };
    lemma_turn(states, i, names, k);
    assert(took_turn(states[k], states[k + 1], i, names[k]));
    vstd::arithmetic::div_mod::lemma_add_mod_noop(first, k, n);
    vstd::arithmetic::div_mod::lemma_small_mod(k as nat, n as nat);
    vstd::arithmetic::div_mod::lemma_small_mod(component as nat, n as nat);
    if component < start {
        vstd::arithmetic::div_mod::lemma_mod_add_multiples_vanish(component, n);
    }
    assert(names[k] == states[0].list_of_named_predictors@[component]@);
}

/// A turn with one candidate leaves the turns with the others as they are.
pub proof fn turns_are_kept_apart<Id: DataId>(
    before: GEPAState<Id>,
    after: GEPAState<Id>,
    i: usize,
    name: Seq<char>,
    other: usize,
)
    requires
        took_turn(before, after, i, name),
        i < before.named_predictor_id_to_update_next@.len(),
        other < before.named_predictor_id_to_update_next@.len(),
        other != i,
    ensures
        after.named_predictor_id_to_update_next@[other as int]
            == before.named_predictor_id_to_update_next@[other as int],
{
}

} // verus!
