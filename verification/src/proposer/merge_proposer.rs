//! The proposer of merges.
use rand::rngs::StdRng;
use vstd::prelude::*;

use crate::error::{GEPAError, Result};
use crate::keyed::{views, KeyMap};
use crate::optimizer::adapter::{candidate_entries, Candidate};
use crate::optimizer::cached_eval::{list_scores_on, scores_on};
use crate::optimizer::data_loader::DataId;
use crate::optimizer::state::{json_number, json_number_value, GEPAState, StepKind};
use crate::proposer::base::CandidateProposal;
use crate::proposer::merge::{
    attempt_merge, descriptions, merge_can_fail, merge_made, AncestorLog, MergeDescription, OverlapRule,
};
use crate::proposer::merge_draws::{merge_drawn, MergePool};
use crate::proposer::subsample::{balanced, balanced_subsample, shared, subsample_choice};
use crate::random::{seeded, seeded_generator};
use crate::score::{sums_to, Score, ScoreArithmetic};
use crate::strategies::batch_sampler::picked;
use crate::utils::pareto::{
    find_dominator_programs, non_dominated, non_dominated_are_on_the_frontier,
};
use crate::utils::programs::ProgramIdx;

verus! {

/// How often a draw of two programs is tried.
pub const MERGE_ATTEMPTS: usize = 10;

/// On how many examples a merge is tried.
pub const MERGE_SUBSAMPLE: usize = 5;

/// Proposes merges of two programs on the Pareto front.
pub struct MergeProposer {
    /// Without this nothing is ever proposed.
    pub use_merge: bool,
    /// How many merges may succeed in all.
    pub max_merge_invocations: usize,
    /// How many examples both parents must have been scored on.
    pub val_overlap_floor: usize,
    /// The source of chance.
    pub rng: StdRng,
    /// How many merges are to be tried.
    pub merges_due: usize,
    /// How many merges succeeded so far.
    pub total_merges_tested: usize,
    /// The merges that were tried, and what they gave.
    pub merges_performed: (Vec<AncestorLog>, Vec<MergeDescription>),
    /// Whether a mutation was accepted.
    pub last_iter_found_new_program: bool,
}

/// A merge that is to be tried on some examples.
pub struct MergePlan<Id: DataId> {
    /// The merged candidate.
    pub program: Candidate,
    /// The first parent.
    pub id1: ProgramIdx,
    /// The second parent.
    pub id2: ProgramIdx,
    /// Their ancestor.
    pub ancestor: ProgramIdx,
    /// The examples.
    pub subsample_ids: Vec<Id>,
    /// The scores of the first parent on the examples.
    pub scores1: Vec<Score>,
    /// The scores of the second parent on the examples.
    pub scores2: Vec<Score>,
}

impl<Id: DataId> MergePlan<Id> {
    /// The plan fits `state`: the parents are candidates of it, the examples
    /// are a balanced choice, and the scores are the parents'.
    pub open spec fn fits(&self, state: GEPAState<Id>) -> bool {
        let a = state.prog_candidate_val_subscores@[self.id1 as int];
        let b = state.prog_candidate_val_subscores@[self.id2 as int];
        &&& self.id1 < self.id2 < state.program_candidates@.len()
        &&& self.ancestor < state.program_candidates@.len()
        &&& self.subsample_ids@.len() > 0
        &&& balanced(views(self.subsample_ids@), a.key_seq(), a@, b@, MERGE_SUBSAMPLE as nat)
        &&& self.scores1@ == scores_on(a@, views(self.subsample_ids@))
        &&& self.scores2@ == scores_on(b@, views(self.subsample_ids@))
    }
}

impl MergeProposer {
    /// Parents must share at least one example.
    pub open spec fn wf(&self) -> bool {
        self.val_overlap_floor > 0
    }

    /// Whether a merge is to be tried now.
    pub open spec fn due(&self) -> bool {
        self.use_merge && self.last_iter_found_new_program && self.merges_due > 0
    }

    /// The proposer once a candidate was accepted: after a mutation one more
    /// merge is due, unless as many have succeeded as may; after a merge one
    /// fewer is due and one more has succeeded.
    pub open spec fn after_accepting(&self, tag: StepKind) -> MergeProposer {
        match tag {
            StepKind::Merge => MergeProposer {
                merges_due: if self.merges_due > 0 {
                    (self.merges_due - 1) as usize
                } else {
                    0
                },
                total_merges_tested: (self.total_merges_tested + 1) as usize,
                ..*self
            },
            StepKind::ReflectiveMutation => MergeProposer {
                last_iter_found_new_program: true,
                merges_due: if self.use_merge && self.total_merges_tested
                    < self.max_merge_invocations {
                    (self.merges_due + 1) as usize
                } else {
                    self.merges_due
                },
                ..*self
            },
        }
    }

    /// A proposer that has tried nothing yet.
    ///
    /// # Errors
    /// A configuration error where `val_overlap_floor` is 0.
    pub fn new(
        use_merge: bool,
        max_merge_invocations: usize,
        val_overlap_floor: usize,
        seed: u64,
    ) -> (r: Result<Self>)
        ensures
            match r {
                Ok(p) => {
                    &&& p.wf()
                    &&& p.use_merge == use_merge
                    &&& p.max_merge_invocations == max_merge_invocations
                    &&& p.val_overlap_floor == val_overlap_floor
                    &&& p.rng == seeded_generator(seed)
                    &&& p.merges_due == 0
                    &&& p.total_merges_tested == 0
                    &&& p.merges_performed.0@.len() == 0
                    &&& p.merges_performed.1@.len() == 0
                    &&& !p.last_iter_found_new_program
                },
                Err(e) => {
                    &&& val_overlap_floor == 0
                    &&& e matches GEPAError::Config(text)
                    &&& text@ == "val_overlap_floor must be a positive integer"@
                },
            },
            r is Ok <==> val_overlap_floor > 0,
    {
        if val_overlap_floor == 0 {
            return Err(
                GEPAError::Config("val_overlap_floor must be a positive integer".to_owned()),
            );
        }
        Ok(
            MergeProposer {
                use_merge,
                max_merge_invocations,
                val_overlap_floor,
                rng: seeded(seed),
                merges_due: 0,
                total_merges_tested: 0,
                merges_performed: (Vec::new(), Vec::new()),
                last_iter_found_new_program: false,
            },
        )
    }

    /// Schedule one more merge if the budget allows it.
    pub fn schedule_if_needed(&mut self)
        requires
            old(self).merges_due < usize::MAX,
        ensures
            *final(self) == (MergeProposer {
                merges_due: if old(self).use_merge && old(self).total_merges_tested < old(
                    self,
                ).max_merge_invocations {
                    (old(self).merges_due + 1) as usize
                } else {
                    old(self).merges_due
                },
                ..*old(self)
            }),
    {
        if self.use_merge && self.total_merges_tested < self.max_merge_invocations {
            self.merges_due += 1;
        }
    }

    /// Count a merge that was accepted: one fewer is due, one more succeeded.
    pub fn record_accepted(&mut self)
        requires
            old(self).total_merges_tested < usize::MAX,
        ensures
            *final(self) == old(self).after_accepting(StepKind::Merge),
    {
        if self.merges_due > 0 {
            self.merges_due -= 1;
        }
        self.total_merges_tested += 1;
    }

    /// Choose at most `num_subsample` of the examples that both programs were
    /// scored on, balanced between those that the first does better on, those
    /// that the second does better on, and ties.
    pub fn select_eval_subsample<Id: DataId>(
        &mut self,
        scores1: &KeyMap<Id, Score>,
        scores2: &KeyMap<Id, Score>,
        num_subsample: usize,
    ) -> (ids: Vec<Id>)
        requires
            scores1.wf(),
            scores2.wf(),
        ensures
            balanced(views(ids@), scores1.key_seq(), scores1@, scores2@, num_subsample as nat),
            (views(ids@), final(self).rng) == ({
                let (chosen, rest) = subsample_choice(
                    scores1.key_seq(),
                    scores1@,
                    scores2@,
                    num_subsample,
                    old(self).rng,
                );
                (picked(scores1.key_seq(), chosen), rest)
            }),
            *final(self) == (MergeProposer { rng: final(self).rng, ..*old(self) }),
    {
        balanced_subsample(&mut self.rng, scores1, scores2, num_subsample)
    }

    /// Whether `r` is what may come of preparing a merge, and `after` the
    /// proposer that is left. A merge that is due fails only where a draw can be
    /// refused.
    pub open spec fn prepared<Id: DataId>(
        &self,
        after: Self,
        state: GEPAState<Id>,
        r: Option<MergePlan<Id>>,
    ) -> bool {
        &&& after == (MergeProposer {
            rng: after.rng,
            merges_performed: after.merges_performed,
            ..*self
        })
        &&& !self.due() ==> r is None && after == *self
        &&& match r {
            None => {
                &&& after.merges_performed == self.merges_performed
                &&& self.due() ==> exists|programs: Seq<usize>|
                    {
                        &&& #[trigger] non_dominated(
                            programs,
                            state.frontier(),
                            state.mean_scores(),
                        )
                        &&& merge_can_fail(
                            state.parent_program_for_candidate@,
                            programs,
                            self.merges_performed.0@,
                            descriptions(self.merges_performed.1@),
                            state.mean_scores(),
                            state.program_candidates@,
                            Some(
                                (
                                    &state.prog_candidate_val_subscores,
                                    self.val_overlap_floor,
                                ),
                            ),
                        )
                    }
            },
            Some(plan) => {
                let before = descriptions(self.merges_performed.1@);
                let made = descriptions(after.merges_performed.1@);
                &&& plan.fits(state)
                &&& after.merges_performed.0@ == self.merges_performed.0@.push(
                    (plan.id1, plan.id2, plan.ancestor),
                )
                &&& made.len() == before.len() + 1
                &&& made == before.push((plan.id1, plan.id2, made.last().2))
                &&& exists|programs: Seq<usize>|
                    {
                        &&& #[trigger] non_dominated(
                            programs,
                            state.frontier(),
                            state.mean_scores(),
                        )
                        &&& merge_made(
                            state.parent_program_for_candidate@,
                            programs,
                            self.merges_performed.0@,
                            before,
                            state.mean_scores(),
                            state.program_candidates@,
                            Some(
                                (
                                    &state.prog_candidate_val_subscores,
                                    self.val_overlap_floor,
                                ),
                            ),
                            candidate_entries(plan.program),
                            plan.id1,
                            plan.id2,
                            plan.ancestor,
                            made.last().2,
                        )
                    }
            },
        }
    }

    /// Whether the generator draws `r` where `programs` may be merged: the merge
    /// first, which leaves the generator `mid`, and then the examples.
    pub open spec fn drew_from<Id: DataId, A: ScoreArithmetic>(
        &self,
        after: Self,
        state: GEPAState<Id>,
        arith: A,
        r: Option<MergePlan<Id>>,
        programs: Seq<usize>,
        mid: StdRng,
    ) -> bool {
        &&& non_dominated(programs, state.frontier(), state.mean_scores())
        &&& merge_drawn(
            MergePool {
                parents: state.parent_program_for_candidate@,
                programs,
                tried: self.merges_performed.0@,
                agg_scores: state.mean_scores(),
                candidates: state.program_candidates@,
            },
            arith,
            descriptions(self.merges_performed.1@),
            Some((&state.prog_candidate_val_subscores, self.val_overlap_floor)),
            MERGE_ATTEMPTS as nat,
            self.rng,
            mid,
            match r {
                Some(plan) => Some(
                    (
                        candidate_entries(plan.program),
                        plan.id1,
                        plan.id2,
                        plan.ancestor,
                        descriptions(after.merges_performed.1@).last().2,
                    ),
                ),
                None => None,
            },
        )
        &&& match r {
            Some(plan) => {
                let a = state.prog_candidate_val_subscores@[plan.id1 as int];
                let b = state.prog_candidate_val_subscores@[plan.id2 as int];
                let (chosen, rest) = subsample_choice(
                    a.key_seq(),
                    a@,
                    b@,
                    MERGE_SUBSAMPLE,
                    mid,
                );
                &&& views(plan.subsample_ids@) == picked(a.key_seq(), chosen)
                &&& after.rng == rest
            },
            None => after.rng == mid,
        }
    }

    /// Whether the generator draws `r`, where a merge is due.
    pub open spec fn drew<Id: DataId, A: ScoreArithmetic>(
        &self,
        after: Self,
        state: GEPAState<Id>,
        arith: A,
        r: Option<MergePlan<Id>>,
    ) -> bool {
        self.due() ==> exists|programs: Seq<usize>, mid: StdRng| #[trigger]
            self.drew_from(after, state, arith, r, programs, mid)
    }

    /// Merge two programs of the state's Pareto front, if a merge is due and
    /// one is found, and choose the examples to try it on.
    pub fn prepare<Id: DataId, A: ScoreArithmetic>(
        &mut self,
        state: &GEPAState<Id>,
        arith: &A,
    ) -> (r: Option<MergePlan<Id>>)
        requires
            old(self).wf(),
            state.maps_wf(),
            state.aligned(),
            state.parents_precede(),
            state.fronts_in_range(),
        ensures
            old(self).prepared(*final(self), *state, r),
            old(self).drew(*final(self), *state, *arith, r),
    {
        if !(self.use_merge && self.last_iter_found_new_program && self.merges_due > 0) {
            return None;
        }
        let agg_scores = state.program_full_scores_val_set();
        let mapping = state.get_pareto_front_mapping();
        let merge_candidates = find_dominator_programs(&mapping, &agg_scores);
        let ghost parents = state.parent_program_for_candidate@;
        proof {
            assert(non_dominated(merge_candidates@, state.frontier(), state.mean_scores()));
            assert forall|k: int| 0 <= k < merge_candidates@.len() implies (
            #[trigger] merge_candidates@[k]) < parents.len() by {
                assert(merge_candidates@.contains(merge_candidates@[k]));
                non_dominated_are_on_the_frontier(
                    merge_candidates@,
                    state.frontier(),
                    state.mean_scores(),
                    merge_candidates@[k],
                );
            }
            assert forall|i: int, k: int|
                0 <= i < parents.len() && 0 <= k < parents[i]@.len() implies (
            #[trigger] parents[i]@[k] matches Some(p) ==> p < parents.len()) by {}
        }
        let rule: Option<OverlapRule<Id>> = Some(
            (&state.prog_candidate_val_subscores, self.val_overlap_floor),
        );
        let merge = attempt_merge(
            &mut self.rng,
            &agg_scores,
            &merge_candidates,
            &mut self.merges_performed,
            &state.program_candidates,
            &state.parent_program_for_candidate,
            rule,
            MERGE_ATTEMPTS,
            arith,
        );
        let ghost mid = self.rng;
        let (program, id1, id2, ancestor) = match merge {
            Some(m) => m,
            None => {
                assert(old(self).drew_from(
                    *self,
                    *state,
                    *arith,
                    None::<MergePlan<Id>>,
                    merge_candidates@,
                    mid,
                ));
                return None;
            },
        };
        self.merges_performed.0.push((id1, id2, ancestor));
        proof {
            let k1 = choose|k: int| 0 <= k < merge_candidates@.len() && merge_candidates@[k] == id1;
            let k2 = choose|k: int| 0 <= k < merge_candidates@.len() && merge_candidates@[k] == id2;
            assert(merge_candidates@[k1] < parents.len());
            assert(merge_candidates@[k2] < parents.len());
            assert(state.prog_candidate_val_subscores@[id1 as int].wf());
            assert(state.prog_candidate_val_subscores@[id2 as int].wf());
        }
        let subsample_ids = self.select_eval_subsample(
            &state.prog_candidate_val_subscores[id1],
            &state.prog_candidate_val_subscores[id2],
            MERGE_SUBSAMPLE,
        );
        proof {
            let a = state.prog_candidate_val_subscores@[id1 as int];
            let b = state.prog_candidate_val_subscores@[id2 as int];
            lemma_shared_count(a, b);
        }
        let scores1 = list_scores_on(&state.prog_candidate_val_subscores[id1], &subsample_ids);
        let scores2 = list_scores_on(&state.prog_candidate_val_subscores[id2], &subsample_ids);
        let plan = MergePlan { program, id1, id2, ancestor, subsample_ids, scores1, scores2 };
        assert(old(self).drew_from(
            *self,
            *state,
            *arith,
            Some(plan),
            merge_candidates@,
            mid,
        ));
        Some(plan)
    }
}

/// The examples of `a` that `b` has too are those that both have.
proof fn lemma_shared_count<Id: DataId>(a: KeyMap<Id, Score>, b: KeyMap<Id, Score>)
    requires
        a.wf(),
    ensures
        crate::proposer::merge::shared_count(a, b) == crate::proposer::merge::count_keys(
            a.key_seq(),
            |k: Id::V| shared(a@, b@, k),
            a.key_seq().len() as int,
        ),
{
    lemma_shared_count_upto(a, b, a.key_seq().len() as int);
}

proof fn lemma_shared_count_upto<Id: DataId>(a: KeyMap<Id, Score>, b: KeyMap<Id, Score>, n: int)
    requires
        a.wf(),
        0 <= n <= a.key_seq().len(),
    ensures
        crate::proposer::merge::count_keys(a.key_seq(), |k: Id::V| b@.dom().contains(k), n)
            == crate::proposer::merge::count_keys(
            a.key_seq(),
            |k: Id::V| shared(a@, b@, k),
            n,
        ),
    decreases n,
{
    if n > 0 {
        lemma_shared_count_upto(a, b, n - 1);
        a.lemma_entry(n - 1);
    }
}

/// The proposal of a merge that scored `new_scores` on the plan's examples: the
/// scores before are the sums of each parent's scores.
pub fn conclude_merge<Id: DataId, A: ScoreArithmetic>(
    plan: MergePlan<Id>,
    new_scores: Vec<Score>,
    arith: &A,
) -> (p: CandidateProposal<Id>)
    ensures
        p.candidate == plan.program,
        p.parent_program_ids@ == seq![plan.id1, plan.id2],
        p.subsample_indices == Some(plan.subsample_ids),
        p.subsample_scores_after == Some(new_scores),
        p.subsample_scores_before matches Some(before) && before@.len() == 2 && sums_to(
            *arith,
            plan.scores1@,
            before@[0],
        ) && sums_to(*arith, plan.scores2@, before@[1]),
        p.tag@ == "merge"@,
        p.metadata.wf(),
        p.metadata@ == Map::<Seq<char>, serde_json::Value>::empty().insert(
            "ancestor"@,
            json_number_value(Some(plan.ancestor as u64)),
        ),
{
    let sum1 = arith.sum(&plan.scores1);
    let sum2 = arith.sum(&plan.scores2);
    assert(sums_to(*arith, plan.scores1@, sum1));
    assert(sums_to(*arith, plan.scores2@, sum2));
    let MergePlan { program, id1, id2, ancestor, subsample_ids, scores1: _, scores2: _ } = plan;
    let p = CandidateProposal::new(program, vec![id1, id2]).with_tag("merge").with_subsample(
        subsample_ids,
        vec![sum1, sum2],
        new_scores,
    ).with_metadata("ancestor", json_number(Some(ancestor as u64)));
    assert(p.parent_program_ids@ =~= seq![plan.id1, plan.id2]);
    p
}

/// No merge of two candidates with respect to an ancestor is prepared twice, nor
/// two that take the same components from the same candidates.
pub proof fn merges_are_not_repeated<Id: DataId>(
    before: MergeProposer,
    after: MergeProposer,
    state: GEPAState<Id>,
    r: Option<MergePlan<Id>>,
)
    requires
        before.prepared(after, state, r),
        before.merges_performed.0@.no_duplicates(),
        descriptions(before.merges_performed.1@).no_duplicates(),
    ensures
        after.merges_performed.0@.no_duplicates(),
        descriptions(after.merges_performed.1@).no_duplicates(),
{
}

} // verus!
