//! Reflective mutation: a candidate is tried on a minibatch, a language model
//! rewrites some of its components in view of what happened, and the new
//! candidate is tried on the same minibatch.
use vstd::prelude::*;

use crate::error::{GEPAError, Result};
use crate::keyed::{views, KeyMap};
use crate::optimizer::adapter::{
    candidate_copy, candidate_empty, candidate_entries, candidate_get, candidate_pairs,
    candidate_set, component_text, distinct_names, entry_position, lemma_entry_position,
    lemma_with_component, pair_views, text_in, text_or_empty, with_component, Candidate,
};
use crate::optimizer::data_loader::DataId;
use crate::optimizer::state::{json_number, null_value, GEPAState};
use crate::proposer::base::CandidateProposal;
use crate::score::Score;
use crate::strategies::batch_sampler::BatchSampler;
use crate::strategies::candidate_selector::CandidateSelector;
use crate::strategies::component_selector::ComponentSelector;
use crate::strategies::instruction_proposal::{
    complete_template, extract_output, extracted, missing_placeholders, render_prompt,
    render_prompt_with_template, rendered_prompt, META_PROMPT_TEMPLATE,
};
use crate::strategies::markdown::{format_samples_as_markdown, samples_text, Json};
use crate::text::text_views;

verus! {

/// The prompt template.
#[derive(Debug)]
pub enum PromptTemplateConfig {
    /// One template for every component.
    Single(String),
    /// Templates by component; a component without one has the built-in one.
    PerComponent(Candidate),
}

impl Clone for PromptTemplateConfig {
    fn clone(&self) -> (c: Self)
        ensures
            match (*self, c) {
                (PromptTemplateConfig::Single(s), PromptTemplateConfig::Single(t)) => s@ == t@,
                (PromptTemplateConfig::PerComponent(m), PromptTemplateConfig::PerComponent(n)) =>
                candidate_entries(m) == candidate_entries(n),
                _ => false,
            },
    {
        match self {
            PromptTemplateConfig::Single(s) => PromptTemplateConfig::Single(s.clone()),
            PromptTemplateConfig::PerComponent(map) => PromptTemplateConfig::PerComponent(
                candidate_copy(map),
            ),
        }
    }
}

impl PromptTemplateConfig {
    /// The template for a component.
    pub open spec fn template_for(&self, component: Seq<char>) -> Option<Seq<char>> {
        match *self {
            PromptTemplateConfig::Single(s) => Some(s@),
            PromptTemplateConfig::PerComponent(map) => component_text(
                candidate_entries(map),
                component,
            ),
        }
    }

    /// The template for a component; none where it has the built-in one.
    pub fn get_for_component(&self, component: &str) -> (r: Option<String>)
        ensures
            (match r {
                Some(t) => Some(t@),
                None => None,
            }) == self.template_for(component@),
    {
        match self {
            PromptTemplateConfig::Single(s) => Some(s.clone()),
            PromptTemplateConfig::PerComponent(map) => candidate_get(map, component),
        }
    }
}

/// Mutates candidates with the help of a language model.
pub struct ReflectiveMutationProposer<S, C, B> {
    /// Chooses the candidate.
    pub candidate_selector: S,
    /// Chooses the components.
    pub component_selector: C,
    /// Chooses the minibatch.
    pub batch_sampler: B,
    /// The prompt template, where it is not the built-in one.
    pub reflection_prompt_template: Option<PromptTemplateConfig>,
    /// The score that cannot be improved on, if there is one.
    pub perfect_score: Option<Score>,
    /// Whether minibatches on which all scores are perfect are skipped.
    pub skip_perfect_score: bool,
}

/// A candidate that is to be tried on a minibatch.
pub struct Trial<Id: DataId> {
    /// The index of the candidate.
    pub parent: usize,
    /// The candidate.
    pub candidate: Candidate,
    /// The examples.
    pub ids: Vec<Id>,
}

impl<Id: DataId> Trial<Id> {
    /// The candidate is one of the state's.
    pub open spec fn fits(&self, state: GEPAState<Id>) -> bool {
        &&& self.parent < state.program_candidates@.len()
        &&& candidate_entries(self.candidate) == candidate_entries(
            state.program_candidates@[self.parent as int],
        )
    }
}

/// `state` with `n` more evaluations counted.
pub open spec fn charged<Id: DataId>(state: GEPAState<Id>, n: nat) -> GEPAState<Id> {
    GEPAState { total_num_evals: (state.total_num_evals + n) as usize, ..state }
}

/// Whether all scores reach `threshold`.
pub open spec fn all_reach(scores: Seq<Score>, threshold: Score) -> bool {
    forall|i: int| 0 <= i < scores.len() ==> (#[trigger] scores[i]).at_least(threshold)
}

fn check_all_reach(scores: &Vec<Score>, threshold: &Score) -> (b: bool)
    ensures
        b == all_reach(scores@, *threshold),
{
    let mut i: usize = 0;
    while i < scores.len()
        invariant
            i <= scores@.len(),
            forall|j: int| 0 <= j < i ==> (#[trigger] scores@[j]).at_least(*threshold),
        decreases scores@.len() - i,
    {
        if !scores[i].reaches(threshold) {
            return false;
        }
        i += 1;
    }
    true
}

/// So many JSON nulls.
fn nulls(n: usize) -> (list: Vec<serde_json::Value>)
    ensures
        list@.len() == n,
        forall|i: int| 0 <= i < n ==> list@[i] == null_value(),
{
    let mut list: Vec<serde_json::Value> = Vec::new();
    let mut i: usize = 0;
    while i < n
        invariant
            i <= n,
            list@.len() == i,
            forall|j: int| 0 <= j < i ==> list@[j] == null_value(),
        decreases n - i,
    {
        list.push(json_number(None));
        i += 1;
    }
    list
}

/// What is asked of the language model for one component.
pub struct TextRequest {
    /// The component.
    pub component: String,
    /// The prompt.
    pub prompt: String,
}

/// A prompt, or what is wrong with the template.
pub open spec fn prompt_for(
    template: Option<Seq<char>>,
    current_text: Seq<char>,
    records: Seq<Json>,
) -> std::result::Result<Seq<char>, Seq<char>> {
    let dataset = samples_text(records, records.len() as int);
    match template {
        None => Ok(rendered_prompt(META_PROMPT_TEMPLATE@, current_text, dataset)),
        Some(t) => if complete_template(t) {
            Ok(rendered_prompt(t, current_text, dataset))
        } else {
            Err("Missing placeholder(s) in prompt template: "@ + missing_placeholders(t))
        },
    }
}

/// The template for a component, where it is not the built-in one.
pub open spec fn chosen_template(
    config: Option<PromptTemplateConfig>,
    component: Seq<char>,
) -> Option<Seq<char>> {
    match config {
        None => None,
        Some(cfg) => cfg.template_for(component),
    }
}

/// The requests for the first `n` of the components: one for each that the
/// dataset has records for and whose template is complete.
pub open spec fn requests_for(
    config: Option<PromptTemplateConfig>,
    entries: Seq<(Seq<char>, Seq<char>)>,
    dataset: Map<Seq<char>, Vec<Json>>,
    names: Seq<Seq<char>>,
    n: int,
) -> Seq<(Seq<char>, Seq<char>)>
    decreases n,
{
    if n <= 0 {
        seq![]
    } else {
        let before = requests_for(config, entries, dataset, names, n - 1);
        let name = names[n - 1];
        if !dataset.dom().contains(name) || dataset[name]@.len() == 0 {
            before
        } else {
            match prompt_for(
                chosen_template(config, name),
                text_or_empty(entries, name),
                dataset[name]@,
            ) {
                Ok(prompt) => before.push((name, prompt)),
                Err(_) => before,
            }
        }
    }
}

/// The views of requests.
pub open spec fn request_views(list: Seq<TextRequest>) -> Seq<(Seq<char>, Seq<char>)> {
    Seq::new(list.len(), |i: int| (list[i].component@, list[i].prompt@))
}

/// The views of optional strings.
pub open spec fn reply_views(list: Seq<Option<String>>) -> Seq<Option<Seq<char>>> {
    Seq::new(
        list.len(),
        |i: int|
            match list[i] {
                Some(s) => Some(s@),
                None => None,
            },
    )
}

/// The texts that the first `n` replies give, by component: a reply that failed
/// or that has no instruction in it gives none.
pub open spec fn texts_from(
    requests: Seq<(Seq<char>, Seq<char>)>,
    replies: Seq<Option<Seq<char>>>,
    n: int,
) -> Seq<(Seq<char>, Seq<char>)>
    decreases n,
{
    if n <= 0 {
        seq![]
    } else {
        let before = texts_from(requests, replies, n - 1);
        match replies[n - 1] {
            None => before,
            Some(raw) => match extracted(raw) {
                None => before,
                Some(text) => with_component(before, requests[n - 1].0, text),
            },
        }
    }
}

/// The first of the texts from position `i` on whose component the candidate
/// lacks.
pub open spec fn first_unknown(
    texts: Seq<(Seq<char>, Seq<char>)>,
    entries: Seq<(Seq<char>, Seq<char>)>,
    i: int,
) -> Option<int>
    decreases texts.len() - i,
{
    if i < 0 || i >= texts.len() {
        None
    } else if entry_position(entries, texts[i].0) is None {
        Some(i)
    } else {
        first_unknown(texts, entries, i + 1)
    }
}

/// The candidate with the first `n` texts in place.
pub open spec fn with_texts(
    entries: Seq<(Seq<char>, Seq<char>)>,
    texts: Seq<(Seq<char>, Seq<char>)>,
    n: int,
) -> Seq<(Seq<char>, Seq<char>)>
    decreases n,
{
    if n <= 0 {
        entries
    } else {
        with_component(with_texts(entries, texts, n - 1), texts[n - 1].0, texts[n - 1].1)
    }
}

/// Putting texts in place changes no names.
proof fn lemma_with_texts_names(
    entries: Seq<(Seq<char>, Seq<char>)>,
    texts: Seq<(Seq<char>, Seq<char>)>,
    n: int,
    name: Seq<char>,
)
    requires
        0 <= n <= texts.len(),
        forall|j: int| 0 <= j < n ==> entry_position(entries, (#[trigger] texts[j]).0) is Some,
    ensures
        entry_position(with_texts(entries, texts, n), name) == entry_position(entries, name),
        with_texts(entries, texts, n).len() == entries.len(),
    decreases n,
{
    if n > 0 {
        let before = with_texts(entries, texts, n - 1);
        let after = with_texts(entries, texts, n);
        lemma_with_texts_names(entries, texts, n - 1, name);
        lemma_with_texts_names(entries, texts, n - 1, texts[n - 1].0);
        assert(entry_position(entries, texts[n - 1].0) is Some);
        lemma_entry_position(before, texts[n - 1].0);
        lemma_entry_position(before, name);
        lemma_entry_position(after, name);
        assert forall|j: int| 0 <= j < before.len() implies (#[trigger] after[j]).0
            == before[j].0 by {}
        match entry_position(before, name) {
            Some(i) => {
                assert(after[i].0 == name);
                let k = entry_position(after, name)->0;
                assert(before[k].0 == name);
            },
            None => {
                if entry_position(after, name) is Some {
                    let k = entry_position(after, name)->0;
                    assert(before[k].0 == name);
                }
            },
        }
    }
}

/// Put the texts in place in a copy of the candidate; nothing where there are no
/// texts.
///
/// # Errors
/// A proposal error where the candidate lacks a component.
pub fn apply_texts(candidate: &Candidate, texts: &Candidate) -> (r: Result<Option<Candidate>>)
    ensures
        ({
            let entries = candidate_entries(*candidate);
            let new = candidate_entries(*texts);
            match r {
                Ok(None) => new.len() == 0,
                Ok(Some(c)) => {
                    &&& new.len() > 0
                    &&& first_unknown(new, entries, 0) is None
                    &&& candidate_entries(c) == with_texts(entries, new, new.len() as int)
                },
                Err(e) => {
                    &&& first_unknown(new, entries, 0) matches Some(i)
                    &&& e matches GEPAError::Proposal(text)
                    &&& text@ == "proposed component '"@ + new[i].0
                        + "' is not a key in the current candidate"@
                },
            }
        }),
{
    let ghost entries = candidate_entries(*candidate);
    let ghost new = candidate_entries(*texts);
    let pairs = candidate_pairs(texts);
    assert(pairs@.len() == new.len()) by {
        assert(pair_views(pairs@).len() == new.len());
    }
    if pairs.len() == 0 {
        return Ok(None);
    }
    let mut c = candidate_copy(candidate);
    let mut i: usize = 0;
    while i < pairs.len()
        invariant
            entries == candidate_entries(*candidate),
            new == candidate_entries(*texts),
            pair_views(pairs@) == new,
            i <= pairs@.len(),
            pairs@.len() > 0,
            candidate_entries(c) == with_texts(entries, new, i as int),
            forall|j: int| 0 <= j < i ==> entry_position(entries, (#[trigger] new[j]).0) is Some,
            first_unknown(new, entries, 0) == first_unknown(new, entries, i as int),
        decreases pairs@.len() - i,
    {
        assert(new[i as int] == (pairs@[i as int].0@, pairs@[i as int].1@));
        proof {
            lemma_with_texts_names(entries, new, i as int, new[i as int].0);
        }
        if candidate_get(&c, pairs[i].0.as_str()).is_none() {
            let mut text = "proposed component '".to_owned();
            text.append(pairs[i].0.as_str());
            text.append("' is not a key in the current candidate");
            return Err(GEPAError::Proposal(text));
        }
        candidate_set(&mut c, pairs[i].0.clone(), pairs[i].1.clone());
        i += 1;
    }
    Ok(Some(c))
}

/// The instruction in the language model's answer for a component.
///
/// # Errors
/// A proposal error where the answer is blank.
pub fn read_answer(component: &str, raw_output: &str) -> (r: Result<String>)
    ensures
        match r {
            Ok(text) => extracted(raw_output@) == Some(text@),
            Err(e) => {
                &&& extracted(raw_output@) is None
                &&& e matches GEPAError::Proposal(text)
                &&& text@ == "LM produced no extractable output for component '"@ + component@
                    + "'"@
            },
        },
{
    match extract_output(raw_output) {
        Some(text) => Ok(text),
        None => {
            let mut text = "LM produced no extractable output for component '".to_owned();
            text.append(component);
            text.append("'");
            Err(GEPAError::Proposal(text))
        },
    }
}

/// The texts that the replies to the requests give, by component. A request
/// whose reply failed, or has no instruction in it, gives none.
pub fn collect_texts(requests: &Vec<TextRequest>, replies: &Vec<Option<String>>) -> (texts:
    Candidate)
    requires
        replies@.len() == requests@.len(),
    ensures
        candidate_entries(texts) == texts_from(
            request_views(requests@),
            reply_views(replies@),
            requests@.len() as int,
        ),
{
    let ghost rq = request_views(requests@);
    let ghost rp = reply_views(replies@);
    let mut texts = candidate_empty();
    let mut i: usize = 0;
    while i < requests.len()
        invariant
            replies@.len() == requests@.len(),
            rq == request_views(requests@),
            rp == reply_views(replies@),
            i <= requests@.len(),
            candidate_entries(texts) == texts_from(rq, rp, i as int),
        decreases requests@.len() - i,
    {
        assert(rq[i as int].0 == requests@[i as int].component@);
        assert(rp[i as int] == match replies@[i as int] {
            Some(s) => Some(s@),
            None => None,
        });
        if let Some(raw) = &replies[i] {
            if let Ok(text) = read_answer(requests[i].component.as_str(), raw.as_str()) {
                candidate_set(&mut texts, requests[i].component.clone(), text);
            }
        }
        i += 1;
    }
    texts
}

impl<S, C, B> ReflectiveMutationProposer<S, C, B> {
    /// What does not change from one mutation to the next is the same.
    pub open spec fn same_settings(&self, other: Self) -> bool {
        &&& self.reflection_prompt_template == other.reflection_prompt_template
        &&& self.perfect_score == other.perfect_score
        &&& self.skip_perfect_score == other.skip_perfect_score
        &&& self.component_selector == other.component_selector
    }

    /// Whether the selector may give `r` for the state and then be that of `after`.
    pub open spec fn selector_gave<Id: DataId>(
        &self,
        after: Self,
        state: GEPAState<Id>,
        r: Result<usize>,
    ) -> bool where S: CandidateSelector<Id> {
        &&& self.candidate_selector.may_give(state, r)
        &&& self.candidate_selector.may_leave(&after.candidate_selector, state, r)
    }

    /// Whether the sampler may give `r` for the state and then be that of `after`.
    pub open spec fn sampler_gave<Id: DataId>(
        &self,
        after: Self,
        state: GEPAState<Id>,
        all_ids: Seq<Id::V>,
        r: Result<Vec<Id>>,
    ) -> bool where B: BatchSampler<Id> {
        &&& self.batch_sampler.may_give(all_ids, state.i, r)
        &&& self.batch_sampler.may_leave(&after.batch_sampler, all_ids, state.i, r)
    }

    /// Whether `r` is what the selector and the sampler may give for the state, and
    /// `after` the proposer that they leave. The selector is asked once, and then,
    /// unless it fails, the sampler is.
    pub open spec fn selected<Id: DataId>(
        &self,
        after: Self,
        state: GEPAState<Id>,
        all_ids: Seq<Id::V>,
        r: Result<Trial<Id>>,
    ) -> bool where S: CandidateSelector<Id>, B: BatchSampler<Id> {
        match r {
            Ok(trial) => {
                &&& trial.fits(state)
                &&& all_ids.len() > 0
                &&& self.selector_gave(after, state, Ok(trial.parent))
                &&& self.sampler_gave(after, state, all_ids, Ok(trial.ids))
            },
            Err(e) => {
                ||| self.selector_gave(after, state, Err(e)) && after.batch_sampler
                    == self.batch_sampler
                ||| self.sampler_gave(after, state, all_ids, Err(e)) && exists|parent: usize|
                    #[trigger] self.selector_gave(after, state, Ok(parent))
            },
        }
    }

    /// Choose a candidate and the examples of a minibatch.
    ///
    /// # Errors
    /// The errors of the two choices.
    pub fn select<Id: DataId>(&mut self, state: &GEPAState<Id>, all_ids: &Vec<Id>) -> (r: Result<
        Trial<Id>,
    >) where S: CandidateSelector<Id>, B: BatchSampler<Id>
        requires
            state.maps_wf(),
            state.aligned(),
            state.fronts_in_range(),
            old(self).batch_sampler.ready(views(all_ids@), state.i),
        ensures
            old(self).selected(*final(self), *state, views(all_ids@), r),
            final(self).same_settings(*old(self)),
            forall|ids: Seq<Id::V>, iteration: usize|
                old(self).batch_sampler.ready(ids, iteration)
                    ==> #[trigger] final(self).batch_sampler.ready(ids, iteration),
    {
        let parent: usize = match self.candidate_selector.select_candidate_idx(state) {
            Ok(parent) => parent,
            Err(e) => return Err(e),
        };
        let candidate = candidate_copy(&state.program_candidates[parent]);
        let batch = self.batch_sampler.next_batch_ids(all_ids.as_slice(), state);
        assert(old(self).selector_gave(*self, *state, Ok(parent)));
        match batch {
            Ok(ids) => Ok(Trial { parent, candidate, ids }),
            Err(e) => Err(e),
        }
    }

    /// Whether a minibatch is left alone: no traces were captured, or all its
    /// scores are perfect and such minibatches are skipped.
    pub open spec fn skips(&self, scores: Seq<Score>, traces: Option<usize>) -> bool {
        ||| traces is None
        ||| traces == Some(0usize)
        ||| (self.skip_perfect_score && (self.perfect_score matches Some(t) && all_reach(scores, t)))
    }

    /// Whether `r` is what the component selector may give after the trial, and
    /// `after` the state that is left.
    pub open spec fn named<Id: DataId>(
        &self,
        before: GEPAState<Id>,
        after: GEPAState<Id>,
        trial: Trial<Id>,
        scores: Seq<Score>,
        traces: Option<usize>,
        r: Result<Option<Vec<String>>>,
    ) -> bool where C: ComponentSelector<Id> {
        let trajectories = Seq::new(traces->0 as nat, |i: int| null_value());
        let entries = candidate_entries(trial.candidate);
        match r {
            Ok(Some(names)) => names@.len() > 0 && self.component_selector.may_give(
                before,
                after,
                trajectories,
                scores,
                trial.parent,
                entries,
                Ok(names),
            ),
            Ok(None) => false,
            Err(e) => self.component_selector.may_give(
                before,
                after,
                trajectories,
                scores,
                trial.parent,
                entries,
                Err(e),
            ),
        }
    }

    /// Count the evaluations of a trial, and choose the components to update,
    /// unless the minibatch is left alone.
    ///
    /// # Errors
    /// The error of the choice.
    pub fn after_trial<Id: DataId>(
        &self,
        state: &mut GEPAState<Id>,
        trial: &Trial<Id>,
        scores: &Vec<Score>,
        traces: Option<usize>,
    ) -> (r: Result<Option<Vec<String>>>) where C: ComponentSelector<Id>
        requires
            old(state).total_num_evals + trial.ids@.len() <= usize::MAX,
            trial.parent < old(state).named_predictor_id_to_update_next@.len(),
        ensures
            *final(state) == (GEPAState {
                total_num_evals: (old(state).total_num_evals + trial.ids@.len()) as usize,
                named_predictor_id_to_update_next: final(state).named_predictor_id_to_update_next,
                ..*old(state)
            }),
            final(state).named_predictor_id_to_update_next@.len() == old(
                state,
            ).named_predictor_id_to_update_next@.len(),
            self.skips(scores@, traces) ==> {
                &&& r matches Ok(None)
                &&& final(state).named_predictor_id_to_update_next == old(
                    state,
                ).named_predictor_id_to_update_next
            },
            !self.skips(scores@, traces) ==> self.named(
                charged(*old(state), trial.ids@.len()),
                *final(state),
                *trial,
                scores@,
                traces,
                r,
            ),
    {
        state.increment_evals(trial.ids.len());
        let captured: usize = match traces {
            Some(n) => n,
            None => 0,
        };
        if captured == 0 {
            return Ok(None);
        }
        if self.skip_perfect_score {
            if let Some(threshold) = &self.perfect_score {
                if check_all_reach(scores, threshold) {
                    return Ok(None);
                }
            }
        }
        let trajectories = nulls(captured);
        assert(trajectories@ =~= Seq::new(captured as nat, |i: int| null_value()));
        match self.component_selector.select_components(
            state,
            trajectories.as_slice(),
            scores.as_slice(),
            trial.parent,
            &trial.candidate,
        ) {
            Ok(names) => if names.len() == 0 {
                Ok(None)
            } else {
                Ok(Some(names))
            },
            Err(e) => Err(e),
        }
    }

    /// The prompt that asks for a new text of a component.
    ///
    /// # Errors
    /// A configuration error where the template lacks a placeholder.
    pub fn prompt(&self, component: &str, current_text: &str, records: &Vec<Json>) -> (r: Result<
        String,
    >)
        ensures
            match r {
                Ok(text) => prompt_for(
                    chosen_template(self.reflection_prompt_template, component@),
                    current_text@,
                    records@,
                ) == Ok::<Seq<char>, Seq<char>>(text@),
                Err(e) => e matches GEPAError::Config(text) && prompt_for(
                    chosen_template(self.reflection_prompt_template, component@),
                    current_text@,
                    records@,
                ) == Err::<Seq<char>, Seq<char>>(text@),
            },
    {
        let dataset = format_samples_as_markdown(records.as_slice());
        let template = match &self.reflection_prompt_template {
            None => None,
            Some(cfg) => cfg.get_for_component(component),
        };
        match template {
            None => Ok(render_prompt(current_text, dataset.as_str())),
            Some(t) => match render_prompt_with_template(
                t.as_str(),
                current_text,
                dataset.as_str(),
            ) {
                Ok(text) => Ok(text),
                Err(text) => Err(GEPAError::Config(text)),
            },
        }
    }

    /// What is asked of the language model: one request for each of the
    /// components that the dataset has records for. A component whose template
    /// lacks a placeholder is passed over.
    pub fn requests(
        &self,
        candidate: &Candidate,
        dataset: &KeyMap<String, Vec<Json>>,
        names: &Vec<String>,
    ) -> (list: Vec<TextRequest>)
        requires
            dataset.wf(),
        ensures
            request_views(list@) == requests_for(
                self.reflection_prompt_template,
                candidate_entries(*candidate),
                dataset@,
                text_views(names@),
                names@.len() as int,
            ),
    {
        let ghost config = self.reflection_prompt_template;
        let ghost entries = candidate_entries(*candidate);
        let ghost all = text_views(names@);
        let mut list: Vec<TextRequest> = Vec::new();
        let mut i: usize = 0;
        assert(request_views(list@) =~= requests_for(config, entries, dataset@, all, 0));
        while i < names.len()
            invariant
                dataset.wf(),
                config == self.reflection_prompt_template,
                entries == candidate_entries(*candidate),
                all == text_views(names@),
                i <= names@.len(),
                request_views(list@) == requests_for(config, entries, dataset@, all, i as int),
            decreases names@.len() - i,
        {
            let name = &names[i];
            assert(all[i as int] == name@);
            let ghost before = request_views(list@);
            if let Some(records) = dataset.get(name) {
                if records.len() > 0 {
                    let current = text_in(candidate, name.as_str());
                    if let Ok(prompt) = self.prompt(name.as_str(), current.as_str(), records) {
                        let ghost pv = prompt@;
                        list.push(TextRequest { component: name.clone(), prompt });
                        assert(request_views(list@) =~= before.push((name@, pv)));
                    }
                }
            }
            i += 1;
        }
        list
    }
}

/// Count the evaluations of the new candidate, and make the proposal.
pub fn conclude_mutation<Id: DataId>(
    state: &mut GEPAState<Id>,
    trial: Trial<Id>,
    scores_before: Vec<Score>,
    new_candidate: Candidate,
    scores_after: Vec<Score>,
) -> (p: CandidateProposal<Id>)
    requires
        old(state).total_num_evals + trial.ids@.len() <= usize::MAX,
    ensures
        *final(state) == (GEPAState {
            total_num_evals: (old(state).total_num_evals + trial.ids@.len()) as usize,
            ..*old(state)
        }),
        p.candidate == new_candidate,
        p.parent_program_ids@ == seq![trial.parent],
        p.subsample_indices == Some(trial.ids),
        p.subsample_scores_before == Some(scores_before),
        p.subsample_scores_after == Some(scores_after),
        p.tag@ == "reflective_mutation"@,
        p.metadata.wf(),
        p.metadata@ == Map::<Seq<char>, serde_json::Value>::empty(),
{
    state.increment_evals(trial.ids.len());
    let Trial { parent, candidate: _, ids } = trial;
    let p = CandidateProposal::new(new_candidate, vec![parent]).with_tag(
        "reflective_mutation",
    ).with_subsample(ids, scores_before, scores_after);
    assert(p.parent_program_ids@ =~= seq![trial.parent]);
    p
}

/// A mutation gives the components that it has texts for those texts, and
/// changes nothing else: the components keep their names and their order, and
/// the others their texts.
pub proof fn mutation_changes_only_its_texts(
    entries: Seq<(Seq<char>, Seq<char>)>,
    texts: Seq<(Seq<char>, Seq<char>)>,
    n: int,
    name: Seq<char>,
)
    requires
        0 <= n <= texts.len(),
        distinct_names(texts),
        forall|i: int| 0 <= i < n ==> entry_position(entries, (#[trigger] texts[i]).0) is Some,
    ensures
        ({
            let new = with_texts(entries, texts, n);
            &&& new.len() == entries.len()
            &&& forall|j: int| 0 <= j < new.len() ==> (#[trigger] new[j]).0 == entries[j].0
            &&& forall|i: int|
                0 <= i < n && (#[trigger] texts[i]).0 == name ==> component_text(new, name)
                    == Some(texts[i].1)
            &&& (forall|i: int| 0 <= i < n ==> (#[trigger] texts[i]).0 != name)
                ==> component_text(new, name) == component_text(entries, name)
        }),
    decreases n,
{
    if n > 0 {
        mutation_changes_only_its_texts(entries, texts, n - 1, name);
        let before = with_texts(entries, texts, n - 1);
        let last = texts[n - 1];
        lemma_with_texts_names(entries, texts, n - 1, last.0);
        lemma_entry_position(before, last.0);
        lemma_with_component(before, last.0, last.1, name);
        assert forall|i: int| 0 <= i < n && (#[trigger] texts[i]).0 == name implies component_text(
            with_texts(entries, texts, n),
            name,
        ) == Some(texts[i].1) by {
            if i < n - 1 && last.0 == name {
                assert(texts[i].0 == texts[n - 1].0);
            }
        }
    }
}

} // verus!
