//! What a mutation asks for, and what it makes of the answers.
use vstd::prelude::*;

use crate::laws::candidates::{no_text_without_a_name, setting_one_text_leaves_the_others};
use crate::laws::prompts::{
    a_part_of_a_part_occurs, every_text_of_every_record_is_shown, has_text,
};
use crate::optimizer::adapter::{
    candidate_entries, component_text, distinct_names, entry_position, lemma_entry_position,
    text_or_empty,
};
use crate::optimizer::data_loader::DataId;
use crate::optimizer::state::GEPAState;
use crate::proposer::reflective_mutation::{
    charged, chosen_template, first_unknown, prompt_for, requests_for, texts_from,
    PromptTemplateConfig, ReflectiveMutationProposer,
};
use crate::score::Score;
use crate::strategies::built_in_prompt::{
    built_in_prompt_holds_the_examples, built_in_prompt_holds_the_instruction,
};
use crate::strategies::instruction_proposal::{
    complete_template, extracted, prompt_holds_the_examples, rendered_prompt, META_PROMPT_TEMPLATE,
};
use crate::strategies::markdown::{samples_text, Json};
use crate::text::occurs;

verus! {

/// A prompt shows every text of every record, by whatever template; it is
/// refused just where the template lacks a placeholder.
pub proof fn a_prompt_shows_the_records(
    template: Option<Seq<char>>,
    current_text: Seq<char>,
    records: Seq<Json>,
    i: int,
    text: Seq<char>,
)
    requires
        0 <= i < records.len(),
        has_text(records[i], text),
    ensures
        prompt_for(template, current_text, records) is Ok <==> (template matches Some(t) ==> occurs(
            t,
            "<curr_param>"@,
        ) && occurs(t, "<side_info>"@)),
        prompt_for(template, current_text, records) matches Ok(prompt) ==> occurs(prompt, text),
{
    let dataset = samples_text(records, records.len() as int);
    every_text_of_every_record_is_shown(records, records.len() as int, i, text);
    match template {
        None => {
            built_in_prompt_holds_the_examples(current_text, dataset);
            a_part_of_a_part_occurs(
                rendered_prompt(META_PROMPT_TEMPLATE@, current_text, dataset),
                dataset,
                text,
            );
        },
        Some(t) => {
            if complete_template(t) {
                prompt_holds_the_examples(t, current_text, dataset);
                a_part_of_a_part_occurs(rendered_prompt(t, current_text, dataset), dataset, text);
            }
        },
    }
}

/// The built-in prompt shows the current text, unless that has a placeholder in
/// it.
pub proof fn a_prompt_shows_the_current_text(current_text: Seq<char>, records: Seq<Json>)
    requires
        !occurs(current_text, "<side_info>"@),
    ensures
        prompt_for(None, current_text, records) matches Ok(prompt) && occurs(prompt, current_text),
{
    built_in_prompt_holds_the_instruction(
        current_text,
        samples_text(records, records.len() as int),
    );
}

/// Whether a component is asked for: it has records, and a template that is
/// complete or the built-in one.
pub open spec fn asked_for(
    config: Option<PromptTemplateConfig>,
    dataset: Map<Seq<char>, Vec<Json>>,
    name: Seq<char>,
) -> bool {
    &&& dataset.dom().contains(name)
    &&& dataset[name]@.len() > 0
    &&& chosen_template(config, name) matches Some(t) ==> occurs(t, "<curr_param>"@) && occurs(
        t,
        "<side_info>"@,
    )
}

/// One request is made for each of the named components that is asked for, in
/// their order, with the component's own text and records.
pub proof fn requests_are_for_those_with_records(
    config: Option<PromptTemplateConfig>,
    entries: Seq<(Seq<char>, Seq<char>)>,
    dataset: Map<Seq<char>, Vec<Json>>,
    names: Seq<Seq<char>>,
    n: int,
)
    requires
        0 <= n <= names.len(),
    ensures
        ({
            let requests = requests_for(config, entries, dataset, names, n);
            let wanted = names.take(n).filter(|name: Seq<char>| asked_for(config, dataset, name));
            &&& requests.len() == wanted.len()
            &&& forall|k: int|
                0 <= k < requests.len() ==> (#[trigger] requests[k]).0 == wanted[k] && asked_for(
                    config,
                    dataset,
                    requests[k].0,
                ) && prompt_for(
                    chosen_template(config, requests[k].0),
                    text_or_empty(entries, requests[k].0),
                    dataset[requests[k].0]@,
                ) == Ok::<Seq<char>, Seq<char>>(requests[k].1)
        }),
    decreases n,
{
    let f = |name: Seq<char>| asked_for(config, dataset, name);
    reveal(Seq::filter);
    if n > 0 {
        requests_are_for_those_with_records(config, entries, dataset, names, n - 1);
        assert(names.take(n).drop_last() =~= names.take(n - 1));
        assert(names.take(n).last() == names[n - 1]);
    }
}

/// A request shows every text of every record of its component.
pub proof fn a_request_shows_the_records_of_its_component(
    config: Option<PromptTemplateConfig>,
    entries: Seq<(Seq<char>, Seq<char>)>,
    dataset: Map<Seq<char>, Vec<Json>>,
    names: Seq<Seq<char>>,
    k: int,
    i: int,
    text: Seq<char>,
)
    requires
        ({
            let requests = requests_for(config, entries, dataset, names, names.len() as int);
            &&& 0 <= k < requests.len()
            &&& 0 <= i < dataset[requests[k].0]@.len()
            &&& has_text(dataset[requests[k].0]@[i], text)
        }),
    ensures
        occurs(
            requests_for(config, entries, dataset, names, names.len() as int)[k].1,
            text,
        ),
{
    let requests = requests_for(config, entries, dataset, names, names.len() as int);
    requests_are_for_those_with_records(config, entries, dataset, names, names.len() as int);
    let name = requests[k].0;
    a_prompt_shows_the_records(
        chosen_template(config, name),
        text_or_empty(entries, name),
        dataset[name]@,
        i,
        text,
    );
}

/// A template is the same for every component, or the one under the component's
/// name; without a setting there is none.
pub proof fn templates_are_found_by_component(config: PromptTemplateConfig, component: Seq<char>)
    ensures
        chosen_template(None, component) is None,
        config matches PromptTemplateConfig::Single(s) ==> chosen_template(Some(config), component)
            == Some(s@),
        config matches PromptTemplateConfig::PerComponent(map) ==> chosen_template(
            Some(config),
            component,
        ) == component_text(candidate_entries(map), component),
{
}

proof fn lemma_texts_from(
    requests: Seq<(Seq<char>, Seq<char>)>,
    replies: Seq<Option<Seq<char>>>,
    n: int,
    name: Seq<char>,
)
    requires
        0 <= n <= requests.len(),
        n <= replies.len(),
    ensures
        distinct_names(texts_from(requests, replies, n)),
        (forall|i: int| 0 <= i < n ==> (#[trigger] requests[i]).0 != name) ==> component_text(
            texts_from(requests, replies, n),
            name,
        ) is None,
    decreases n,
{
    if n > 0 {
        lemma_texts_from(requests, replies, n - 1, name);
        if let Some(raw) = replies[n - 1] {
            if let Some(text) = extracted(raw) {
                setting_one_text_leaves_the_others(
                    texts_from(requests, replies, n - 1),
                    requests[n - 1].0,
                    text,
                    name,
                );
            }
        }
    } else {
        no_text_without_a_name(seq![], name);
    }
}

/// The new text of a component is what its reply has as an instruction; where
/// the reply failed or has none, there is no new text.
pub proof fn new_texts_are_those_of_the_replies(
    requests: Seq<(Seq<char>, Seq<char>)>,
    replies: Seq<Option<Seq<char>>>,
    n: int,
    i: int,
)
    requires
        distinct_names(requests),
        0 <= i < n <= requests.len(),
        n <= replies.len(),
    ensures
        component_text(texts_from(requests, replies, n), requests[i].0) == match replies[i] {
            Some(raw) => extracted(raw),
            None => None,
        },
    decreases n,
{
    let name = requests[i].0;
    let before = texts_from(requests, replies, n - 1);
    lemma_texts_from(requests, replies, n - 1, name);
    if i < n - 1 {
        new_texts_are_those_of_the_replies(requests, replies, n - 1, i);
        assert(requests[i].0 != requests[n - 1].0);
    } else {
        assert forall|j: int| 0 <= j < n - 1 implies (#[trigger] requests[j]).0 != name by {
            assert(requests[j].0 != requests[n - 1].0);
        }
    }
    if let Some(raw) = replies[n - 1] {
        if let Some(text) = extracted(raw) {
            setting_one_text_leaves_the_others(before, requests[n - 1].0, text, name);
        }
    }
}

/// No other component has a new text, and none has two.
pub proof fn only_requested_components_have_new_texts(
    requests: Seq<(Seq<char>, Seq<char>)>,
    replies: Seq<Option<Seq<char>>>,
    n: int,
    name: Seq<char>,
)
    requires
        0 <= n <= requests.len(),
        n <= replies.len(),
        forall|i: int| 0 <= i < n ==> (#[trigger] requests[i]).0 != name,
    ensures
        component_text(texts_from(requests, replies, n), name) is None,
        distinct_names(texts_from(requests, replies, n)),
{
    lemma_texts_from(requests, replies, n, name);
}

/// The first new text for a component that the candidate lacks is found, if
/// there is one.
pub proof fn unknown_components_are_found(
    texts: Seq<(Seq<char>, Seq<char>)>,
    entries: Seq<(Seq<char>, Seq<char>)>,
    i: int,
)
    requires
        0 <= i <= texts.len(),
    ensures
        match first_unknown(texts, entries, i) {
            Some(k) => i <= k < texts.len() && (forall|e: int|
                0 <= e < entries.len() ==> (#[trigger] entries[e]).0 != texts[k].0) && forall|j: int|
                i <= j < k ==> component_text(entries, (#[trigger] texts[j]).0) is Some,
            None => forall|j: int|
                i <= j < texts.len() ==> component_text(entries, (#[trigger] texts[j]).0) is Some,
        },
    decreases texts.len() - i,
{
    if i < texts.len() {
        lemma_entry_position(entries, texts[i].0);
        if entry_position(entries, texts[i].0) is Some {
            unknown_components_are_found(texts, entries, i + 1);
        }
    }
}

/// A minibatch is left alone just where nothing was traced, or where perfect ones
/// are skipped and no score falls short of the perfect one.
pub proof fn only_perfect_or_untraced_batches_are_skipped<S, B, C>(
    p: ReflectiveMutationProposer<S, B, C>,
    scores: Seq<Score>,
    traces: usize,
)
    ensures
        p.skips(scores, None),
        p.skips(scores, Some(0)),
        traces > 0 && !p.skip_perfect_score ==> !p.skips(scores, Some(traces)),
        traces > 0 && p.perfect_score is None ==> !p.skips(scores, Some(traces)),
        traces > 0 && (p.perfect_score matches Some(t) && exists|i: int|
            0 <= i < scores.len() && !(#[trigger] scores[i]).at_least(t)) ==> !p.skips(
            scores,
            Some(traces),
        ),
        p.skip_perfect_score && (p.perfect_score matches Some(t) && forall|i: int|
            0 <= i < scores.len() ==> (#[trigger] scores[i]).at_least(t)) ==> p.skips(
            scores,
            Some(traces),
        ),
{
}

/// Evaluations are counted and nothing else changes.
pub proof fn evaluations_are_counted<Id: DataId>(state: GEPAState<Id>, n: nat)
    requires
        state.total_num_evals + n <= usize::MAX,
    ensures
        charged(state, n).total_num_evals == state.total_num_evals + n,
        charged(state, n) == (GEPAState {
            total_num_evals: charged(state, n).total_num_evals,
            ..state
        }),
{
}

} // verus!
