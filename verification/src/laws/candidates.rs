//! How the texts of a candidate's components are found and changed.
use vstd::prelude::*;

use crate::optimizer::adapter::{
    component_text, distinct_names, entry_position, lemma_entry_position, text_or_empty,
    with_component,
};

verus! {

/// The text of a component is what stands beside its name.
pub proof fn text_stands_beside_the_name(entries: Seq<(Seq<char>, Seq<char>)>, i: int)
    requires
        distinct_names(entries),
        0 <= i < entries.len(),
    ensures
        component_text(entries, entries[i].0) == Some(entries[i].1),
        text_or_empty(entries, entries[i].0) == entries[i].1,
{
    let name = entries[i].0;
    lemma_entry_position(entries, name);
    let at = entry_position(entries, name);
    assert(at is Some);
    if at->0 < i {
        assert(entries[at->0].0 != entries[i].0);
    } else if i < at->0 {
        assert(entries[i].0 != entries[at->0].0);
    }
}

/// A name that no component has has no text.
pub proof fn no_text_without_a_name(entries: Seq<(Seq<char>, Seq<char>)>, name: Seq<char>)
    requires
        forall|i: int| 0 <= i < entries.len() ==> (#[trigger] entries[i]).0 != name,
    ensures
        component_text(entries, name) is None,
        text_or_empty(entries, name) == Seq::<char>::empty(),
{
    lemma_entry_position(entries, name);
}

/// A text that is set is found, every other component keeps its text and its
/// place, and no name comes twice.
pub proof fn setting_one_text_leaves_the_others(
    entries: Seq<(Seq<char>, Seq<char>)>,
    name: Seq<char>,
    text: Seq<char>,
    other: Seq<char>,
)
    requires
        distinct_names(entries),
    ensures
        ({
            let after = with_component(entries, name, text);
            &&& distinct_names(after)
            &&& component_text(after, name) == Some(text)
            &&& other != name ==> component_text(after, other) == component_text(entries, other)
            &&& after.len() == entries.len() + if component_text(entries, name) is None {
                1int
            } else {
                0
            }
            &&& forall|i: int|
                0 <= i < entries.len() ==> (#[trigger] after[i]).0 == entries[i].0 && (entries[i].0
                    != name ==> after[i] == entries[i])
        }),
{
    let after = with_component(entries, name, text);
    lemma_entry_position(entries, name);
    lemma_entry_position(entries, other);
    lemma_entry_position(after, name);
    lemma_entry_position(after, other);
    assert forall|i: int, j: int| 0 <= i < j < after.len() implies (#[trigger] after[i]).0 != (
    #[trigger] after[j]).0 by {
        if j < entries.len() {
            assert(entries[i].0 != entries[j].0);
        }
    }
    match entry_position(entries, name) {
        Some(k) => {
            assert(after[k] == (name, text));
            text_stands_beside_the_name(after, k);
            if other != name {
                match entry_position(entries, other) {
                    Some(i) => {
                        assert(after[i] == entries[i]);
                        text_stands_beside_the_name(after, i);
                    },
                    None => {
                        assert forall|i: int| 0 <= i < after.len() implies (#[trigger] after[i]).0
                            != other by {
                            assert(entries[i].0 != other);
                        }
                    },
                }
            }
        },
        None => {
            let n = entries.len() as int;
            assert(after[n] == (name, text));
            text_stands_beside_the_name(after, n);
            if other != name {
                match entry_position(entries, other) {
                    Some(i) => {
                        assert(after[i] == entries[i]);
                        text_stands_beside_the_name(after, i);
                    },
                    None => {
                        assert forall|i: int| 0 <= i < after.len() implies (#[trigger] after[i]).0
                            != other by {
                            if i < n {
                                assert(entries[i].0 != other);
                            }
                        }
                    },
                }
            }
        },
    }
}

} // verus!
