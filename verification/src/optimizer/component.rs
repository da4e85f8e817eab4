//! What kind of content a component has.
use vstd::prelude::*;

use crate::keyed::KeyMap;

verus! {

/// The kind of content of a component.
#[derive(Debug, Clone, Copy, PartialEq, Eq, Hash, Structural)]
pub enum ComponentKind {
    /// Natural language, such as an instruction or a prompt.
    Text,
    /// Source code.
    Code,
    /// Structured configuration.
    Config,
}

impl Default for ComponentKind {
    fn default() -> (k: ComponentKind)
        ensures
            k == ComponentKind::Text,
    {
        ComponentKind::Text
    }
}

/// What is known of one component.
#[derive(Debug, Clone)]
pub struct ComponentMeta {
    /// The kind of its content.
    pub kind: ComponentKind,
    /// What it controls.
    pub description: String,
    /// The language of a code component, such as `rust`.
    pub language: Option<String>,
    /// The constraints on the values of a configuration, by name.
    pub constraints: Option<KeyMap<String, String>>,
}

impl ComponentMeta {
    /// A text component.
    pub fn text(description: &str) -> (m: Self)
        ensures
            m.kind == ComponentKind::Text,
            m.description@ == description@,
            m.language is None,
            m.constraints is None,
    {
        ComponentMeta {
            kind: ComponentKind::Text,
            description: description.to_owned(),
            language: None,
            constraints: None,
        }
    }

    /// A code component in a language.
    pub fn code(description: &str, language: &str) -> (m: Self)
        ensures
            m.kind == ComponentKind::Code,
            m.description@ == description@,
            m.language matches Some(l) && l@ == language@,
            m.constraints is None,
    {
        ComponentMeta {
            kind: ComponentKind::Code,
            description: description.to_owned(),
            language: Some(language.to_owned()),
            constraints: None,
        }
    }

    /// A configuration component.
    pub fn config(description: &str) -> (m: Self)
        ensures
            m.kind == ComponentKind::Config,
            m.description@ == description@,
            m.language is None,
            m.constraints is None,
    {
        ComponentMeta {
            kind: ComponentKind::Config,
            description: description.to_owned(),
            language: None,
            constraints: None,
        }
    }

    /// This with constraints.
    pub fn with_constraints(self, constraints: KeyMap<String, String>) -> (m: Self)
        ensures
            m == (ComponentMeta { constraints: Some(constraints), ..self }),
    {
        ComponentMeta { constraints: Some(constraints), ..self }
    }
}

/// What is known of the components, by name.
pub type ComponentMetaMap = KeyMap<String, ComponentMeta>;

/// The kind of the component `name`: text where nothing is known of it.
pub fn component_kind(meta: &ComponentMetaMap, name: &str) -> (k: ComponentKind)
    requires
        meta.wf(),
    ensures
        k == if meta@.dom().contains(name@) {
            meta@[name@].kind
        } else {
            ComponentKind::Text
        },
{
    match meta.get(&name.to_owned()) {
        Some(m) => m.kind,
        None => ComponentKind::Text,
    }
}

} // verus!
