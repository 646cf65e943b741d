//! The fixed per-project hook prompts: which slots exist, what they start with, and how an
//! edit is stored.
use vstd::prelude::*;

use crate::text::{chars_of, owned, push_str_chars, string_of, trim, trim_chars};

verus! {

broadcast use vstd::string::group_string_axioms;

pub const DESIGN_AUTHORING_HOOK_KEY: &'static str = "design.run.start.authoring";
pub const IMPLEMENTATION_GUIDANCE_HOOK_KEY: &'static str = "implementation.run.start.design-guide";

/// Shared workflow lives in the agent template and in on-demand help; the slots start empty
/// and hold optional project-specific instructions.
pub const DEFAULT_DESIGN_AUTHORING_PROMPT: &'static str = "";
pub const DEFAULT_IMPLEMENTATION_GUIDANCE_PROMPT: &'static str = "";

/// A stored fixed hook prompt.
#[derive(Clone, Debug)]
pub struct FixedHookPrompt {
    pub version: i64,
    pub key: String,
    pub title: String,
    pub intend: String,
    pub hook: String,
    pub prompt: String,
    pub updated_at: String,
}

/// One fixed hook slot.
#[derive(Clone, Copy, Debug)]
pub struct FixedHookDefinition {
    pub key: &'static str,
    pub title: &'static str,
    pub intend: &'static str,
    pub hook: &'static str,
    pub default_prompt: &'static str,
}

/// The character content of a slot definition.
pub struct DefinitionView {
    pub key: Seq<char>,
    pub title: Seq<char>,
    pub intend: Seq<char>,
    pub hook: Seq<char>,
    pub default_prompt: Seq<char>,
}

pub open spec fn definition_view(d: FixedHookDefinition) -> DefinitionView {
    DefinitionView {
        key: d.key@,
        title: d.title@,
        intend: d.intend@,
        hook: d.hook@,
        default_prompt: d.default_prompt@,
    }
}

/// The two fixed slots: design authoring and implementation guidance, both at run start.
pub open spec fn definitions_spec() -> Seq<DefinitionView> {
    seq![
        DefinitionView {
            key: DESIGN_AUTHORING_HOOK_KEY@,
            title: "Design Authoring Hook"@,
            intend: "design"@,
            hook: "run.start"@,
            default_prompt: DEFAULT_DESIGN_AUTHORING_PROMPT@,
        },
        DefinitionView {
            key: IMPLEMENTATION_GUIDANCE_HOOK_KEY@,
            title: "Implementation Guidance Hook"@,
            intend: "implementation"@,
            hook: "run.start"@,
            default_prompt: DEFAULT_IMPLEMENTATION_GUIDANCE_PROMPT@,
        },
    ]
}

/// The fixed hook slots every project has.
pub fn fixed_hook_definitions() -> (r: Vec<FixedHookDefinition>)
    ensures
        r@.map_values(|d: FixedHookDefinition| definition_view(d)) == definitions_spec(),
{
    let r = vec![
        FixedHookDefinition {
            key: DESIGN_AUTHORING_HOOK_KEY,
            title: "Design Authoring Hook",
            intend: "design",
            hook: "run.start",
            default_prompt: DEFAULT_DESIGN_AUTHORING_PROMPT,
        },
        FixedHookDefinition {
            key: IMPLEMENTATION_GUIDANCE_HOOK_KEY,
            title: "Implementation Guidance Hook",
            intend: "implementation",
            hook: "run.start",
            default_prompt: DEFAULT_IMPLEMENTATION_GUIDANCE_PROMPT,
        },
    ];
    assert(r@.map_values(|d: FixedHookDefinition| definition_view(d)) =~= definitions_spec());
    r
}

/// The prompt a new slot starts with: the design slot adopts a non-blank legacy design rule,
/// every other slot its default.
pub open spec fn initial_prompt_spec(key: Seq<char>, default_prompt: Seq<char>, legacy: Option<Seq<char>>) -> Seq<char> {
    if key == DESIGN_AUTHORING_HOOK_KEY@ {
        match legacy {
            Some(l) => if trim(l).len() > 0 {
                l
            } else {
                default_prompt
            },
            None => default_prompt,
        }
    } else {
        default_prompt
    }
}

/// The prompt a new slot starts with.
pub fn initial_prompt(definition: &FixedHookDefinition, legacy_design_prompt: Option<&str>) -> (r: String)
    ensures
        r@ == initial_prompt_spec(
            definition.key@,
            definition.default_prompt@,
            match legacy_design_prompt {
                Some(l) => Some(l@),
                None => None,
            },
        ),
{
    let key = chars_of(definition.key);
    if crate::text::eq_lit(key.as_slice(), DESIGN_AUTHORING_HOOK_KEY) {
        if let Some(l) = legacy_design_prompt {
            let v = chars_of(l);
            if trim_chars(v.as_slice()).len() > 0 {
                return owned(l);
            }
        }
    }
    owned(definition.default_prompt)
}

/// An edited prompt is stored trimmed.
pub fn stored_prompt(prompt: &str) -> (r: String)
    ensures
        r@ == trim(prompt@),
{
    let v = chars_of(prompt);
    let t = trim_chars(v.as_slice());
    string_of(t.as_slice())
}

/// The refusal for a key that names no slot.
pub fn unknown_key_message(key: &str) -> (r: String)
    ensures
        r@ == "Unknown fixed hook prompt key: "@ + key@,
{
    let mut s = owned("Unknown fixed hook prompt key: ");
    push_str_chars(&mut s, key);
    s
}

} // verus!
