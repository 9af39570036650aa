//! The built-in prompt registry.
//!
//! Content generation is configured by named prompts, each carrying the
//! model to call and the text to send. The registry is embedded in the
//! library and resolved by name; the cache itself never reads it — the
//! request handler does, on a cache miss.

use vstd::prelude::*;
use crate::strutil::str_eq;

verus! {

/// The text of a prompt.
#[derive(Debug, Clone)]
pub struct PromptText {
    pub text: String,
}

/// A named generation prompt: which model to call, the system context to
/// set, and the user prompt to send.
#[derive(Debug, Clone)]
pub struct PromptConfig {
    pub name: String,
    pub description: String,
    pub model: String,
    pub system_context: String,
    pub prompt: PromptText,
}

/// The one built-in prompt: the reading-comprehension generator.
pub open spec fn is_reading_prompt(c: PromptConfig) -> bool {
    &&& c.name@ == "reading_comprehension"@
    &&& c.description@ == "A reading comprehension passage with questions"@
    &&& c.model@ == "gpt-4o-mini"@
    &&& c.system_context@
        == "You are a helpful tutor who writes short stories for young readers."@
    &&& c.prompt.text@
        == "Write a short story suitable for a young reader, with a title and three comprehension questions about the story."@
}

/// The prompt registry: every prompt the service can generate from.
pub fn prompts() -> (r: Vec<PromptConfig>)
    ensures
        r@.len() == 1,
        is_reading_prompt(r@[0]),
        r@[0].prompt.text@.len() > 0,
{
    proof {
        reveal_strlit(
            "Write a short story suitable for a young reader, with a title and three comprehension questions about the story.",
        );
    }
    let config = PromptConfig {
        name: "reading_comprehension".to_owned(),
        description: "A reading comprehension passage with questions".to_owned(),
        model: "gpt-4o-mini".to_owned(),
        system_context: "You are a helpful tutor who writes short stories for young readers."
            .to_owned(),
        prompt: PromptText {
            text:
                "Write a short story suitable for a young reader, with a title and three comprehension questions about the story.".to_owned(),
        },
    };
    let mut r: Vec<PromptConfig> = Vec::new();
    r.push(config);
    r
}

/// The prompt registered under `name`, if any.
pub fn get_prompt(name: &str) -> (r: Option<PromptConfig>)
    ensures
        name@ == "reading_comprehension"@ ==> (r matches Some(c) && is_reading_prompt(c)
            && c.prompt.text@.len() > 0),
        name@ != "reading_comprehension"@ ==> r is None,
{
    if str_eq(name, "reading_comprehension") {
        let mut ps = prompts();
        ps.pop()
    } else {
        None
    }
}

/// The names of all registered prompts.
pub fn list_prompt_names() -> (r: Vec<String>)
    ensures
        r@.len() == 1,
        r@[0]@ == "reading_comprehension"@,
{
    let mut r: Vec<String> = Vec::new();
    r.push("reading_comprehension".to_owned());
    r
}

} // verus!
