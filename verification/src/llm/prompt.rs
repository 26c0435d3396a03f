//! The prompt for a translation.

use vstd::prelude::*;

use crate::llm::lang::Language;

verus! {

/// What the translation is for.
#[derive(Debug, Clone, Copy, PartialEq, Eq, Structural)]
pub enum PromptStyle {
    /// Words are to be aligned with the source: keep their order.
    PreserveOrder,
    /// A translation that reads well.
    Fluent,
}

/// The sentence of the prompt that asks for a style.
pub open spec fn style_clause(style: PromptStyle) -> Seq<char> {
    match style {
        PromptStyle::PreserveOrder => "Preserve the word order of the source as far as the target language allows, so that the words can be aligned."@,
        PromptStyle::Fluent => "Write natural, fluent prose."@,
    }
}

/// The prompt for a translation.
pub open spec fn translation_prompt(
    text: Seq<char>,
    src: Seq<char>,
    tgt: Seq<char>,
    style: PromptStyle,
) -> Seq<char> {
    "Translate the following text from "@ + src + " to "@ + tgt + ". "@ + style_clause(style)
        + " Return only the translation, without notes or quotation marks.\n\n"@ + text
}

/// The prompt for a translation.
pub fn build_translation_prompt(
    text: &str,
    src: &Language,
    tgt: &Language,
    style: PromptStyle,
) -> (r: String)
    ensures
        r@ == translation_prompt(text@, src.name@, tgt.name@, style),
{
    let mut r = "Translate the following text from ".to_owned();
    r.append(&src.name);
    r.append(" to ");
    r.append(&tgt.name);
    r.append(". ");
    match style {
        PromptStyle::PreserveOrder => {
            r.append(
                "Preserve the word order of the source as far as the target language allows, so that the words can be aligned.",
            );
        },
        PromptStyle::Fluent => {
            r.append("Write natural, fluent prose.");
        },
    }
    r.append(" Return only the translation, without notes or quotation marks.\n\n");
    r.append(text);
    r
}

} // verus!
