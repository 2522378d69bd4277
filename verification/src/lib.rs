//! Converts loosely formatted plain text into a structured document tree
//! (words in sentences in paragraphs in an essay), inferring structure
//! from whitespace layout and sentence-terminating punctuation alone, and
//! renders the tree into an output markup format.

use vstd::prelude::*;

pub mod chars;
pub mod condense;
pub mod laws;
pub mod lines;
pub mod markdown;
pub mod matchers;
pub mod parser;
pub mod types;

verus! {

/// Renders the finished document tree into an output markup format. The
/// output syntax is the implementor's choice; it only receives entities
/// that satisfy their invariants.
pub trait MarkupGenerator {
    /// Renders a single sentence.
    fn generate_sentence(sentence: types::Sentence) -> String
        requires
            sentence.wf(),
    ;

    /// Renders a single paragraph.
    fn generate_paragraph(paragraph: types::Paragraph) -> String
        requires
            paragraph.wf(),
    ;

    /// Renders the whole essay.
    fn generate(essay: types::Essay) -> String
        requires
            essay.wf(),
            essay@.len() > 0,
            essay@[0].len() > 0,
    ;
}

} // verus!
