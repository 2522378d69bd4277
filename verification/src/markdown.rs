//! A markup generator for Markdown output. Rendering is deliberately
//! partial: a sentence renders as its words joined by single spaces, and
//! the essay renders only the first sentence of its first paragraph;
//! paragraph rendering is a stub left to be completed.

use vstd::prelude::*;

use crate::condense::{join_sep, lemma_join_sep_push};
use crate::types::{Essay, Paragraph, Sentence};
use crate::MarkupGenerator;

verus! {

pub struct MarkdownGenerator;

impl MarkupGenerator for MarkdownGenerator {
    /// Renders a sentence as its words joined by single spaces.
    fn generate_sentence(sentence: Sentence) -> (r: String)
        ensures
            r@ == join_sep(sentence@, ' '),
    {
        let len = sentence.words.len();
        let mut r = String::new();
        let mut k: usize = 0;
        proof {
            assert(sentence@.take(0) =~= Seq::<Seq<char>>::empty());
        }
        while k < len
            invariant
                len == sentence.words@.len(),
                len == sentence@.len(),
                0 <= k <= len,
                r@ == join_sep(sentence@.take(k as int), ' '),
            decreases len - k,
        {
            proof {
                lemma_join_sep_push(sentence@.take(k as int), sentence@[k as int], ' ');
                assert(sentence@.take(k as int).push(sentence@[k as int]) =~= sentence@.take(
                    k as int + 1,
                ));
                reveal_strlit(" ");
                assert(" "@ =~= seq![' ']);
            }
            if k > 0 {
                r.append(" ");
            }
            let word = &sentence.words[k];
            r.append(word.data.as_str());
            k = k + 1;
        }
        proof {
            assert(sentence@.take(len as int) =~= sentence@);
        }
        r
    }

    /// Paragraph rendering is not implemented yet: the stub renders
    /// nothing.
    fn generate_paragraph(paragraph: Paragraph) -> (r: String)
        ensures
            r@ == Seq::<char>::empty(),
    {
        String::new()
    }

    /// Renders the first sentence of the essay's first paragraph.
    fn generate(essay: Essay) -> (r: String)
        ensures
            r@ == join_sep(essay@[0][0], ' '),
    {
        let first_paragraph = &essay.paragraphs[0];
        let first_sentence = first_paragraph.sentences[0].clone();
        Self::generate_sentence(first_sentence)
    }
}

} // verus!
