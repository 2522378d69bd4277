//! The document tree: words, sentence terminators, sentences, paragraphs
//! and essays, each a strictly owned, front-consumable container.

use vstd::prelude::*;

use std::collections::VecDeque;

use crate::chars::{is_space, is_terminator, space_char, terminator_char};
use crate::condense::{condense, join_sep, words_of};
use crate::matchers::{match_sentence, paragraph_spec, sentence_spec, strip_terminators};
use crate::parser::{build_paragraph, carve_sentences};

verus! {

/// A word's text is non-empty and contains neither whitespace nor a
/// sentence terminator.
pub open spec fn word_text_wf(w: Seq<char>) -> bool {
    w.len() > 0 && forall|i: int|
        0 <= i < w.len() ==> !is_space(#[trigger] w[i]) && !is_terminator(w[i])
}

/// An atomic token: a contiguous run of non-whitespace characters. The
/// emphasis flag is reserved; no matcher ever sets it.
pub struct Word {
    pub data: String,
    pub emphasized: bool,
}

impl View for Word {
    type V = Seq<char>;

    open spec fn view(&self) -> Seq<char> {
        self.data@
    }
}

impl Word {
    /// The word's text.
    pub fn get_data(&self) -> (r: String)
        ensures
            r@ == self@,
    {
        self.data.clone()
    }
}

impl Clone for Word {
    fn clone(&self) -> (r: Word)
        ensures
            r == *self,
    {
        Word { data: self.data.clone(), emphasized: self.emphasized }
    }
}

/// One of the fixed sentence-ending symbols; construction fails for any
/// other character.
pub struct SentenceTerminator {
    data: char,
}

impl View for SentenceTerminator {
    type V = char;

    closed spec fn view(&self) -> char {
        self.data
    }
}

impl SentenceTerminator {
    /// Wraps the character exactly when it is a sentence terminator.
    pub fn new(data: char) -> (r: Option<SentenceTerminator>)
        ensures
            r is Some <==> is_terminator(data),
            r is Some ==> r->Some_0@ == data,
    {
        if terminator_char(data) {
            Some(SentenceTerminator { data })
        } else {
            None
        }
    }
}

/// An ordered, front-consumable sequence of words. The terminator that
/// closed the sentence in the source text is discarded by the builder,
/// deliberately: terminators stay informational-only.
pub struct Sentence {
    pub words: VecDeque<Word>,
}

impl View for Sentence {
    type V = Seq<Seq<char>>;

    open spec fn view(&self) -> Seq<Seq<char>> {
        self.words@.map_values(|w: Word| w@)
    }
}

impl Sentence {
    /// A sentence holds at least one word, each one a proper word.
    pub open spec fn wf(&self) -> bool {
        self@.len() > 0 && forall|k: int| 0 <= k < self@.len() ==> word_text_wf(#[trigger] self@[k])
    }

    /// Removes and returns the first word, in reading order.
    pub fn consume_first_word(&mut self) -> (r: Option<Word>)
        ensures
            old(self)@.len() == 0 ==> r is None && final(self)@ == old(self)@,
            old(self)@.len() > 0 ==> r is Some && r->Some_0@ == old(self)@[0] && final(self)@
                == old(self)@.skip(1),
    {
        let r = self.words.pop_front();
        proof {
            if old(self).words@.len() > 0 {
                assert(self.words@.map_values(|w: Word| w@) =~= old(self).words@.map_values(
                    |w: Word| w@,
                ).skip(1));
            }
        }
        r
    }

    /// Builds a sentence from a span that must match as one whole
    /// sentence; its words are the matched text's words, in reading order,
    /// and joining them with single spaces reproduces the condensed,
    /// terminator-stripped form of the input.
    pub fn new(data: String) -> (r: Option<Sentence>)
        ensures
            match r {
                Option::Some(st) => {
                    &&& sentence_spec(data@) is Some
                    &&& st@ == words_of(sentence_spec(data@)->Some_0)
                    &&& st.wf()
                    &&& join_sep(st@, ' ') == condense(strip_terminators(data@))
                    &&& forall|k: int|
                        0 <= k < st.words@.len() ==> !(#[trigger] st.words@[k]).emphasized
                },
                Option::None => sentence_spec(data@) is None,
            },
    {
        let sentence = match match_sentence(data.as_str()) {
            None => {
                return None;
            },
            Some(s) => s,
        };
        let b = sentence.as_str();
        let len = b.unicode_len();
        let ghost bs = b@;
        let mut words: VecDeque<Word> = VecDeque::new();
        let mut i: usize = 0;
        proof {
            assert(bs.take(0) =~= Seq::<char>::empty());
            assert(words@.map_values(|w: Word| w@) =~= words_of(bs.take(0)));
        }
        while i < len
            invariant
                b@ == bs,
                len == bs.len(),
                0 <= i <= len,
                words@.map_values(|w: Word| w@) == words_of(bs.take(i as int)),
                forall|k: int| 0 <= k < words@.len() ==> !(#[trigger] words@[k]).emphasized,
                i < len && !is_space(bs[i as int]) ==> (i == 0 || is_space(bs[i as int - 1])),
            decreases len - i,
        {
            let c = b.get_char(i);
            if space_char(c) {
                proof {
                    assert(bs.take(i as int + 1).drop_last() =~= bs.take(i as int));
                    assert(words_of(bs.take(i as int + 1)) == words_of(bs.take(i as int)));
                }
                i = i + 1;
            } else {
                let ghost w0 = words_of(bs.take(i as int));
                let mut j: usize = i + 1;
                proof {
                    let t = bs.take(i as int + 1);
                    assert(t.drop_last() =~= bs.take(i as int));
                    assert(seq![t.last()] =~= bs.subrange(i as int, i as int + 1));
                    assert(words_of(t) == w0.push(bs.subrange(i as int, i as int + 1)));
                }
                while j < len && !space_char(b.get_char(j))
                    invariant
                        b@ == bs,
                        len == bs.len(),
                        0 <= i < j <= len,
                        i == 0 || is_space(bs[i as int - 1]),
                        forall|m: int| i <= m < j ==> !is_space(#[trigger] bs[m]),
                        words_of(bs.take(j as int)) == w0.push(bs.subrange(i as int, j as int)),
                    decreases len - j,
                {
                    proof {
                        let t = bs.take(j as int + 1);
                        assert(t.drop_last() =~= bs.take(j as int));
                        assert(!is_space(t[t.len() - 2]));
                        let prev = w0.push(bs.subrange(i as int, j as int));
                        assert(words_of(t) == prev.update(
                            prev.len() - 1,
                            prev.last().push(bs[j as int]),
                        ));
                        assert(prev.update(prev.len() - 1, prev.last().push(bs[j as int]))
                            =~= w0.push(bs.subrange(i as int, j as int + 1))) by {
                            assert(bs.subrange(i as int, j as int).push(bs[j as int])
                                =~= bs.subrange(i as int, j as int + 1));
                        }
                    }
                    j = j + 1;
                }
                let w = b.substring_char(i, j);
                let ghost words_old = words@;
                words.push_back(Word { data: String::from_str(w), emphasized: false });
                proof {
                    assert(words@.map_values(|w: Word| w@) =~= words_old.map_values(
                        |w: Word| w@,
                    ).push(bs.subrange(i as int, j as int)));
                }
                i = j;
            }
        }
        proof {
            assert(bs.take(len as int) =~= bs);
            crate::matchers::lemma_first_sentence_value(data@);
            crate::condense::lemma_words_of_wf(bs);
            crate::condense::lemma_condense_empty_iff(bs);
            crate::condense::lemma_words_of_preserve(bs, |c: char| !is_terminator(c));
            assert forall|k: int| 0 <= k < words_of(bs).len() implies word_text_wf(
                #[trigger] words_of(bs)[k],
            ) by {
                assert forall|m: int| 0 <= m < words_of(bs)[k].len() implies !is_space(
                    #[trigger] words_of(bs)[k][m],
                ) && !is_terminator(words_of(bs)[k][m]) by {
                    assert((|c: char| !is_terminator(c))(words_of(bs)[k][m]));
                }
            }
        }
        Some(Sentence { words })
    }
}

/// An ordered, front-consumable sequence of sentences, created by the
/// document builder from a span that matches as a whole paragraph.
pub struct Paragraph {
    pub sentences: VecDeque<Sentence>,
}

impl View for Paragraph {
    type V = Seq<Seq<Seq<char>>>;

    open spec fn view(&self) -> Seq<Seq<Seq<char>>> {
        self.sentences@.map_values(|st: Sentence| st@)
    }
}

impl Paragraph {
    /// A paragraph holds at least one sentence, and every contained
    /// sentence satisfies the sentence invariant.
    pub open spec fn wf(&self) -> bool {
        self@.len() > 0 && forall|k: int|
            0 <= k < self.sentences@.len() ==> (#[trigger] self.sentences@[k]).wf()
    }

    /// Removes and returns the first sentence, in reading order.
    pub fn consume_first_sentence(&mut self) -> (r: Option<Sentence>)
        ensures
            old(self)@.len() == 0 ==> r is None && final(self)@ == old(self)@,
            old(self)@.len() > 0 ==> r is Some && r->Some_0@ == old(self)@[0] && final(self)@
                == old(self)@.skip(1),
            old(self)@.len() > 0 ==> r->Some_0 == old(self).sentences@[0],
    {
        let r = self.sentences.pop_front();
        proof {
            if old(self).sentences@.len() > 0 {
                assert(self.sentences@.map_values(|st: Sentence| st@) =~= old(
                    self,
                ).sentences@.map_values(|st: Sentence| st@).skip(1));
            }
        }
        r
    }

    /// Builds a paragraph from a span that must match as a whole
    /// paragraph, carving it into sentences in reading order; a span that
    /// carves into no sentence at all builds nothing.
    pub fn new(data: String) -> (r: Option<Paragraph>)
        ensures
            match r {
                Option::Some(p) => {
                    &&& paragraph_spec(data@) is Some
                    &&& carve_sentences(paragraph_spec(data@)->Some_0) is Some
                    &&& p@ == carve_sentences(paragraph_spec(data@)->Some_0)->Some_0.map_values(
                        |t: Seq<char>| words_of(t),
                    )
                    &&& p.wf()
                },
                Option::None => paragraph_spec(data@) is None || carve_sentences(
                    paragraph_spec(data@)->Some_0,
                ) is None || carve_sentences(paragraph_spec(data@)->Some_0)->Some_0.len() == 0,
            },
    {
        match build_paragraph(data.as_str()) {
            Ok(p) => Some(p),
            Err(_) => None,
        }
    }
}

/// An ordered, front-consumable sequence of paragraphs; for now a single
/// paragraph per document.
pub struct Essay {
    pub paragraphs: VecDeque<Paragraph>,
}

impl View for Essay {
    type V = Seq<Seq<Seq<Seq<char>>>>;

    open spec fn view(&self) -> Seq<Seq<Seq<Seq<char>>>> {
        self.paragraphs@.map_values(|p: Paragraph| p@)
    }
}

impl Essay {
    /// Every contained paragraph satisfies the paragraph invariant.
    pub open spec fn wf(&self) -> bool {
        forall|k: int| 0 <= k < self.paragraphs@.len() ==> (#[trigger] self.paragraphs@[k]).wf()
    }

    /// Wraps a single paragraph as the sole element of an essay.
    pub fn from_paragraph(paragraph: Paragraph) -> (r: Essay)
        ensures
            r.paragraphs@ == seq![paragraph],
            r@ == seq![paragraph@],
            paragraph.wf() ==> r.wf(),
    {
        let mut paragraphs: VecDeque<Paragraph> = VecDeque::new();
        paragraphs.push_back(paragraph);
        proof {
            assert(paragraphs@ =~= seq![paragraph]);
            assert(paragraphs@.map_values(|p: Paragraph| p@) =~= seq![paragraph@]);
        }
        Essay { paragraphs }
    }

    /// Builds an essay holding the one paragraph carved from the span.
    pub fn from_paragraph_string(paragraph: String) -> (r: Option<Essay>)
        ensures
            match r {
                Option::Some(e) => {
                    &&& paragraph_spec(paragraph@) is Some
                    &&& carve_sentences(paragraph_spec(paragraph@)->Some_0) is Some
                    &&& e@ == seq![
                        carve_sentences(paragraph_spec(paragraph@)->Some_0)->Some_0.map_values(
                            |t: Seq<char>| words_of(t),
                        ),
                    ]
                    &&& e.wf()
                },
                Option::None => paragraph_spec(paragraph@) is None || carve_sentences(
                    paragraph_spec(paragraph@)->Some_0,
                ) is None || carve_sentences(paragraph_spec(paragraph@)->Some_0)->Some_0.len()
                    == 0,
            },
    {
        match Paragraph::new(paragraph) {
            Some(p) => Some(Essay::from_paragraph(p)),
            None => None,
        }
    }
}

impl Clone for Sentence {
    fn clone(&self) -> (r: Sentence)
        ensures
            r@ == self@,
            r.words@.len() == self.words@.len(),
            forall|k: int| 0 <= k < r.words@.len() ==> #[trigger] r.words@[k] == self.words@[k],
    {
        let words = self.words.clone();
        proof {
            assert forall|k: int| 0 <= k < words@.len() implies #[trigger] words@[k]
                == self.words@[k] by {
                assert(vstd::pervasive::cloned::<Word>(self.words@[k], words@[k]));
            }
            assert(words@.map_values(|w: Word| w@) =~= self.words@.map_values(|w: Word| w@));
        }
        Sentence { words }
    }
}

} // verus!
