//! The document builder: carving a validated paragraph span into
//! sentences, and the essay entry points.

use vstd::prelude::*;

use std::collections::VecDeque;

use crate::chars::{is_terminator, terminator_char};
use crate::condense::{condense, lemma_condense_empty_iff, lemma_condense_idempotent,
    lemma_condense_preserve, words_of};
use crate::matchers::{
    find_terminator_from, lemma_find_terminator_from, lemma_find_terminator_from_is,
    lemma_sentence_spec_fixpoint, match_paragraph, paragraph_spec,
};
use crate::types::{Essay, Paragraph, Sentence};

verus! {

/// Why a build failed: the span is not a whole paragraph, or a sentence
/// chunk expected during carving did not parse.
#[derive(PartialEq, Eq, Structural, Clone, Copy, Debug)]
pub enum BuildError {
    NotAParagraph,
    MalformedParagraph,
}

/// The sentence texts carved from a condensed paragraph line, in reading
/// order: a leading terminator is dropped; otherwise everything before
/// the next terminator must condense to a non-empty sentence, which is
/// taken, and carving continues after it.
pub open spec fn carve_sentences(line: Seq<char>) -> Option<Seq<Seq<char>>>
    decreases line.len(),
    via carve_sentences_decreases
{
    if line.len() == 0 {
        Option::Some(Seq::empty())
    } else if is_terminator(line[0]) {
        carve_sentences(line.skip(1))
    } else {
        let k = find_terminator_from(line, 0);
        let cand = line.take(k);
        if words_of(cand).len() == 0 {
            Option::None
        } else {
            match carve_sentences(line.skip(k)) {
                Option::Some(rest) => Option::Some(seq![condense(cand)] + rest),
                Option::None => Option::None,
            }
        }
    }
}

#[via_fn]
proof fn carve_sentences_decreases(line: Seq<char>) {
    if line.len() > 0 && !is_terminator(line[0]) {
        lemma_find_terminator_from(line, 0);
    }
}

/// The carved texts already accumulated, followed by whatever carving the
/// remainder yields.
pub open spec fn carved_so_far(done: Seq<Seq<char>>, rest: Option<Seq<Seq<char>>>) -> Option<
    Seq<Seq<char>>,
> {
    match rest {
        Option::Some(ss) => Option::Some(done + ss),
        Option::None => Option::None,
    }
}

/// Builds a paragraph from the span: fails with `NotAParagraph` when the
/// span does not match as a whole paragraph, with `MalformedParagraph`
/// when a sentence chunk fails to parse during carving or when carving
/// yields no sentence at all, and otherwise returns the carved sentences
/// in reading order — a built paragraph is never empty.
pub fn build_paragraph(data: &str) -> (r: Result<Paragraph, BuildError>)
    ensures
        paragraph_spec(data@) is None ==> r == Result::<Paragraph, BuildError>::Err(
            BuildError::NotAParagraph,
        ),
        paragraph_spec(data@) is Some && (carve_sentences(paragraph_spec(data@)->Some_0) is None
            || carve_sentences(paragraph_spec(data@)->Some_0)->Some_0.len() == 0) ==> r
            == Result::<Paragraph, BuildError>::Err(BuildError::MalformedParagraph),
        paragraph_spec(data@) is Some && carve_sentences(paragraph_spec(data@)->Some_0) is Some
            && carve_sentences(paragraph_spec(data@)->Some_0)->Some_0.len() > 0 ==> r is Ok
            && r->Ok_0@ == carve_sentences(paragraph_spec(data@)->Some_0)->Some_0.map_values(
            |t: Seq<char>| words_of(t),
        ) && r->Ok_0.wf(),
{
    let line_string = match match_paragraph(data) {
        None => {
            return Err(BuildError::NotAParagraph);
        },
        Some(l) => l,
    };
    let line = line_string.as_str();
    let len = line.unicode_len();
    let ghost l = line@;
    let mut sentences: VecDeque<Sentence> = VecDeque::new();
    let ghost mut done: Seq<Seq<char>> = Seq::empty();
    let mut i: usize = 0;
    proof {
        assert(l.skip(0) =~= l);
        assert(done + carve_sentences(l)->Some_0 =~= carve_sentences(l)->Some_0);
    }
    while i < len
        invariant
            line@ == l,
            len == l.len(),
            paragraph_spec(data@) == Option::Some(l),
            0 <= i <= len,
            carve_sentences(l) == carved_so_far(done, carve_sentences(l.skip(i as int))),
            sentences@.len() == done.len(),
            forall|k: int| 0 <= k < done.len() ==> (#[trigger] sentences@[k])@ == words_of(done[k]),
            forall|k: int| 0 <= k < sentences@.len() ==> (#[trigger] sentences@[k]).wf(),
        decreases len - i,
    {
        let ghost t = l.skip(i as int);
        let c = line.get_char(i);
        if terminator_char(c) {
            proof {
                assert(t[0] == l[i as int]);
                assert(t.skip(1) =~= l.skip(i as int + 1));
                assert(carve_sentences(t) == carve_sentences(t.skip(1)));
            }
            i = i + 1;
        } else {
            let mut k: usize = i;
            while k < len && !terminator_char(line.get_char(k))
                invariant
                    line@ == l,
                    len == l.len(),
                    0 <= i <= k <= len,
                    forall|m: int| i <= m < k ==> !is_terminator(#[trigger] l[m]),
                decreases len - k,
            {
                k = k + 1;
            }
            proof {
                assert(forall|m: int|
                    0 <= m < k - i ==> t[m] == l[i + m] && !is_terminator(#[trigger] t[m]));
                if k < len {
                    assert(is_terminator(t[k as int - i as int]));
                }
                lemma_find_terminator_from_is(t, 0, k as int - i as int);
                assert(t.take(k as int - i as int) =~= l.subrange(i as int, k as int));
            }
            let cand = line.substring_char(i, k);
            let cond = crate::condense::condense_block_no_newline(cand);
            proof {
                lemma_condense_empty_iff(cand@);
            }
            if cond.as_str().is_empty() {
                return Err(BuildError::MalformedParagraph);
            }
            let ghost ctext = cond@;
            proof {
                lemma_condense_idempotent(cand@);
                lemma_condense_preserve(cand@, |ch: char| !is_terminator(ch));
                assert forall|m: int| 0 <= m < ctext.len() implies !is_terminator(
                    #[trigger] ctext[m],
                ) by {
                    assert((|ch: char| !is_terminator(ch))(ctext[m]));
                }
                lemma_sentence_spec_fixpoint(ctext);
            }
            let sentence = match Sentence::new(cond) {
                Some(st) => st,
                None => {
                    proof {
                        assert(false);
                    }
                    vstd::pervasive::unreached()
                },
            };
            let ghost done_old = done;
            sentences.push_back(sentence);
            proof {
                done = done.push(ctext);
                assert(t.skip(k as int - i as int) =~= l.skip(k as int));
                let rest_k = carve_sentences(l.skip(k as int));
                assert(carve_sentences(t) == carved_so_far(seq![ctext], rest_k));
                match rest_k {
                    Option::Some(ss) => {
                        assert(done_old + (seq![ctext] + ss) =~= done + ss);
                    },
                    Option::None => {},
                }
            }
            i = k;
        }
    }
    proof {
        assert(l.skip(len as int) =~= Seq::<char>::empty());
        assert(carve_sentences(l) == Option::Some(done + Seq::<Seq<char>>::empty()));
        assert(done + Seq::<Seq<char>>::empty() =~= done);
    }
    if sentences.len() == 0 {
        return Err(BuildError::MalformedParagraph);
    }
    let p = Paragraph { sentences };
    proof {
        assert(p@ =~= done.map_values(|tx: Seq<char>| words_of(tx)));
    }
    Ok(p)
}

/// Builds the essay for the span: the one paragraph carved from it, as
/// the sole element.
pub fn build_essay(data: &str) -> (r: Result<Essay, BuildError>)
    ensures
        paragraph_spec(data@) is None ==> r == Result::<Essay, BuildError>::Err(
            BuildError::NotAParagraph,
        ),
        paragraph_spec(data@) is Some && (carve_sentences(paragraph_spec(data@)->Some_0) is None
            || carve_sentences(paragraph_spec(data@)->Some_0)->Some_0.len() == 0) ==> r
            == Result::<Essay, BuildError>::Err(BuildError::MalformedParagraph),
        paragraph_spec(data@) is Some && carve_sentences(paragraph_spec(data@)->Some_0) is Some
            && carve_sentences(paragraph_spec(data@)->Some_0)->Some_0.len() > 0 ==> r is Ok
            && r->Ok_0@ == seq![
            carve_sentences(paragraph_spec(data@)->Some_0)->Some_0.map_values(
                |t: Seq<char>| words_of(t),
            ),
        ] && r->Ok_0.wf(),
{
    match build_paragraph(data) {
        Ok(p) => Ok(Essay::from_paragraph(p)),
        Err(e) => Err(e),
    }
}

/// Parses a raw span into an essay: no essay unless the span matches as a
/// whole paragraph that carves into sentences.
pub fn parse_into_essay(absttext_input: String) -> (r: Option<Essay>)
    ensures
        match r {
            Option::Some(e) => {
                &&& paragraph_spec(absttext_input@) is Some
                &&& carve_sentences(paragraph_spec(absttext_input@)->Some_0) is Some
                &&& e@ == seq![
                    carve_sentences(paragraph_spec(absttext_input@)->Some_0)->Some_0.map_values(
                        |t: Seq<char>| words_of(t),
                    ),
                ]
                &&& e.wf()
            },
            Option::None => paragraph_spec(absttext_input@) is None || carve_sentences(
                paragraph_spec(absttext_input@)->Some_0,
            ) is None || carve_sentences(paragraph_spec(absttext_input@)->Some_0)->Some_0.len()
                == 0,
        },
{
    match match_paragraph(absttext_input.as_str()) {
        Some(_) => Essay::from_paragraph_string(absttext_input),
        None => None,
    }
}

} // verus!
