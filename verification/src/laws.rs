//! The library's general laws, stated over the spec model and proved once
//! and for all.

use vstd::prelude::*;

use crate::chars::{is_line_break, is_terminator};
use crate::condense::{
    condense, join_sep, lemma_condense_empty_iff, lemma_condense_idempotent,
    lemma_condense_no_line_break, lemma_words_of_concat, lemma_words_of_cons_space,
    lemma_words_of_join, lemma_words_of_wf, words_of,
};
use crate::lines::{
    condense_block_spec, condensed_lines, find_line_break_from, lemma_find_line_break_from,
    lemma_find_line_break_from_is, lemma_lines_of_len, lemma_split_lines_len, lines_of,
    split_lines,
};
use crate::matchers::{
    find_terminator_from, first_sentence_spec, lemma_find_terminator_from, paragraph_spec,
    sentence_spec, strip_terminators,
};
use crate::parser::carve_sentences;

verus! {

/// Joining splits off its first piece.
proof fn lemma_join_sep_first(ws: Seq<Seq<char>>, sep: char)
    requires
        ws.len() >= 2,
    ensures
        join_sep(ws, sep) == ws[0] + seq![sep] + join_sep(ws.skip(1), sep),
    decreases ws.len(),
{
    if ws.len() == 2 {
        assert(ws.drop_last() =~= seq![ws[0]]);
        assert(ws.skip(1) =~= seq![ws[1]]);
        assert(join_sep(seq![ws[0]], sep) == ws[0]);
        assert(join_sep(seq![ws[1]], sep) == ws[1]);
    } else {
        lemma_join_sep_first(ws.drop_last(), sep);
        assert(ws.drop_last()[0] == ws[0]);
        assert(ws.drop_last().skip(1) =~= ws.skip(1).drop_last());
        assert(ws.skip(1).last() == ws.last());
        assert(ws.skip(1).len() >= 2);
        assert(join_sep(ws, sep) == join_sep(ws.drop_last(), sep) + seq![sep] + ws.last());
        assert(join_sep(ws.skip(1), sep) == join_sep(ws.skip(1).drop_last(), sep) + seq![sep]
            + ws.last());
        assert(join_sep(ws, sep) =~= ws[0] + seq![sep] + join_sep(ws.skip(1), sep));
    }
}

/// Splitting joined line-break-free pieces at line breaks recovers the
/// pieces.
proof fn lemma_split_lines_join(ls: Seq<Seq<char>>)
    requires
        ls.len() > 0,
        forall|k: int, j: int|
            0 <= k < ls.len() && 0 <= j < ls[k].len() ==> !is_line_break(#[trigger] ls[k][j]),
    ensures
        split_lines(join_sep(ls, '\n')) == ls,
    decreases ls.len(),
{
    let y = join_sep(ls, '\n');
    if ls.len() == 1 {
        assert(y == ls[0]);
        assert(forall|j: int| 0 <= j < y.len() ==> !is_line_break(#[trigger] y[j]));
        lemma_find_line_break_from_is(y, 0, y.len() as int);
        assert(split_lines(y) =~= ls);
    } else {
        lemma_join_sep_first(ls, '\n');
        let rest = join_sep(ls.skip(1), '\n');
        let first = ls[0];
        assert(y == first + seq!['\n'] + rest);
        assert(forall|j: int| 0 <= j < first.len() ==> y[j] == first[j]);
        assert(y[first.len() as int] == '\n');
        lemma_find_line_break_from_is(y, 0, first.len() as int);
        assert(find_line_break_from(y, 0) < y.len());
        assert(y.take(first.len() as int) =~= first);
        assert(y.skip(first.len() as int + 1) =~= rest);
        assert(forall|k: int, j: int|
            0 <= k < ls.skip(1).len() && 0 <= j < ls.skip(1)[k].len() ==> !is_line_break(
                #[trigger] ls.skip(1)[k][j],
            ));
        lemma_split_lines_join(ls.skip(1));
        assert(split_lines(y) =~= seq![first] + ls.skip(1));
        assert(seq![first] + ls.skip(1) =~= ls);
    }
}

/// Condensing a block is idempotent.
pub proof fn lemma_condense_block_idempotent(x: Seq<char>)
    ensures
        condense_block_spec(condense_block_spec(x)) == condense_block_spec(x),
{
    let cl = condensed_lines(x);
    let y = condense_block_spec(x);
    assert(cl.len() == lines_of(x).len());
    assert(forall|k: int| 0 <= k < cl.len() ==> cl[k] == condense(lines_of(x)[k]));
    assert forall|k: int, j: int|
        0 <= k < cl.len() && 0 <= j < cl[k].len() implies !is_line_break(#[trigger] cl[k][j]) by {
        lemma_condense_no_line_break(lines_of(x)[k]);
    }
    if y.len() == 0 {
        lemma_lines_of_len(y);
        assert(condensed_lines(y) =~= Seq::<Seq<char>>::empty());
    } else {
        assert(cl.len() > 0);
        lemma_split_lines_join(cl);
        assert(lines_of(y) == cl);
        assert forall|k: int| 0 <= k < cl.len() implies condense(#[trigger] cl[k]) == cl[k] by {
            lemma_condense_idempotent(lines_of(x)[k]);
        }
        assert(condensed_lines(y) =~= cl);
    }
}

/// A block matches as a whole sentence exactly when it has a first
/// sentence and, stripped of outer terminators and condensed, reduces to
/// exactly that first sentence; the match is then that sentence.
pub proof fn lemma_match_sentence_iff(x: Seq<char>)
    ensures
        sentence_spec(x) is Some <==> (first_sentence_spec(x) is Some && condense(
            strip_terminators(x),
        ) == first_sentence_spec(x)->Some_0),
        sentence_spec(x) is Some ==> sentence_spec(x) == first_sentence_spec(x),
{
}

/// A block containing a line break anywhere never matches as a whole
/// paragraph: the single-line requirement is strict.
pub proof fn lemma_match_paragraph_line_break(x: Seq<char>, i: int)
    requires
        0 <= i < x.len(),
        is_line_break(x[i]),
    ensures
        paragraph_spec(x) is None,
{
    lemma_find_line_break_from(x, 0);
    let j = find_line_break_from(x, 0);
    assert(j <= i);
    lemma_split_lines_len(x.skip(j + 1));
    assert(lines_of(x).len() >= 2);
}

/// The line with every terminator blanked out to a space: its words are
/// exactly the sentence-worth content of the line.
pub open spec fn terminators_blanked(line: Seq<char>) -> Seq<char> {
    line.map_values(
        |c: char|
            if is_terminator(c) {
                ' '
            } else {
                c
            },
    )
}

/// Carving accounts for every sentence-worth of content: the words of the
/// carved sentences, concatenated in order, are exactly the words of the
/// line once its terminators are blanked out.
pub proof fn lemma_carve_accounts_for_all(line: Seq<char>)
    requires
        carve_sentences(line) is Some,
    ensures
        carve_sentences(line)->Some_0.map_values(|t: Seq<char>| words_of(t)).flatten() == words_of(
            terminators_blanked(line),
        ),
    decreases line.len(),
{
    let tb = terminators_blanked(line);
    if line.len() == 0 {
        assert(tb =~= Seq::<char>::empty());
        assert(carve_sentences(line)->Some_0.map_values(|t: Seq<char>| words_of(t))
            =~= Seq::<Seq<Seq<char>>>::empty());
    } else if is_terminator(line[0]) {
        lemma_carve_accounts_for_all(line.skip(1));
        let tbrest = terminators_blanked(line.skip(1));
        assert(tb =~= seq![' '] + tbrest);
        lemma_words_of_cons_space(tbrest, ' ');
    } else {
        lemma_find_terminator_from(line, 0);
        let k = find_terminator_from(line, 0);
        let cand = line.take(k);
        let rest = line.skip(k);
        assert(k >= 1);
        lemma_carve_accounts_for_all(rest);
        let tbrest = terminators_blanked(rest);
        assert(forall|m: int| 0 <= m < k ==> !is_terminator(#[trigger] line[m]));
        assert(tb =~= cand + tbrest);
        assert(tbrest.len() == 0 || crate::chars::is_space(tbrest[0])) by {
            if k < line.len() {
                assert(is_terminator(line[k]));
                assert(tbrest[0] == ' ');
            } else {
                assert(tbrest =~= Seq::<char>::empty());
            }
        }
        lemma_words_of_concat(cand, tbrest);
        lemma_words_of_wf(cand);
        lemma_words_of_join(words_of(cand));
        assert(words_of(condense(cand)) == words_of(cand));
        let rest_ss = carve_sentences(rest)->Some_0;
        let texts = carve_sentences(line)->Some_0;
        assert(texts == seq![condense(cand)] + rest_ss);
        let mapped = texts.map_values(|t: Seq<char>| words_of(t));
        let mapped_rest = rest_ss.map_values(|t: Seq<char>| words_of(t));
        assert(mapped =~= seq![words_of(condense(cand))] + mapped_rest);
        assert(mapped.drop_first() =~= mapped_rest);
        assert(mapped.flatten() == words_of(condense(cand)) + mapped_rest.flatten());
        assert(words_of(tb) == words_of(cand) + words_of(tbrest));
    }
}

} // verus!
