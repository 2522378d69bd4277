//! Whitespace condensing within a single line: the words of a block and
//! their joining with single spaces.

use vstd::prelude::*;

use crate::chars::{is_space, space_char};

verus! {

/// The words of a block: its maximal runs of non-whitespace characters,
/// in reading order. Folding over the text from the right, a non-space
/// character either extends the word in progress or opens a new one.
pub open spec fn words_of(s: Seq<char>) -> Seq<Seq<char>>
    decreases s.len(),
{
    if s.len() == 0 {
        Seq::empty()
    } else {
        let prefix = words_of(s.drop_last());
        if is_space(s.last()) {
            prefix
        } else if s.len() >= 2 && !is_space(s[s.len() - 2]) {
            prefix.update(prefix.len() - 1, prefix.last().push(s.last()))
        } else {
            prefix.push(seq![s.last()])
        }
    }
}

/// The pieces joined with a single separator between consecutive pieces.
pub open spec fn join_sep(ws: Seq<Seq<char>>, sep: char) -> Seq<char>
    decreases ws.len(),
{
    if ws.len() == 0 {
        Seq::empty()
    } else if ws.len() == 1 {
        ws[0]
    } else {
        join_sep(ws.drop_last(), sep) + seq![sep] + ws.last()
    }
}

/// The condensed form of a single line: its words joined by single spaces.
pub open spec fn condense(s: Seq<char>) -> Seq<char> {
    join_sep(words_of(s), ' ')
}

/// Every word is non-empty and free of whitespace, and text ending in a
/// non-space character has a word at its end.
pub proof fn lemma_words_of_wf(s: Seq<char>)
    ensures
        forall|k: int| 0 <= k < words_of(s).len() ==> (#[trigger] words_of(s)[k]).len() > 0,
        forall|k: int, j: int|
            0 <= k < words_of(s).len() && 0 <= j < words_of(s)[k].len() ==> !is_space(
                #[trigger] words_of(s)[k][j],
            ),
        s.len() > 0 && !is_space(s.last()) ==> words_of(s).len() > 0,
    decreases s.len(),
{
    if s.len() > 0 {
        lemma_words_of_wf(s.drop_last());
        let prefix = words_of(s.drop_last());
        if is_space(s.last()) {
        } else if s.len() >= 2 && !is_space(s[s.len() - 2]) {
            assert(s.drop_last().len() > 0 && !is_space(s.drop_last().last()));
            assert(prefix.len() > 0);
            let ws = prefix.update(prefix.len() - 1, prefix.last().push(s.last()));
            assert forall|k: int| 0 <= k < ws.len() implies (#[trigger] ws[k]).len() > 0 by {
                if k < prefix.len() - 1 {
                    assert(ws[k] == prefix[k]);
                }
            }
            assert forall|k: int, j: int|
                0 <= k < ws.len() && 0 <= j < ws[k].len() implies !is_space(
                #[trigger] ws[k][j],
            ) by {
                if k < prefix.len() - 1 {
                    assert(ws[k] == prefix[k]);
                } else {
                    assert(ws[k] == prefix.last().push(s.last()));
                }
            }
        } else {
            let ws = prefix.push(seq![s.last()]);
            assert forall|k: int, j: int|
                0 <= k < ws.len() && 0 <= j < ws[k].len() implies !is_space(
                #[trigger] ws[k][j],
            ) by {
                if k < prefix.len() {
                    assert(ws[k] == prefix[k]);
                } else {
                    assert(ws[k] == seq![s.last()]);
                }
            }
        }
    }
}

/// A word appended after a space boundary becomes one more word.
pub proof fn lemma_words_of_append_word(x: Seq<char>, w: Seq<char>)
    requires
        w.len() > 0,
        forall|j: int| 0 <= j < w.len() ==> !is_space(#[trigger] w[j]),
        x.len() == 0 || is_space(x.last()),
    ensures
        words_of(x + w) == words_of(x).push(w),
    decreases w.len(),
{
    if w.len() == 1 {
        let s = x + w;
        assert(s.drop_last() =~= x);
        assert(seq![s.last()] =~= w);
    } else {
        lemma_words_of_append_word(x, w.drop_last());
        let s = x + w;
        assert(s.drop_last() =~= x + w.drop_last());
        assert(!is_space(s[s.len() - 2]));
        lemma_words_of_wf(x);
        let prefix = words_of(x).push(w.drop_last());
        assert(words_of(s) == prefix.update(prefix.len() - 1, prefix.last().push(s.last())));
        assert(prefix.update(prefix.len() - 1, prefix.last().push(s.last())) =~= words_of(x).push(
            w,
        )) by {
            assert(prefix.last() == w.drop_last());
            assert(w.drop_last().push(w.last()) =~= w);
        }
    }
}

/// A trailing space changes no words.
pub proof fn lemma_words_of_push_space(x: Seq<char>, c: char)
    requires
        is_space(c),
    ensures
        words_of(x.push(c)) == words_of(x),
{
    assert(x.push(c).drop_last() =~= x);
}

/// A leading space changes no words.
pub proof fn lemma_words_of_cons_space(t: Seq<char>, c: char)
    requires
        is_space(c),
    ensures
        words_of(seq![c] + t) == words_of(t),
    decreases t.len(),
{
    let s = seq![c] + t;
    if t.len() == 0 {
        assert(s =~= seq![c]);
        assert(s.drop_last() =~= Seq::<char>::empty());
        assert(words_of(s) == words_of(Seq::<char>::empty()));
        assert(words_of(s) =~= words_of(t));
    } else {
        lemma_words_of_cons_space(t.drop_last(), c);
        assert(s.drop_last() =~= seq![c] + t.drop_last());
        assert(s.last() == t.last());
        assert(words_of(s.drop_last()) == words_of(t.drop_last()));
        if is_space(t.last()) {
            assert(words_of(s) == words_of(s.drop_last()));
            assert(words_of(t) == words_of(t.drop_last()));
        } else if t.len() >= 2 {
            assert(s[s.len() - 2] == t[t.len() - 2]);
            if !is_space(t[t.len() - 2]) {
                let q = words_of(t.drop_last());
                assert(words_of(s) == q.update(q.len() - 1, q.last().push(t.last())));
                assert(words_of(t) == q.update(q.len() - 1, q.last().push(t.last())));
            } else {
                assert(words_of(s) == words_of(s.drop_last()).push(seq![t.last()]));
                assert(words_of(t) == words_of(t.drop_last()).push(seq![t.last()]));
            }
        } else {
            assert(s.len() == 2 && s[s.len() - 2] == c && is_space(c));
            assert(words_of(s) == words_of(s.drop_last()).push(seq![t.last()]));
            assert(t.drop_last() =~= Seq::<char>::empty());
            assert(words_of(t) == words_of(t.drop_last()).push(seq![t.last()]));
        }
    }
}

/// Words split at a space boundary: when the second part opens with a
/// space, the words of the whole are the words of the parts.
pub proof fn lemma_words_of_concat(a: Seq<char>, b: Seq<char>)
    requires
        b.len() == 0 || is_space(b[0]),
    ensures
        words_of(a + b) == words_of(a) + words_of(b),
    decreases b.len(),
{
    let s = a + b;
    if b.len() == 0 {
        assert(s =~= a);
        assert(words_of(a) + words_of(b) =~= words_of(a));
    } else if b.len() == 1 {
        assert(s.drop_last() =~= a);
        assert(is_space(s.last()));
        assert(b.drop_last() =~= Seq::<char>::empty());
        assert(words_of(b) == words_of(Seq::<char>::empty()));
        assert(words_of(b) =~= Seq::<Seq<char>>::empty());
        assert(words_of(a) + words_of(b) =~= words_of(a));
    } else {
        lemma_words_of_concat(a, b.drop_last());
        assert(s.drop_last() =~= a + b.drop_last());
        assert(s.last() == b.last());
        assert(s[s.len() - 2] == b[b.len() - 2]);
        let p = words_of(a) + words_of(b.drop_last());
        let q = words_of(b.drop_last());
        if is_space(b.last()) {
        } else if !is_space(b[b.len() - 2]) {
            assert(b.drop_last().len() > 0 && !is_space(b.drop_last().last()));
            lemma_words_of_wf(b.drop_last());
            assert(q.len() > 0);
            assert(p.last() == q.last());
            assert(words_of(s) == p.update(p.len() - 1, p.last().push(b.last())));
            assert(words_of(b) == q.update(q.len() - 1, q.last().push(b.last())));
            assert(p.update(p.len() - 1, p.last().push(b.last())) =~= words_of(a) + q.update(
                q.len() - 1,
                q.last().push(b.last()),
            ));
        } else {
            assert(words_of(s) == p.push(seq![b.last()]));
            assert(words_of(b) == q.push(seq![b.last()]));
            assert(p.push(seq![b.last()]) =~= words_of(a) + q.push(seq![b.last()]));
        }
    }
}

/// Joining a further piece extends the joined text by a separator and
/// that piece.
pub proof fn lemma_join_sep_push(ws: Seq<Seq<char>>, w: Seq<char>, sep: char)
    ensures
        ws.len() == 0 ==> join_sep(ws.push(w), sep) == w,
        ws.len() > 0 ==> join_sep(ws.push(w), sep) == join_sep(ws, sep) + seq![sep] + w,
{
    assert(ws.push(w).drop_last() =~= ws);
    assert(ws.push(w).last() == w);
    if ws.len() == 0 {
        assert(join_sep(ws.push(w), sep) == ws.push(w)[0]);
    }
}

/// Splitting the words of joined text recovers the pieces, as long as
/// each piece is a single word of its own.
pub proof fn lemma_words_of_join(ws: Seq<Seq<char>>)
    requires
        forall|k: int| 0 <= k < ws.len() ==> (#[trigger] ws[k]).len() > 0,
        forall|k: int, j: int|
            0 <= k < ws.len() && 0 <= j < ws[k].len() ==> !is_space(#[trigger] ws[k][j]),
    ensures
        words_of(join_sep(ws, ' ')) == ws,
    decreases ws.len(),
{
    if ws.len() == 0 {
        assert(words_of(join_sep(ws, ' ')) =~= ws);
    } else if ws.len() == 1 {
        assert(Seq::<char>::empty() + ws[0] =~= ws[0]);
        lemma_words_of_append_word(Seq::empty(), ws[0]);
        assert(words_of(Seq::<char>::empty()).push(ws[0]) =~= ws);
    } else {
        lemma_words_of_join(ws.drop_last());
        let x = join_sep(ws.drop_last(), ' ').push(' ');
        lemma_words_of_push_space(join_sep(ws.drop_last(), ' '), ' ');
        lemma_words_of_append_word(x, ws.last());
        assert(x + ws.last() =~= join_sep(ws, ' '));
        assert(ws.drop_last().push(ws.last()) =~= ws);
        assert(words_of(x) == ws.drop_last());
    }
}

/// Condensing is idempotent.
pub proof fn lemma_condense_idempotent(s: Seq<char>)
    ensures
        condense(condense(s)) == condense(s),
{
    lemma_words_of_wf(s);
    lemma_words_of_join(words_of(s));
}

/// A character class that holds everywhere in a block holds of each
/// character of each of its words.
pub proof fn lemma_words_of_preserve(s: Seq<char>, p: spec_fn(char) -> bool)
    requires
        forall|i: int| 0 <= i < s.len() ==> p(#[trigger] s[i]),
    ensures
        forall|k: int, j: int|
            0 <= k < words_of(s).len() && 0 <= j < words_of(s)[k].len() ==> p(
                #[trigger] words_of(s)[k][j],
            ),
    decreases s.len(),
{
    if s.len() > 0 {
        assert(forall|i: int| 0 <= i < s.drop_last().len() ==> p(#[trigger] s.drop_last()[i]));
        lemma_words_of_preserve(s.drop_last(), p);
        let prefix = words_of(s.drop_last());
        let ws = words_of(s);
        assert forall|k: int, j: int|
            0 <= k < ws.len() && 0 <= j < ws[k].len() implies p(#[trigger] ws[k][j]) by {
            if is_space(s.last()) {
                assert(ws[k] == prefix[k]);
            } else if s.len() >= 2 && !is_space(s[s.len() - 2]) {
                lemma_words_of_wf(s.drop_last());
                assert(prefix.len() > 0);
                if k < prefix.len() - 1 {
                    assert(ws[k] == prefix[k]);
                } else {
                    assert(ws[k] == prefix.last().push(s.last()));
                    assert(p(s.last()));
                }
            } else {
                if k < prefix.len() {
                    assert(ws[k] == prefix[k]);
                } else {
                    assert(ws[k] == seq![s.last()]);
                    assert(p(s.last()));
                }
            }
        }
    }
}

/// A character class that holds of the separator and of every piece holds
/// everywhere in the joined text.
pub proof fn lemma_join_sep_preserve(ws: Seq<Seq<char>>, sep: char, p: spec_fn(char) -> bool)
    requires
        p(sep),
        forall|k: int, j: int|
            0 <= k < ws.len() && 0 <= j < ws[k].len() ==> p(#[trigger] ws[k][j]),
    ensures
        forall|i: int| 0 <= i < join_sep(ws, sep).len() ==> p(#[trigger] join_sep(ws, sep)[i]),
    decreases ws.len(),
{
    if ws.len() <= 1 {
    } else {
        assert(forall|k: int, j: int|
            0 <= k < ws.drop_last().len() && 0 <= j < ws.drop_last()[k].len() ==> p(
                #[trigger] ws.drop_last()[k][j],
            ));
        lemma_join_sep_preserve(ws.drop_last(), sep, p);
        assert(forall|j: int| 0 <= j < ws.last().len() ==> p(#[trigger] ws.last()[j]));
        let a = join_sep(ws.drop_last(), sep);
        let joined = join_sep(ws, sep);
        assert forall|i: int| 0 <= i < joined.len() implies p(#[trigger] joined[i]) by {
            if i < a.len() {
                assert(joined[i] == a[i]);
            } else if i == a.len() {
                assert(joined[i] == sep);
            } else {
                assert(joined[i] == ws.last()[i - a.len() - 1]);
            }
        }
    }
}

/// Every character of a condensed line is a single space or a word
/// character, so the class of non-whitespace-or-space characters is kept.
pub proof fn lemma_condense_preserve(s: Seq<char>, p: spec_fn(char) -> bool)
    requires
        p(' '),
        forall|i: int| 0 <= i < s.len() ==> p(#[trigger] s[i]),
    ensures
        forall|i: int| 0 <= i < condense(s).len() ==> p(#[trigger] condense(s)[i]),
{
    lemma_words_of_preserve(s, p);
    lemma_join_sep_preserve(words_of(s), ' ', p);
}

/// A condensed line never contains a line break: every one of its
/// characters is a single space or a word character.
pub proof fn lemma_condense_no_line_break(s: Seq<char>)
    ensures
        forall|i: int|
            0 <= i < condense(s).len() ==> !crate::chars::is_line_break(#[trigger] condense(s)[i]),
{
    let p = |c: char| c == ' ' || !is_space(c);
    lemma_words_of_wf(s);
    lemma_join_sep_preserve(words_of(s), ' ', p);
    assert forall|i: int|
        0 <= i < condense(s).len() implies !crate::chars::is_line_break(
        #[trigger] condense(s)[i],
    ) by {
        assert(p(condense(s)[i]));
    }
}

/// The condensed form is empty exactly when the block has no words.
pub proof fn lemma_condense_empty_iff(s: Seq<char>)
    ensures
        condense(s).len() == 0 <==> words_of(s).len() == 0,
{
    lemma_words_of_wf(s);
    if words_of(s).len() == 1 {
        assert(condense(s) == words_of(s)[0]);
    }
}

/// Collapses every maximal run of whitespace within a single line into one
/// space, dropping leading and trailing whitespace: the line's words,
/// joined by single spaces.
pub fn condense_block_no_newline(input_block: &str) -> (r: String)
    ensures
        r@ == condense(input_block@),
{
    let len = input_block.unicode_len();
    let mut r = String::new();
    let mut first: bool = true;
    let mut i: usize = 0;
    proof {
        assert(input_block@.take(0) =~= Seq::<char>::empty());
    }
    while i < len
        invariant
            len == input_block@.len(),
            0 <= i <= len,
            r@ == join_sep(words_of(input_block@.take(i as int)), ' '),
            first <==> words_of(input_block@.take(i as int)).len() == 0,
            i < len && !is_space(input_block@[i as int]) ==> (i == 0 || is_space(
                input_block@[i as int - 1],
            )),
        decreases len - i,
    {
        let s = input_block;
        let c = s.get_char(i);
        if space_char(c) {
            proof {
                assert(s@.take(i as int + 1).drop_last() =~= s@.take(i as int));
                assert(words_of(s@.take(i as int + 1)) == words_of(s@.take(i as int)));
            }
            i = i + 1;
        } else {
            let ghost w0 = words_of(s@.take(i as int));
            let mut j: usize = i + 1;
            proof {
                let t = s@.take(i as int + 1);
                assert(t.drop_last() =~= s@.take(i as int));
                assert(seq![t.last()] =~= s@.subrange(i as int, i as int + 1));
                assert(words_of(t) == w0.push(s@.subrange(i as int, i as int + 1)));
            }
            while j < len && !space_char(s.get_char(j))
                invariant
                    len == s@.len(),
                    0 <= i < j <= len,
                    i == 0 || is_space(s@[i as int - 1]),
                    forall|m: int| i <= m < j ==> !is_space(#[trigger] s@[m]),
                    words_of(s@.take(j as int)) == w0.push(s@.subrange(i as int, j as int)),
                decreases len - j,
            {
                proof {
                    let t = s@.take(j as int + 1);
                    assert(t.drop_last() =~= s@.take(j as int));
                    assert(!is_space(t[t.len() - 2]));
                    let prev = w0.push(s@.subrange(i as int, j as int));
                    assert(words_of(t) == prev.update(
                        prev.len() - 1,
                        prev.last().push(s@[j as int]),
                    ));
                    assert(prev.update(prev.len() - 1, prev.last().push(s@[j as int])) =~= w0.push(
                        s@.subrange(i as int, j as int + 1),
                    )) by {
                        assert(s@.subrange(i as int, j as int).push(s@[j as int]) =~= s@.subrange(
                            i as int,
                            j as int + 1,
                        ));
                    }
                }
                j = j + 1;
            }
            let w = s.substring_char(i, j);
            proof {
                lemma_join_sep_push(w0, w@, ' ');
                reveal_strlit(" ");
                assert(" "@ =~= seq![' ']);
            }
            if first {
                r.append(w);
                first = false;
            } else {
                r.append(" ");
                r.append(w);
            }
            proof {
                assert(r@ == join_sep(words_of(s@.take(j as int)), ' '));
            }
            i = j;
        }
    }
    proof {
        assert(input_block@.take(len as int) =~= input_block@);
    }
    r
}

} // verus!
