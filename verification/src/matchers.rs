//! The span matchers: first-sentence, whole-sentence, whole-paragraph and
//! first-header matching over a block of text.

use vstd::prelude::*;

use crate::chars::{is_line_break, is_terminator, line_break_char, terminator_char};
use crate::condense::{condense, condense_block_no_newline, lemma_condense_empty_iff, words_of};
use crate::lines::{
    condense_block, condense_block_spec, condensed_lines, find_line_break_from,
    get_condensed_lines, lemma_find_line_break_from_is, lines_of,
};

verus! {

/// The matched text carried by an optional result.
pub open spec fn text_of(r: Option<String>) -> Option<Seq<char>> {
    match r {
        Option::Some(v) => Option::Some(v@),
        Option::None => Option::None,
    }
}

/// The position of the first sentence terminator at or after `i`, or the
/// block's length if there is none.
pub open spec fn find_terminator_from(s: Seq<char>, i: int) -> int
    decreases s.len() - i,
{
    if i < 0 || i >= s.len() {
        s.len() as int
    } else if is_terminator(s[i]) {
        i
    } else {
        find_terminator_from(s, i + 1)
    }
}

/// Where the first terminator from `i` lies: nowhere earlier, and a
/// terminator if within the block.
pub proof fn lemma_find_terminator_from(s: Seq<char>, i: int)
    requires
        0 <= i <= s.len(),
    ensures
        i <= find_terminator_from(s, i) <= s.len(),
        forall|j: int| i <= j < find_terminator_from(s, i) ==> !is_terminator(#[trigger] s[j]),
        find_terminator_from(s, i) < s.len() ==> is_terminator(s[find_terminator_from(s, i)]),
    decreases s.len() - i,
{
    if i < s.len() && !is_terminator(s[i]) {
        lemma_find_terminator_from(s, i + 1);
    }
}

/// A position preceded from `i` only by non-terminators and holding a
/// terminator or the end is exactly the first terminator position.
pub proof fn lemma_find_terminator_from_is(s: Seq<char>, i: int, k: int)
    requires
        0 <= i <= k <= s.len(),
        forall|j: int| i <= j < k ==> !is_terminator(#[trigger] s[j]),
        k == s.len() || is_terminator(s[k]),
    ensures
        find_terminator_from(s, i) == k,
    decreases s.len() - i,
{
    if i < k {
        lemma_find_terminator_from_is(s, i + 1, k);
    }
}

/// The position of the first non-terminator at or after `i`, or the
/// block's length if there is none.
pub open spec fn find_non_terminator_from(s: Seq<char>, i: int) -> int
    decreases s.len() - i,
{
    if i < 0 || i >= s.len() {
        s.len() as int
    } else if !is_terminator(s[i]) {
        i
    } else {
        find_non_terminator_from(s, i + 1)
    }
}

/// A position preceded from `i` only by terminators and holding a
/// non-terminator or the end is exactly the first non-terminator position.
pub proof fn lemma_find_non_terminator_from_is(s: Seq<char>, i: int, k: int)
    requires
        0 <= i <= k <= s.len(),
        forall|j: int| i <= j < k ==> is_terminator(#[trigger] s[j]),
        k == s.len() || !is_terminator(s[k]),
    ensures
        find_non_terminator_from(s, i) == k,
    decreases s.len() - i,
{
    if i < k {
        lemma_find_non_terminator_from_is(s, i + 1, k);
    }
}

/// The position of the last non-terminator at or before `i`, or `-1` if
/// there is none.
pub open spec fn rfind_non_terminator(s: Seq<char>, i: int) -> int
    decreases i + 1,
{
    if i < 0 {
        -1
    } else if !is_terminator(s[i]) {
        i
    } else {
        rfind_non_terminator(s, i - 1)
    }
}

/// A position followed up to `i` only by terminators and holding a
/// non-terminator, or `-1` below only terminators, is exactly the last
/// non-terminator position.
pub proof fn lemma_rfind_non_terminator_is(s: Seq<char>, i: int, k: int)
    requires
        -1 <= k <= i < s.len(),
        forall|j: int| k < j <= i ==> is_terminator(#[trigger] s[j]),
        k == -1 || !is_terminator(s[k]),
    ensures
        rfind_non_terminator(s, i) == k,
    decreases i + 1,
{
    if k < i {
        lemma_rfind_non_terminator_is(s, i - 1, k);
    }
}

/// The block with every leading and trailing sentence terminator removed.
pub open spec fn strip_terminators(s: Seq<char>) -> Seq<char> {
    let a = find_non_terminator_from(s, 0);
    if a == s.len() {
        Seq::empty()
    } else {
        s.subrange(a, rfind_non_terminator(s, s.len() - 1) + 1)
    }
}

/// The first sentence of a block: the content of its first line up to but
/// not including the first terminator, condensed; no match when that
/// candidate has no words.
pub open spec fn first_sentence_spec(s: Seq<char>) -> Option<Seq<char>> {
    if s.len() == 0 {
        Option::None
    } else {
        let line = s.take(find_line_break_from(s, 0));
        let cand = line.take(find_terminator_from(line, 0));
        if words_of(cand).len() == 0 {
            Option::None
        } else {
            Option::Some(condense(cand))
        }
    }
}

/// A whole sentence: the block, stripped of outer terminators and
/// condensed, must reduce to exactly its own first sentence.
pub open spec fn sentence_spec(s: Seq<char>) -> Option<Seq<char>> {
    match first_sentence_spec(s) {
        Option::None => Option::None,
        Option::Some(b) => if condense(strip_terminators(s)) == b {
            Option::Some(b)
        } else {
            Option::None
        },
    }
}

/// A whole paragraph: the block must condense to exactly one line.
pub open spec fn paragraph_spec(s: Seq<char>) -> Option<Seq<char>> {
    if lines_of(s).len() == 1 {
        Option::Some(condensed_lines(s)[0])
    } else {
        Option::None
    }
}

/// Whether a blank-line separator (two consecutive line breaks) starts at
/// position `j`.
pub open spec fn double_break_at(s: Seq<char>, j: int) -> bool {
    is_line_break(s[j]) && j + 1 < s.len() && is_line_break(s[j + 1])
}

/// The position of the first blank-line separator at or after `i`, or the
/// block's length if there is none.
pub open spec fn find_double_break_from(s: Seq<char>, i: int) -> int
    decreases s.len() - i,
{
    if i < 0 || i >= s.len() {
        s.len() as int
    } else if double_break_at(s, i) {
        i
    } else {
        find_double_break_from(s, i + 1)
    }
}

/// Where the first blank-line separator from `i` lies.
pub proof fn lemma_find_double_break_from(s: Seq<char>, i: int)
    requires
        0 <= i <= s.len(),
    ensures
        i <= find_double_break_from(s, i) <= s.len(),
        find_double_break_from(s, i) < s.len() ==> double_break_at(s, find_double_break_from(s, i)),
    decreases s.len() - i,
{
    if i < s.len() && !double_break_at(s, i) {
        lemma_find_double_break_from(s, i + 1);
    }
}

/// A position preceded from `i` by no blank-line separator and holding
/// one, or the end, is exactly the first separator position.
pub proof fn lemma_find_double_break_from_is(s: Seq<char>, i: int, k: int)
    requires
        0 <= i <= k <= s.len(),
        forall|j: int| i <= j < k ==> !double_break_at(s, j),
        k == s.len() || double_break_at(s, k),
    ensures
        find_double_break_from(s, i) == k,
    decreases s.len() - i,
{
    if i < k {
        lemma_find_double_break_from_is(s, i + 1, k);
    }
}

/// The segments of a block: the spans between blank-line separators.
pub open spec fn segments_of(s: Seq<char>) -> Seq<Seq<char>>
    decreases s.len(),
    via segments_of_decreases
{
    let j = find_double_break_from(s, 0);
    if j == s.len() {
        seq![s]
    } else {
        seq![s.take(j)] + segments_of(s.skip(j + 2))
    }
}

#[via_fn]
proof fn segments_of_decreases(s: Seq<char>) {
    lemma_find_double_break_from(s, 0);
}

/// The first segment that is a whole sentence, in order.
pub open spec fn first_segment_sentence(segs: Seq<Seq<char>>) -> Option<Seq<char>>
    decreases segs.len(),
{
    if segs.len() == 0 {
        Option::None
    } else if sentence_spec(segs[0]) is Some {
        sentence_spec(segs[0])
    } else {
        first_segment_sentence(segs.skip(1))
    }
}

/// The first header of a block: condense the block, split it on blank
/// lines, and take the first segment that reduces to a whole sentence.
pub open spec fn first_header_spec(s: Seq<char>) -> Option<Seq<char>> {
    first_segment_sentence(segments_of(condense_block_spec(s)))
}

/// A matched first sentence is non-empty, already condensed, and free of
/// terminators.
pub proof fn lemma_first_sentence_value(s: Seq<char>)
    requires
        first_sentence_spec(s) is Some,
    ensures
        first_sentence_spec(s)->Some_0.len() > 0,
        condense(first_sentence_spec(s)->Some_0) == first_sentence_spec(s)->Some_0,
        forall|i: int|
            0 <= i < first_sentence_spec(s)->Some_0.len() ==> !is_terminator(
                #[trigger] first_sentence_spec(s)->Some_0[i],
            ),
{
    let line = s.take(find_line_break_from(s, 0));
    let cand = line.take(find_terminator_from(line, 0));
    let b = first_sentence_spec(s)->Some_0;
    crate::lines::lemma_find_line_break_from(s, 0);
    lemma_find_terminator_from(line, 0);
    assert(forall|j: int| 0 <= j < cand.len() ==> !is_terminator(#[trigger] cand[j]));
    crate::condense::lemma_condense_idempotent(cand);
    crate::condense::lemma_condense_empty_iff(cand);
    crate::condense::lemma_condense_preserve(cand, |c: char| !is_terminator(c));
    assert forall|i: int| 0 <= i < b.len() implies !is_terminator(#[trigger] b[i]) by {
        assert((|c: char| !is_terminator(c))(b[i]));
    }
}

/// A non-empty, condensed, terminator-free span is a whole sentence, and
/// matches as itself.
pub proof fn lemma_sentence_spec_fixpoint(b: Seq<char>)
    requires
        b.len() > 0,
        condense(b) == b,
        forall|i: int| 0 <= i < b.len() ==> !is_terminator(#[trigger] b[i]),
    ensures
        sentence_spec(b) == Option::Some(b),
        first_sentence_spec(b) == Option::Some(b),
{
    crate::condense::lemma_condense_no_line_break(b);
    assert(forall|i: int| 0 <= i < b.len() ==> !is_line_break(#[trigger] b[i]));
    lemma_find_line_break_from_is(b, 0, b.len() as int);
    assert(b.take(b.len() as int) =~= b);
    lemma_find_terminator_from_is(b, 0, b.len() as int);
    crate::condense::lemma_condense_empty_iff(b);
    lemma_find_non_terminator_from_is(b, 0, 0);
    lemma_rfind_non_terminator_is(b, b.len() - 1, b.len() - 1);
    assert(b.subrange(0, b.len() as int) =~= b);
    assert(strip_terminators(b) == b);
}

/// Returns the character exactly when it is a sentence terminator.
pub fn match_sentence_terminator(input_char: &char) -> (r: Option<char>)
    ensures
        r == if is_terminator(*input_char) {
            Option::Some(*input_char)
        } else {
            Option::<char>::None
        },
{
    if terminator_char(*input_char) {
        Some(*input_char)
    } else {
        None
    }
}

/// A single-character span that is a sentence terminator.
pub open spec fn terminator_str_spec(s: Seq<char>) -> Option<Seq<char>> {
    if s.len() == 1 && is_terminator(s[0]) {
        Option::Some(s)
    } else {
        Option::None
    }
}

/// Returns the span itself exactly when it is one single terminator
/// character.
pub fn match_sentence_terminator_str(input_block: &str) -> (r: Option<String>)
    ensures
        text_of(r) == terminator_str_spec(input_block@),
{
    if input_block.unicode_len() != 1 {
        return None;
    }
    let c = input_block.get_char(0);
    match match_sentence_terminator(&c) {
        Some(_) => Some(String::from_str(input_block)),
        None => None,
    }
}

/// Matches the first sentence of the block: the first line's content up to
/// the first terminator, condensed. The terminator itself is never part of
/// the result, and all three terminators are treated alike here: `!` and
/// `?` are cut off just as `.` is. That is a deliberate choice — the
/// alternative of keeping the harder marks in the matched text cannot be
/// reconciled with whole-sentence matching, which compares this result
/// against the terminator-stripped input.
pub fn match_first_sentence(input_block: &str) -> (r: Option<String>)
    ensures
        text_of(r) == first_sentence_spec(input_block@),
{
    let s = input_block;
    let len = s.unicode_len();
    if len == 0 {
        return None;
    }
    let mut j: usize = 0;
    while j < len && !line_break_char(s.get_char(j))
        invariant
            len == s@.len(),
            0 <= j <= len,
            forall|m: int| 0 <= m < j ==> !is_line_break(#[trigger] s@[m]),
        decreases len - j,
    {
        j = j + 1;
    }
    proof {
        lemma_find_line_break_from_is(s@, 0, j as int);
    }
    let ghost line = s@.take(j as int);
    let mut k: usize = 0;
    while k < j && !terminator_char(s.get_char(k))
        invariant
            len == s@.len(),
            0 <= k <= j <= len,
            forall|m: int| 0 <= m < k ==> !is_terminator(#[trigger] s@[m]),
        decreases j - k,
    {
        k = k + 1;
    }
    proof {
        assert(forall|m: int| 0 <= m < k ==> line[m] == s@[m] && !is_terminator(#[trigger] line[m]));
        lemma_find_terminator_from_is(line, 0, k as int);
        assert(line.take(k as int) =~= s@.subrange(0, k as int));
    }
    let cand = s.substring_char(0, k);
    let cond = condense_block_no_newline(cand);
    proof {
        lemma_condense_empty_iff(cand@);
    }
    if cond.as_str().is_empty() {
        None
    } else {
        Some(cond)
    }
}

/// Matches the block as one whole sentence: stripped of outer terminators
/// and condensed, it must equal its own first sentence.
pub fn match_sentence(input_block: &str) -> (r: Option<String>)
    ensures
        text_of(r) == sentence_spec(input_block@),
{
    let b = match match_first_sentence(input_block) {
        None => {
            return None;
        },
        Some(b) => b,
    };
    let s = input_block;
    let len = s.unicode_len();
    let mut a: usize = 0;
    while a < len && terminator_char(s.get_char(a))
        invariant
            len == s@.len(),
            0 <= a <= len,
            forall|m: int| 0 <= m < a ==> is_terminator(#[trigger] s@[m]),
        decreases len - a,
    {
        a = a + 1;
    }
    proof {
        lemma_find_non_terminator_from_is(s@, 0, a as int);
    }
    if a == len {
        proof {
            assert(strip_terminators(s@) =~= Seq::<char>::empty());
            assert(condense(strip_terminators(s@)).len() == 0);
            assert(first_sentence_spec(s@) == Option::Some(b@));
            assert(b@.len() > 0) by {
                let line = s@.take(find_line_break_from(s@, 0));
                let cand = line.take(find_terminator_from(line, 0));
                lemma_condense_empty_iff(cand);
            }
        }
        return None;
    }
    let mut bnd: usize = len;
    while bnd > a + 1 && terminator_char(s.get_char(bnd - 1))
        invariant
            len == s@.len(),
            0 <= a < bnd <= len,
            !is_terminator(s@[a as int]),
            forall|m: int| bnd <= m < len ==> is_terminator(#[trigger] s@[m]),
        decreases bnd,
    {
        bnd = bnd - 1;
    }
    proof {
        if bnd == a + 1 {
            lemma_rfind_non_terminator_is(s@, len as int - 1, a as int);
        } else {
            lemma_rfind_non_terminator_is(s@, len as int - 1, bnd as int - 1);
        }
    }
    let stripped = s.substring_char(a, bnd);
    let acond = condense_block_no_newline(stripped);
    if acond == b {
        Some(b)
    } else {
        None
    }
}

/// Matches the block as one whole paragraph: it must condense to exactly
/// one line, which is returned.
pub fn match_paragraph(input_block: &str) -> (r: Option<String>)
    ensures
        text_of(r) == paragraph_spec(input_block@),
{
    let lines = get_condensed_lines(input_block);
    if lines.len() == 1 {
        Some(lines[0].clone())
    } else {
        None
    }
}

/// Whether a blank-line separator starts at position `k`.
fn double_break_check(s: &str, k: usize, len: usize) -> (r: bool)
    requires
        len == s@.len(),
        k < len,
    ensures
        r == double_break_at(s@, k as int),
{
    if line_break_char(s.get_char(k)) {
        if k + 1 < len {
            line_break_char(s.get_char(k + 1))
        } else {
            false
        }
    } else {
        false
    }
}

/// Matches the first header: the condensed block is split on blank lines,
/// and the first segment that is a whole sentence is returned.
pub fn match_first_header(input_block: &str) -> (r: Option<String>)
    ensures
        text_of(r) == first_header_spec(input_block@),
{
    let cb = condense_block(input_block);
    let cbs = cb.as_str();
    let len = cbs.unicode_len();
    let ghost full = cbs@;
    let mut i: usize = 0;
    proof {
        assert(full.skip(0) =~= full);
    }
    loop
        invariant
            cbs@ == full,
            full == condense_block_spec(input_block@),
            full.len() == len,
            0 <= i <= len,
            first_segment_sentence(segments_of(full)) == first_segment_sentence(
                segments_of(full.skip(i as int)),
            ),
        decreases len - i,
    {
        let ghost t = full.skip(i as int);
        let mut k: usize = i;
        while k < len && !double_break_check(cbs, k, len)
            invariant
                cbs@ == full,
                full.len() == len,
                0 <= i <= k <= len,
                forall|m: int| i <= m < k ==> !double_break_at(full, m),
            decreases len - k,
        {
            k = k + 1;
        }
        proof {
            assert(forall|m: int| 0 <= m < t.len() ==> t[m] == full[i + m]);
            assert forall|m: int| 0 <= m < k - i implies !double_break_at(t, m) by {
                assert(!double_break_at(full, i + m));
                assert(t[m] == full[i + m]);
                if m + 1 < t.len() {
                    assert(t[m + 1] == full[i + m + 1]);
                }
            }
            if k < len {
                assert(double_break_at(full, k as int));
                assert(double_break_at(t, k as int - i as int));
            }
            lemma_find_double_break_from_is(t, 0, k as int - i as int);
            assert(t.take(k as int - i as int) =~= full.subrange(i as int, k as int));
        }
        let seg = cbs.substring_char(i, k);
        let m = match_sentence(seg);
        if k == len {
            proof {
                assert(segments_of(t) =~= seq![t]);
                assert(t =~= full.subrange(i as int, k as int));
                assert(segments_of(t)[0] == seg@);
                assert(seq![t].skip(1) =~= Seq::<Seq<char>>::empty());
                assert(first_segment_sentence(Seq::<Seq<char>>::empty()) is None);
                assert(first_segment_sentence(segments_of(t)) == sentence_spec(t));
                assert(sentence_spec(t) == sentence_spec(seg@));
            }
            return m;
        }
        match m {
            Some(v) => {
                proof {
                    assert(segments_of(t)[0] == seg@);
                }
                return Some(v);
            },
            None => {
                proof {
                    let rest = segments_of(t.skip(k as int - i as int + 2));
                    assert(segments_of(t) =~= seq![t.take(k as int - i as int)] + rest);
                    assert(segments_of(t)[0] == seg@);
                    assert(segments_of(t).skip(1) =~= rest);
                    assert(t.skip(k as int - i as int + 2) =~= full.skip(k as int + 2));
                }
                i = k + 2;
            },
        }
    }
}

} // verus!
