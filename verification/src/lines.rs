//! Splitting a block into lines and condensing it line by line.

use vstd::prelude::*;

use crate::chars::{is_line_break, line_break_char};
use crate::condense::{condense, condense_block_no_newline, join_sep};

verus! {

/// The position of the first line break at or after `i`, or the block's
/// length if there is none.
pub open spec fn find_line_break_from(s: Seq<char>, i: int) -> int
    decreases s.len() - i,
{
    if i < 0 || i >= s.len() {
        s.len() as int
    } else if is_line_break(s[i]) {
        i
    } else {
        find_line_break_from(s, i + 1)
    }
}

/// Where the first line break from `i` lies: nowhere earlier, and a line
/// break if within the block.
pub proof fn lemma_find_line_break_from(s: Seq<char>, i: int)
    requires
        0 <= i <= s.len(),
    ensures
        i <= find_line_break_from(s, i) <= s.len(),
        forall|j: int| i <= j < find_line_break_from(s, i) ==> !is_line_break(#[trigger] s[j]),
        find_line_break_from(s, i) < s.len() ==> is_line_break(s[find_line_break_from(s, i)]),
    decreases s.len() - i,
{
    if i < s.len() && !is_line_break(s[i]) {
        lemma_find_line_break_from(s, i + 1);
    }
}

/// A position where no line break stands before `k` and `k` is a line
/// break or the end is exactly where the first line break from `i` lies.
pub proof fn lemma_find_line_break_from_is(s: Seq<char>, i: int, k: int)
    requires
        0 <= i <= k <= s.len(),
        forall|j: int| i <= j < k ==> !is_line_break(#[trigger] s[j]),
        k == s.len() || is_line_break(s[k]),
    ensures
        find_line_break_from(s, i) == k,
    decreases s.len() - i,
{
    if i < k {
        lemma_find_line_break_from_is(s, i + 1, k);
    }
}

/// The block split at every line break: each break ends a line and opens
/// the next, so a trailing break opens a final empty line. The empty
/// block is one empty line here; `lines_of` maps it to no lines.
pub open spec fn split_lines(s: Seq<char>) -> Seq<Seq<char>>
    decreases s.len(),
    via split_lines_decreases
{
    let j = find_line_break_from(s, 0);
    if j == s.len() {
        seq![s]
    } else {
        seq![s.take(j)] + split_lines(s.skip(j + 1))
    }
}

#[via_fn]
proof fn split_lines_decreases(s: Seq<char>) {
    lemma_find_line_break_from(s, 0);
}

/// The lines of a block: none for the empty block, otherwise the spans
/// between line breaks, a trailing break opening a final empty line.
pub open spec fn lines_of(s: Seq<char>) -> Seq<Seq<char>> {
    if s.len() == 0 {
        Seq::empty()
    } else {
        split_lines(s)
    }
}

/// Splitting yields at least one line.
pub proof fn lemma_split_lines_len(s: Seq<char>)
    ensures
        split_lines(s).len() >= 1,
{
}

/// A block has lines exactly when it is non-empty.
pub proof fn lemma_lines_of_len(s: Seq<char>)
    ensures
        s.len() == 0 <==> lines_of(s).len() == 0,
{
    if s.len() > 0 {
        lemma_split_lines_len(s);
    }
}

/// Each line of the block, condensed.
pub open spec fn condensed_lines(s: Seq<char>) -> Seq<Seq<char>> {
    lines_of(s).map_values(|l: Seq<char>| condense(l))
}

/// The whole block condensed: every line condensed on its own, the
/// results joined by single line breaks.
pub open spec fn condense_block_spec(s: Seq<char>) -> Seq<char> {
    join_sep(condensed_lines(s), '\n')
}

/// Condenses the block line by line, returning one condensed string per
/// line of the input.
pub fn get_condensed_lines(input_block: &str) -> (r: Vec<String>)
    ensures
        r@.len() == lines_of(input_block@).len(),
        forall|k: int| 0 <= k < r@.len() ==> r@[k]@ == condensed_lines(input_block@)[k],
{
    let s = input_block;
    let len = s.unicode_len();
    let mut r: Vec<String> = Vec::new();
    if len == 0 {
        return r;
    }
    let mut i: usize = 0;
    let mut pending: bool = true;
    proof {
        assert(s@.skip(0) =~= s@);
    }
    while pending
        invariant
            len == s@.len(),
            len > 0,
            0 <= i <= len,
            pending ==> split_lines(s@).len() == r@.len() + split_lines(s@.skip(i as int)).len(),
            pending ==> forall|k: int|
                0 <= k < split_lines(s@.skip(i as int)).len() ==> #[trigger] split_lines(
                    s@.skip(i as int),
                )[k] == split_lines(s@)[r@.len() + k],
            forall|k: int| 0 <= k < r@.len() ==> #[trigger] r@[k]@ == condense(split_lines(s@)[k]),
            !pending ==> r@.len() == split_lines(s@).len(),
        decreases len - i + (if pending {
            1int
        } else {
            0int
        }),
    {
        let ghost t = s@.skip(i as int);
        let mut j: usize = i;
        while j < len && !line_break_char(s.get_char(j))
            invariant
                len == s@.len(),
                0 <= i <= j <= len,
                forall|m: int| i <= m < j ==> !is_line_break(#[trigger] s@[m]),
            decreases len - j,
        {
            j = j + 1;
        }
        proof {
            assert(forall|m: int|
                0 <= m < j - i ==> t[m] == s@[i + m] && !is_line_break(#[trigger] t[m]));
            lemma_find_line_break_from_is(t, 0, j as int - i as int);
            assert(t.take(j as int - i as int) =~= s@.subrange(i as int, j as int));
            lemma_split_lines_len(t);
        }
        let line = s.substring_char(i, j);
        let cline = condense_block_no_newline(line);
        let ghost r_old = r@;
        r.push(cline);
        proof {
            assert(split_lines(t)[0] == split_lines(s@)[r_old.len() as int]);
        }
        if j == len {
            proof {
                assert(split_lines(t) =~= seq![t]);
                assert(t =~= s@.subrange(i as int, j as int));
                assert(cline@ == condense(split_lines(s@)[r_old.len() as int]));
            }
            pending = false;
        } else {
            proof {
                let d = j as int - i as int;
                let rest = split_lines(t.skip(d + 1));
                assert(split_lines(t) =~= seq![t.take(d)] + rest);
                assert(t.take(d) =~= s@.subrange(i as int, j as int));
                assert(cline@ == condense(split_lines(s@)[r_old.len() as int]));
                assert(t.skip(d + 1) =~= s@.skip(j as int + 1));
                assert forall|k: int|
                    0 <= k < rest.len() implies #[trigger] rest[k] == split_lines(s@)[r_old.len()
                    + 1 + k] by {
                    assert(rest[k] == split_lines(t)[k + 1]);
                    assert(split_lines(t)[k + 1] == split_lines(s@)[r_old.len() + (k + 1)]);
                }
            }
            i = j + 1;
        }
    }
    proof {
        assert(forall|k: int|
            0 <= k < r@.len() ==> #[trigger] condensed_lines(s@)[k] == condense(lines_of(s@)[k]));
    }
    r
}

/// Condenses the whole block: line count is preserved, whitespace within
/// each line collapses to single spaces.
pub fn condense_block(input_block: &str) -> (r: String)
    ensures
        r@ == condense_block_spec(input_block@),
{
    let lines = get_condensed_lines(input_block);
    let ghost cl = condensed_lines(input_block@);
    let mut r = String::new();
    let mut k: usize = 0;
    proof {
        assert(cl.take(0) =~= Seq::<Seq<char>>::empty());
    }
    while k < lines.len()
        invariant
            lines@.len() == cl.len(),
            forall|m: int| 0 <= m < lines@.len() ==> #[trigger] lines@[m]@ == cl[m],
            0 <= k <= lines@.len(),
            r@ == join_sep(cl.take(k as int), '\n'),
        decreases lines@.len() - k,
    {
        proof {
            crate::condense::lemma_join_sep_push(cl.take(k as int), cl[k as int], '\n');
            assert(cl.take(k as int).push(cl[k as int]) =~= cl.take(k as int + 1));
            reveal_strlit("\n");
            assert("\n"@ =~= seq!['\n']);
        }
        if k > 0 {
            r.append("\n");
        }
        let line = &lines[k];
        r.append(line.as_str());
        k = k + 1;
    }
    proof {
        assert(cl.take(lines@.len() as int) =~= cl);
    }
    r
}

} // verus!
