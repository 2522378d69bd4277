//! Character classes the whole library is built on: sentence terminators
//! and whitespace.

use vstd::prelude::*;

verus! {

/// A sentence terminator is one of the three fixed punctuation marks
/// that may end a sentence.
pub open spec fn is_terminator(c: char) -> bool {
    c == '.' || c == '!' || c == '?'
}

/// Whitespace, following Unicode's `White_Space` property: the ASCII
/// space and control whitespace, and the dedicated Unicode space and
/// separator characters.
pub open spec fn is_space(c: char) -> bool {
    ||| c == ' '
    ||| ('\u{09}' <= c && c <= '\u{0d}')
    ||| c == '\u{85}'
    ||| c == '\u{a0}'
    ||| c == '\u{1680}'
    ||| ('\u{2000}' <= c && c <= '\u{200a}')
    ||| c == '\u{2028}'
    ||| c == '\u{2029}'
    ||| c == '\u{202f}'
    ||| c == '\u{205f}'
    ||| c == '\u{3000}'
}

/// A line break within a block of text.
pub open spec fn is_line_break(c: char) -> bool {
    c == '\n'
}

/// Runtime check for `is_terminator`.
pub fn terminator_char(c: char) -> (r: bool)
    ensures
        r == is_terminator(c),
{
    c == '.' || c == '!' || c == '?'
}

/// Runtime check for `is_space`.
pub fn space_char(c: char) -> (r: bool)
    ensures
        r == is_space(c),
{
    c == ' ' || ('\u{09}' <= c && c <= '\u{0d}') || c == '\u{85}' || c == '\u{a0}'
        || c == '\u{1680}' || ('\u{2000}' <= c && c <= '\u{200a}') || c == '\u{2028}'
        || c == '\u{2029}' || c == '\u{202f}' || c == '\u{205f}' || c == '\u{3000}'
}

/// Runtime check for `is_line_break`.
pub fn line_break_char(c: char) -> (r: bool)
    ensures
        r == is_line_break(c),
{
    c == '\n'
}

} // verus!
