use absttext::condense::condense_block_no_newline;
use absttext::lines::{condense_block, get_condensed_lines};

#[test]
fn test_condense_block_no_newline_collapses_runs() {
    assert_eq!(condense_block_no_newline("  spaced \t out  words  "), "spaced out words");
    assert_eq!(condense_block_no_newline(""), "");
    assert_eq!(condense_block_no_newline(" \t "), "");
    assert_eq!(condense_block_no_newline("solo"), "solo");
}

#[test]
fn test_condense_block_no_newline_merges_lines() {
    assert_eq!(condense_block_no_newline("one\ntwo\n\nthree"), "one two three");
}

#[test]
fn test_condense_block_no_newline_unicode_whitespace() {
    assert_eq!(condense_block_no_newline("a\u{a0}b\u{2003}c"), "a b c");
}

#[test]
fn test_condense_block_preserves_lines() {
    assert_eq!(condense_block("  a   b \n c\t d "), "a b\nc d");
    assert_eq!(condense_block("one line"), "one line");
    assert_eq!(condense_block(""), "");
}

#[test]
fn test_condense_block_idempotent_samples() {
    for input in ["  a   b \n c\t d ", "", "words only", "x\n\ny\nz", "\ttabs\t", "a\n\n", "a\n"] {
        let once = condense_block(input);
        assert_eq!(condense_block(&once), once);
    }
}

#[test]
fn test_condense_block_keeps_trailing_lines() {
    // A trailing line break opens a final empty line, which condensing
    // keeps: line count is preserved exactly.
    assert_eq!(condense_block("a\n\n"), "a\n\n");
    assert_eq!(condense_block("a\n"), "a\n");
    assert_eq!(condense_block("\n"), "\n");
}

#[test]
fn test_get_condensed_lines_per_line() {
    let lines = get_condensed_lines(" first  line \n second\tline \n\n");
    assert_eq!(
        lines,
        vec!["first line".to_string(), "second line".to_string(), "".to_string(), "".to_string()]
    );
}

#[test]
fn test_get_condensed_lines_empty_input() {
    assert_eq!(get_condensed_lines(""), Vec::<String>::new());
    assert_eq!(get_condensed_lines("\n"), vec!["".to_string(), "".to_string()]);
}
