use absttext::matchers::{
    match_first_header, match_first_sentence, match_paragraph, match_sentence,
    match_sentence_terminator, match_sentence_terminator_str,
};

#[test]
fn test_match_first_sentence_qin_2sentences() {
    assert_eq!(
        match_first_sentence("I am the first sentence. I am the second sentence."),
        Some("I am the first sentence".to_string())
    )
}

#[test]
fn test_match_first_sentence_qin_period_sentence() {
    assert_eq!(
        match_first_sentence("I am a simple sentence with a period."),
        Some("I am a simple sentence with a period".to_string())
    )
}

#[test]
fn test_match_first_sentence_qin_noperiod_sentence() {
    assert_eq!(
        match_first_sentence("I am a simple sentence without a period"),
        Some("I am a simple sentence without a period".to_string())
    )
}

#[test]
fn test_match_first_sentence_qin_no_sentence() {
    assert_eq!(match_first_sentence(".Where's the sentence this time?"), None)
}

#[test]
fn test_match_first_sentence_qin_periodonly() {
    assert_eq!(match_first_sentence("."), None)
}

#[test]
fn test_match_first_sentence_qin_empty() {
    assert_eq!(match_first_sentence(""), None)
}

#[test]
fn test_match_sentence_qin_period_sentence() {
    assert_eq!(
        match_sentence("I am a simple sentence."),
        Some("I am a simple sentence".to_string())
    )
}

#[test]
fn test_match_sentence_qin_noperiod_sentence() {
    assert_eq!(
        match_sentence("I am a simple sentence"),
        Some("I am a simple sentence".to_string())
    )
}

#[test]
fn test_match_sentence_qin_not_sentence() {
    assert_eq!(match_sentence("I am a simple sentence. I am another sentence."), None)
}

#[test]
fn test_match_sentence_qin_no_sentence() {
    assert_eq!(match_sentence(". Who is sentence?"), None)
}

#[test]
fn test_match_sentence_qin_periodonly() {
    assert_eq!(match_sentence("."), None)
}

#[test]
fn test_match_sentence_qin_empty() {
    assert_eq!(match_sentence(""), None)
}

#[test]
fn test_match_first_header_qin_sentence() {
    assert_eq!(match_first_header("I am a header."), Some("I am a header".to_string()))
}

#[test]
fn test_match_first_header_qin_multilines() {
    assert_eq!(
        match_first_header("Hello there. What is your favorite kind of forest? \n\n Haha, maybe that's a weird question. \n\n What else would you like to see?"),
        Some("Haha, maybe that's a weird question".to_string())
    )
}

#[test]
fn test_match_first_header_qin_multilines_nonperiod_separator() {
    assert_eq!(
        match_first_header("Hello there! What is your favorite kind of forest? \n\n Haha, maybe that's a weird question. \n\n What else would you like to see?"),
        Some("Haha, maybe that's a weird question".to_string())
    )
}

#[test]
fn test_match_paragraph_qin_period_separator() {
    assert_eq!(
        match_paragraph("Hello there. I am a paragraph."),
        Some("Hello there. I am a paragraph.".to_string())
    )
}

#[test]
fn test_match_paragraph_qin_empty() {
    assert_eq!(match_paragraph(""), None)
}

#[test]
fn test_match_paragraph_qin_periodonly() {
    assert_eq!(match_paragraph("."), Some(".".to_string()))
}

#[test]
fn test_match_paragraph_qin_sentence() {
    assert_eq!(match_paragraph("I am a sentence."), Some("I am a sentence.".to_string()))
}

#[test]
fn test_match_paragraph_qin_noperiod_sentence() {
    assert_eq!(match_paragraph("I am a sentence"), Some("I am a sentence".to_string()))
}

#[test]
fn test_match_first_sentence_exclamation_separator() {
    assert_eq!(
        match_first_sentence("I am the first sentence! Am I the second sentence?"),
        Some("I am the first sentence".to_string())
    )
}

#[test]
fn test_match_first_sentence_question_mark() {
    assert_eq!(match_first_sentence("one? two."), Some("one".to_string()))
}

#[test]
fn test_match_first_sentence_takes_first_line_only() {
    assert_eq!(match_first_sentence("first line\nsecond line."), Some("first line".to_string()))
}

#[test]
fn test_match_first_sentence_condenses_whitespace() {
    assert_eq!(match_first_sentence("  spaced \t out  words  "), Some("spaced out words".to_string()))
}

#[test]
fn test_match_sentence_condenses_and_strips() {
    assert_eq!(match_sentence("  hello   world.  "), None);
    assert_eq!(match_sentence("hello   world."), Some("hello world".to_string()));
}

#[test]
fn test_match_sentence_strips_trailing_terminator_run() {
    assert_eq!(match_sentence("are you sure?!?"), Some("are you sure".to_string()))
}

#[test]
fn test_match_sentence_two_questions() {
    assert_eq!(match_sentence("I am an individual sentence, or am I? I am another sentence."), None)
}

#[test]
fn test_match_paragraph_multiline_is_none() {
    assert_eq!(match_paragraph("one line\nanother line"), None);
    assert_eq!(match_paragraph("\n\n"), None);
}

#[test]
fn test_match_paragraph_any_line_break_is_none() {
    assert_eq!(match_paragraph("just one line\n"), None);
    assert_eq!(match_paragraph("\n"), None);
}

#[test]
fn test_match_paragraph_condenses() {
    assert_eq!(match_paragraph("  a   b  "), Some("a b".to_string()))
}

#[test]
fn test_match_first_header_short_trailing_segment() {
    assert_eq!(
        match_first_header(
            "Hello there. What is your favorite kind of forest? \n\n Haha, maybe that's a weird question. \n\n What else?"
        ),
        Some("Haha, maybe that's a weird question".to_string())
    )
}

#[test]
fn test_match_first_header_no_match() {
    assert_eq!(match_first_header("two sentences. in every segment. \n\n here too. and here."), None)
}

#[test]
fn test_match_first_header_first_segment_wins() {
    assert_eq!(
        match_first_header("Only a header. \n\n Another header."),
        Some("Only a header".to_string())
    )
}

#[test]
fn test_match_sentence_terminator_classifies() {
    assert_eq!(match_sentence_terminator(&'.'), Some('.'));
    assert_eq!(match_sentence_terminator(&'!'), Some('!'));
    assert_eq!(match_sentence_terminator(&'?'), Some('?'));
    assert_eq!(match_sentence_terminator(&','), None);
    assert_eq!(match_sentence_terminator(&'a'), None);
}

#[test]
fn test_match_sentence_terminator_str_single_char_only() {
    assert_eq!(match_sentence_terminator_str("."), Some(".".to_string()));
    assert_eq!(match_sentence_terminator_str("!"), Some("!".to_string()));
    assert_eq!(match_sentence_terminator_str("?"), Some("?".to_string()));
    assert_eq!(match_sentence_terminator_str(".."), None);
    assert_eq!(match_sentence_terminator_str("a"), None);
    assert_eq!(match_sentence_terminator_str(""), None);
}
