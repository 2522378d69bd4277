use absttext::markdown::MarkdownGenerator;
use absttext::parser::{build_essay, build_paragraph, parse_into_essay, BuildError};
use absttext::types::{Essay, Paragraph, Sentence, SentenceTerminator, Word};
use absttext::MarkupGenerator;

fn sentence_words(sentence: &mut Sentence) -> Vec<String> {
    let mut words: Vec<String> = vec![];
    while let Some(word) = sentence.consume_first_word() {
        words.push(word.get_data());
    }
    words
}

#[test]
fn test_sentence_new_splits_words() {
    let mut sentence = Sentence::new("Hello   world.".to_string()).unwrap();
    assert_eq!(sentence_words(&mut sentence), vec!["Hello", "world"]);
    assert_eq!(sentence.consume_first_word().map(|w| w.get_data()), None);
}

#[test]
fn test_sentence_new_rejects_two_sentences() {
    assert!(Sentence::new("one. two.".to_string()).is_none());
    assert!(Sentence::new(".".to_string()).is_none());
    assert!(Sentence::new("".to_string()).is_none());
}

#[test]
fn test_sentence_round_trip() {
    let mut sentence = Sentence::new("  lots \t of   space.".to_string()).unwrap();
    assert_eq!(sentence_words(&mut sentence).join(" "), "lots of space");
}

#[test]
fn test_sentence_clone_keeps_words() {
    let original = Sentence::new("same words here".to_string()).unwrap();
    let mut copy = original.clone();
    assert_eq!(sentence_words(&mut copy), vec!["same", "words", "here"]);
}

#[test]
fn test_paragraph_two_sentences() {
    let mut paragraph = Paragraph::new("Hello there. I am a paragraph.".to_string()).unwrap();
    let mut first = paragraph.consume_first_sentence().unwrap();
    let mut second = paragraph.consume_first_sentence().unwrap();
    assert!(paragraph.consume_first_sentence().is_none());
    assert_eq!(sentence_words(&mut first), vec!["Hello", "there"]);
    assert_eq!(sentence_words(&mut second), vec!["I", "am", "a", "paragraph"]);
}

#[test]
fn test_paragraph_from_terminator_only_fails() {
    // "." matches as a whole paragraph but carves into no sentence, and a
    // paragraph is never empty: the build fails.
    assert!(Paragraph::new(".".to_string()).is_none());
}

#[test]
fn test_paragraph_rejects_multiline() {
    assert!(Paragraph::new("one line\nanother line.".to_string()).is_none());
}

#[test]
fn test_build_paragraph_not_a_paragraph() {
    assert!(matches!(build_paragraph("a\nb"), Err(BuildError::NotAParagraph)));
    assert!(matches!(build_paragraph(""), Err(BuildError::NotAParagraph)));
}

#[test]
fn test_build_paragraph_malformed() {
    assert!(matches!(build_paragraph(". ."), Err(BuildError::MalformedParagraph)));
    assert!(matches!(build_paragraph("."), Err(BuildError::MalformedParagraph)));
    assert!(matches!(build_paragraph("?!"), Err(BuildError::MalformedParagraph)));
}

#[test]
fn test_build_paragraph_counts_sentences() {
    let paragraph = build_paragraph("One! Two? Three.").unwrap();
    let mut count = 0;
    let mut rest = paragraph;
    while rest.consume_first_sentence().is_some() {
        count += 1;
    }
    assert_eq!(count, 3);
}

#[test]
fn test_build_essay_single_paragraph() {
    let essay = build_essay("Hello there. I am a paragraph.").unwrap();
    let output = MarkdownGenerator::generate(essay);
    assert_eq!(output, "Hello there");
}

#[test]
fn test_build_essay_errors() {
    assert!(matches!(build_essay("a\nb"), Err(BuildError::NotAParagraph)));
    assert!(matches!(build_essay(". !"), Err(BuildError::MalformedParagraph)));
}

#[test]
fn test_parse_into_essay_round() {
    let mut essay = parse_into_essay("Tiny essay.".to_string()).unwrap();
    let mut paragraph = essay.paragraphs.pop_front().unwrap();
    let mut sentence = paragraph.consume_first_sentence().unwrap();
    assert_eq!(sentence_words(&mut sentence), vec!["Tiny", "essay"]);
}

#[test]
fn test_parse_into_essay_rejects_multiline() {
    assert!(parse_into_essay("not\na paragraph".to_string()).is_none());
}

#[test]
fn test_essay_from_paragraph_string() {
    let essay = Essay::from_paragraph_string("Hello there. I am a paragraph.".to_string()).unwrap();
    assert_eq!(essay.paragraphs.len(), 1);
}

#[test]
fn test_sentence_terminator_new() {
    assert!(SentenceTerminator::new('.').is_some());
    assert!(SentenceTerminator::new('!').is_some());
    assert!(SentenceTerminator::new('?').is_some());
    assert!(SentenceTerminator::new('a').is_none());
    assert!(SentenceTerminator::new(' ').is_none());
}

#[test]
fn test_word_get_data() {
    let word = Word { data: "token".to_string(), emphasized: false };
    assert_eq!(word.get_data(), "token");
    assert_eq!(word.clone().get_data(), "token");
}

#[test]
fn test_generate_sentence_joins_words() {
    let sentence = Sentence::new("a  few   words".to_string()).unwrap();
    assert_eq!(MarkdownGenerator::generate_sentence(sentence), "a few words");
}

#[test]
fn test_generate_paragraph_is_stub() {
    let paragraph = Paragraph::new("Still a stub.".to_string()).unwrap();
    assert_eq!(MarkdownGenerator::generate_paragraph(paragraph), "");
}
