use radlibs::input_parser::InputParser;
use radlibs::output_parser::{substitute_words_in, OutputParser};
use radlibs::segmenter::parse_file;
use radlibs::text::TemplateError;
use radlibs::word_bank::WordBank;

fn s(text: &str) -> String {
    text.to_string()
}

fn bank_of(entries: &[(&str, &[&str], bool)]) -> WordBank {
    let mut parser = InputParser::new();
    for (identifier, words, persistent) in entries {
        parser.add_identifier(s(identifier), *persistent);
        for word in words.iter() {
            parser.add_word(s(identifier), s(word), *persistent);
        }
    }
    parser.get_word_map()
}

#[test]
fn output_parser_starts_with_the_given_bank() {
    let parser = OutputParser::new(bank_of(&[("x", &["cat"], false)]));
    assert!(parser.word_map().contains_key(&s("x")));
    assert_eq!(parser.word_map().first_word(&s("x")), Some(s("cat")));
    assert!(!parser.word_map().contains_key(&s("y")));
}

#[test]
fn take_word_of_unknown_identifier_fails() {
    let mut parser = OutputParser::new(WordBank::new());
    assert_eq!(parser.take_word(s("x")), Err(TemplateError::UnknownIdentifier));
}

#[test]
fn take_word_fails_on_an_empty_pool() {
    let mut parser = OutputParser::new(bank_of(&[("x", &[], false), ("@y", &[], true)]));
    assert_eq!(parser.take_word(s("x")), Err(TemplateError::UnknownIdentifier));
    assert_eq!(parser.take_word(s("@y")), Err(TemplateError::UnknownIdentifier));
    assert!(parser.word_map().contains_key(&s("x")));
    assert!(parser.word_map().contains_key(&s("@y")));
}

#[test]
fn one_shot_word_is_used_up() {
    let mut parser = OutputParser::new(bank_of(&[("x", &["cat"], false)]));
    assert_eq!(parser.take_word(s("x")), Ok(s("cat")));
    assert!(!parser.word_map().contains_key(&s("x")));
    assert_eq!(parser.take_word(s("x")), Err(TemplateError::UnknownIdentifier));
}

#[test]
fn one_shot_words_come_once_each_and_leave_no_entry() {
    let mut parser = OutputParser::new(bank_of(&[("x", &["cat", "dog", "eel"], false)]));
    let mut taken = vec![
        parser.take_word(s("x")).unwrap(),
        parser.take_word(s("x")).unwrap(),
        parser.take_word(s("x")).unwrap(),
    ];
    assert_eq!(taken, vec![s("cat"), s("dog"), s("eel")]);
    taken.sort();
    taken.dedup();
    assert_eq!(taken.len(), 3);
    assert!(!parser.word_map().contains_key(&s("x")));
    assert_eq!(parser.take_word(s("x")), Err(TemplateError::UnknownIdentifier));
}

#[test]
fn entry_stays_while_words_are_left() {
    let mut parser = OutputParser::new(bank_of(&[("x", &["cat", "dog"], false)]));
    assert_eq!(parser.take_word(s("x")), Ok(s("cat")));
    assert!(parser.word_map().contains_key(&s("x")));
    assert_eq!(parser.word_map().pool_len(&s("x")), 1);
}

#[test]
fn persistent_word_is_the_same_every_time() {
    let mut parser = OutputParser::new(bank_of(&[("@mood", &["happy", "sad", "calm"], true)]));
    let first = parser.take_word(s("@mood")).unwrap();
    for _ in 0..5 {
        assert_eq!(parser.take_word(s("@mood")), Ok(first.clone()));
    }
    assert_eq!(first, "happy");
    assert_eq!(parser.word_map().pool_len(&s("@mood")), 3);
    assert!(parser.word_map().is_persistent(&s("@mood")));
}

#[test]
fn persistent_entry_with_one_word_is_not_removed() {
    let mut parser = OutputParser::new(bank_of(&[("@mood", &["happy"], true)]));
    assert_eq!(parser.take_word(s("@mood")), Ok(s("happy")));
    assert_eq!(parser.take_word(s("@mood")), Ok(s("happy")));
    assert!(parser.word_map().contains_key(&s("@mood")));
    assert_eq!(parser.word_map().pool_len(&s("@mood")), 1);
}

#[test]
fn taking_a_word_leaves_other_identifiers_alone() {
    let mut parser = OutputParser::new(bank_of(&[
        ("x", &["cat"], false),
        ("y", &["dog"], false),
        ("@z", &["eel"], true),
    ]));
    assert_eq!(parser.take_word(s("x")), Ok(s("cat")));
    assert_eq!(parser.word_map().first_word(&s("y")), Some(s("dog")));
    assert_eq!(parser.word_map().first_word(&s("@z")), Some(s("eel")));
    assert_eq!(parser.take_word(s("y")), Ok(s("dog")));
    assert_eq!(parser.take_word(s("@z")), Ok(s("eel")));
}

#[test]
fn failed_take_leaves_the_bank_alone() {
    let mut parser = OutputParser::new(bank_of(&[("x", &["cat"], false)]));
    assert_eq!(parser.take_word(s("y")), Err(TemplateError::UnknownIdentifier));
    assert_eq!(parser.word_map().first_word(&s("x")), Some(s("cat")));
    assert!(!parser.word_map().contains_key(&s("y")));
}

#[test]
fn literal_bytes_render_as_their_text() {
    let mut parser = OutputParser::new(bank_of(&[("x", &["cat"], false)]));
    assert_eq!(parser.parse_preceding(b"Hello, "), Ok(s("Hello, ")));
    assert_eq!(parser.parse_preceding("naïve ".as_bytes()), Ok(s("naïve ")));
    assert_eq!(parser.parse_preceding(b"x"), Ok(s("x")));
    assert_eq!(parser.word_map().pool_len(&s("x")), 1);
}

#[test]
fn literal_bytes_that_are_no_text_fail() {
    let mut parser = OutputParser::new(WordBank::new());
    assert_eq!(parser.parse_preceding(&[0xff, 0xfe]), Err(TemplateError::DecodeFailure));
}

#[test]
fn placeholder_renders_as_a_word_of_its_identifier() {
    let mut parser =
        OutputParser::new(bank_of(&[("name", &["Alice"], false), ("@mood", &["happy"], true)]));
    assert_eq!(parser.parse_containing(b"name"), Ok(s("Alice")));
    assert_eq!(parser.parse_containing(b"@mood how are you"), Ok(s("happy")));
    assert_eq!(parser.parse_containing(b"@mood something else"), Ok(s("happy")));
    assert_eq!(parser.parse_containing(b"@mood"), Ok(s("happy")));
    assert_eq!(parser.parse_containing(b"name"), Err(TemplateError::UnknownIdentifier));
}

#[test]
fn unmarked_placeholder_is_looked_up_whole() {
    let mut parser = OutputParser::new(bank_of(&[("a noun", &["cat"], false)]));
    assert_eq!(parser.parse_containing(b"a"), Err(TemplateError::UnknownIdentifier));
    assert_eq!(parser.parse_containing(b"a noun"), Ok(s("cat")));
}

#[test]
fn placeholder_bytes_that_are_no_text_fail_to_render() {
    let mut parser = OutputParser::new(bank_of(&[("x", &["cat"], false)]));
    assert_eq!(parser.parse_containing(&[0xc3]), Err(TemplateError::DecodeFailure));
    assert_eq!(parser.word_map().pool_len(&s("x")), 1);
}

#[test]
fn marker_without_prompt_is_unknown_when_nothing_was_collected() {
    let mut parser = OutputParser::new(WordBank::new());
    assert_eq!(parser.parse_containing(b"@"), Err(TemplateError::UnknownIdentifier));
    assert_eq!(parser.parse_containing(b"@ "), Err(TemplateError::UnknownIdentifier));
    assert_eq!(parser.parse_containing(b"@mood"), Err(TemplateError::UnknownIdentifier));
}

#[test]
fn segments_render_in_turn() {
    let mut parser =
        OutputParser::new(bank_of(&[("x", &["cat", "dog"], false), ("@y", &["eel"], true)]));
    let segments = parse_file(b"A {x}, a {x} and an {@y z}{@y z}.{");
    assert_eq!(parser.parse_segments(&segments), Ok(s("A cat, a dog and an eeleel.")));
    assert!(!parser.word_map().contains_key(&s("x")));
    assert!(parser.word_map().contains_key(&s("@y")));
}

#[test]
fn no_segments_render_as_nothing() {
    let mut parser = OutputParser::new(WordBank::new());
    assert_eq!(parser.parse_segments(&parse_file(b"")), Ok(s("")));
    assert_eq!(parser.parse_segments(&Vec::new()), Ok(s("")));
}

#[test]
fn rendering_stops_at_the_first_failure() {
    let mut parser = OutputParser::new(bank_of(&[("x", &["cat"], false), ("y", &["dog"], false)]));
    let segments = parse_file(b"{x} {missing} {y}");
    assert_eq!(parser.parse_segments(&segments), Err(TemplateError::UnknownIdentifier));
    assert!(!parser.word_map().contains_key(&s("x")));
    assert_eq!(parser.word_map().first_word(&s("y")), Some(s("dog")));
}

#[test]
fn document_ends_with_a_line_end() {
    let bank = bank_of(&[("name", &["Alice"], false)]);
    assert_eq!(substitute_words_in(b"Hello {name}!{", bank), Ok(s("Hello Alice!\n")));
}

#[test]
fn empty_template_renders_as_an_empty_line() {
    assert_eq!(substitute_words_in(b"", WordBank::new()), Ok(s("\n")));
}

#[test]
fn text_after_the_last_placeholder_is_dropped() {
    let bank = bank_of(&[("name", &["Alice"], false)]);
    assert_eq!(substitute_words_in(b"Hello {name}!\n", bank), Ok(s("Hello Alice\n")));
}

#[test]
fn template_without_placeholders_renders_its_literal_text() {
    let bank = bank_of(&[("x", &["cat"], false)]);
    assert_eq!(
        substitute_words_in(b"No blanks here.\n{", bank),
        Ok(s("No blanks here.\n\n"))
    );
    assert_eq!(substitute_words_in(b"Stra\xc3\x9fe{", WordBank::new()), Ok(s("Straße\n")));
}

#[test]
fn template_without_any_delimiter_renders_as_an_empty_line() {
    assert_eq!(substitute_words_in(b"No blanks here.\n", WordBank::new()), Ok(s("\n")));
}

#[test]
fn template_without_placeholders_does_not_need_the_bank() {
    let source = b"plain \\{text\\{{never closed";
    assert_eq!(substitute_words_in(source, WordBank::new()), Ok(s("plain {text{\n")));
    assert_eq!(
        substitute_words_in(source, bank_of(&[("never closed", &["x"], false)])),
        Ok(s("plain {text{\n"))
    );
}

#[test]
fn escaped_delimiters_render_literally() {
    let bank = bank_of(&[("x", &["cat"], false)]);
    assert_eq!(substitute_words_in(b"a \\{b\\{ {x}", bank), Ok(s("a {b{ cat\n")));
}

#[test]
fn escaped_closing_delimiter_belongs_to_the_identifier() {
    let bank = bank_of(&[("a}b", &["cat"], false)]);
    assert_eq!(substitute_words_in(b"{a\\}b}", bank), Ok(s("cat\n")));
}

#[test]
fn literal_that_is_no_text_fails_the_document() {
    let bank = bank_of(&[("x", &["cat"], false)]);
    assert_eq!(substitute_words_in(b"\xff{x}", bank), Err(TemplateError::DecodeFailure));
}

#[test]
fn dropped_text_is_never_decoded() {
    let bank = bank_of(&[("x", &["cat"], false)]);
    assert_eq!(substitute_words_in(b"{x}\xff", bank), Ok(s("cat\n")));
}

#[test]
fn rendering_persistent_placeholders_twice_gives_the_same_output() {
    let mut parser = OutputParser::new(bank_of(&[
        ("@mood", &["happy", "sad"], true),
        ("@name", &["Alice"], true),
    ]));
    let segments = parse_file(b"{@name who} is {@mood how}, {@mood how} {@name who}.{");
    let first = parser.parse_segments(&segments);
    let second = parser.parse_segments(&segments);
    assert_eq!(first, Ok(s("Alice is happy, happy Alice.")));
    assert_eq!(first, second);
    assert_eq!(parser.word_map().pool_len(&s("@mood")), 2);
    assert_eq!(parser.word_map().pool_len(&s("@name")), 1);
}

#[test]
fn rendering_one_shot_placeholders_twice_fails_the_second_time() {
    let mut parser = OutputParser::new(bank_of(&[("x", &["cat"], false)]));
    let segments = parse_file(b"{x}");
    assert_eq!(parser.parse_segments(&segments), Ok(s("cat")));
    assert_eq!(parser.parse_segments(&segments), Err(TemplateError::UnknownIdentifier));
}
