use spellcheck::session::{should_persist, SpellError, SpellSession};
use spellcheck::words::{custom_word_line, format_word_list, merge_custom_words, parse_word_list};

fn s(v: &[&str]) -> Vec<String> {
    v.iter().map(|w| w.to_string()).collect()
}

#[test]
fn merge_keeps_persisted_then_new_in_order() {
    let merged = merge_custom_words(&s(&["alpha", "beta"]), &s(&["beta", "gamma", "gamma", "delta", "alpha"]));
    assert_eq!(merged, s(&["alpha", "beta", "gamma", "delta"]));
}

#[test]
fn merge_with_empty_lists() {
    assert_eq!(merge_custom_words(&Vec::new(), &Vec::new()), Vec::<String>::new());
    assert_eq!(merge_custom_words(&s(&["a"]), &Vec::new()), s(&["a"]));
    assert_eq!(merge_custom_words(&Vec::new(), &s(&["b", "b", "a"])), s(&["b", "a"]));
}

#[test]
fn merge_is_case_sensitive() {
    assert_eq!(merge_custom_words(&s(&["Word"]), &s(&["word", "Word"])), s(&["Word", "word"]));
}

#[test]
fn word_list_lines_are_trimmed_and_empty_ones_skipped() {
    assert_eq!(parse_word_list("  foo \n\nbar\r\n   \n\tbaz"), s(&["foo", "bar", "baz"]));
    assert_eq!(parse_word_list(""), Vec::<String>::new());
    assert_eq!(parse_word_list("one\n"), s(&["one"]));
}

#[test]
fn should_persist_when_file_missing_or_list_grew() {
    let old = s(&["a"]);
    assert!(should_persist(false, &old, &old));
    assert!(!should_persist(true, &old, &old));
    assert!(should_persist(true, &old, &s(&["a", "b"])));
}

#[test]
fn new_session_is_not_initialized() {
    let session = SpellSession::new();
    assert!(!session.is_initialized());
    assert!(matches!(session.require_initialized(), Err(SpellError::NotInitialized)));
}

#[test]
fn initialize_sets_language_and_words() {
    let mut session = SpellSession::new();
    session.initialize("en_US".to_string(), s(&["foo"]));
    assert!(session.is_initialized());
    assert!(session.require_initialized().is_ok());
    assert_eq!(session.language.as_deref(), Some("en_US"));
    assert_eq!(session.custom_words, s(&["foo"]));
    session.initialize("de_DE".to_string(), Vec::new());
    assert_eq!(session.language.as_deref(), Some("de_DE"));
    assert!(session.custom_words.is_empty());
}

#[test]
fn added_word_is_present_once() {
    let mut session = SpellSession::new();
    session.initialize("en_US".to_string(), s(&["foo"]));
    assert!(session.add_custom_word("bar".to_string()));
    assert_eq!(session.custom_words, s(&["foo", "bar"]));
    assert!(!session.add_custom_word("bar".to_string()));
    assert!(!session.add_custom_word("foo".to_string()));
    assert_eq!(session.custom_words, s(&["foo", "bar"]));
    assert_eq!(session.language.as_deref(), Some("en_US"));
}

#[test]
fn appended_line_adds_word_to_file_list() {
    assert_eq!(custom_word_line("colour"), "colour\n");
    let content = format!("foo\nbar\n{}", custom_word_line("colour"));
    assert_eq!(parse_word_list(&content), s(&["foo", "bar", "colour"]));
    assert_eq!(parse_word_list(&custom_word_line("solo")), s(&["solo"]));
}

#[test]
fn formatted_word_list_reads_back() {
    let list = s(&["alpha", "don't", "naïve"]);
    let text = format_word_list(&list);
    assert_eq!(text, "alpha\ndon't\nnaïve\n");
    assert_eq!(parse_word_list(&text), list);
    assert_eq!(format_word_list(&Vec::new()), "");
}
