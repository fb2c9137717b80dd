use spellcheck::check::{is_custom_word, normalize_apostrophes, select_errors};
use spellcheck::greeting::greet;
use spellcheck::text::{find_words, WordSpan};

fn s(v: &[&str]) -> Vec<String> {
    v.iter().map(|w| w.to_string()).collect()
}

fn words(spans: &[WordSpan]) -> Vec<(String, usize, usize)> {
    spans.iter().map(|w| (w.word.clone(), w.start, w.length)).collect()
}

fn check_with(text: &str, custom: &Vec<String>, accepts: &dyn Fn(&str) -> bool) -> Vec<(String, usize, usize)> {
    let spans = find_words(text);
    let raw: Vec<bool> = spans.iter().map(|w| accepts(&w.word)).collect();
    let norm: Vec<bool> = spans.iter().map(|w| accepts(&normalize_apostrophes(&w.word))).collect();
    words(&select_errors(&spans, custom, &raw, &norm))
}

#[test]
fn greet_greets_by_name() {
    assert_eq!(greet("Ada"), "Hello, Ada! You've been greeted from Rust!");
    assert_eq!(greet(""), "Hello, ! You've been greeted from Rust!");
}

#[test]
fn finds_words_left_to_right() {
    let found = words(&find_words("Thsi is a tset"));
    assert_eq!(
        found,
        vec![
            ("Thsi".to_string(), 0, 4),
            ("is".to_string(), 5, 2),
            ("a".to_string(), 8, 1),
            ("tset".to_string(), 10, 4),
        ]
    );
}

#[test]
fn empty_and_wordless_text_has_no_words() {
    assert!(find_words("").is_empty());
    assert!(find_words("  ,.;!? -- ").is_empty());
}

#[test]
fn apostrophes_join_word_parts() {
    let found = words(&find_words("don't the dog’s it''s dogs' 'quoted'"));
    assert_eq!(
        found,
        vec![
            ("don't".to_string(), 0, 5),
            ("the".to_string(), 6, 3),
            ("dog’s".to_string(), 10, 5),
            ("it".to_string(), 16, 2),
            ("s".to_string(), 20, 1),
            ("dogs".to_string(), 22, 4),
            ("quoted".to_string(), 29, 6),
        ]
    );
}

#[test]
fn digits_underscores_and_letters_beyond_ascii_are_word_characters() {
    let found = words(&find_words("naïve x_1 42été"));
    assert_eq!(
        found,
        vec![("naïve".to_string(), 0, 5), ("x_1".to_string(), 6, 3), ("42été".to_string(), 10, 5)]
    );
}

#[test]
fn thsi_is_a_tset_reports_two_spans() {
    let accepts = |w: &str| w == "is" || w == "a";
    let errors = check_with("Thsi is a tset", &Vec::new(), &accepts);
    assert_eq!(errors, vec![("Thsi".to_string(), 0, 4), ("tset".to_string(), 10, 4)]);
}

#[test]
fn offsets_after_accented_character_count_code_units() {
    let accepts = |w: &str| w == "café";
    let errors = check_with("café wrld", &Vec::new(), &accepts);
    assert_eq!(errors, vec![("wrld".to_string(), 5, 4)]);
}

#[test]
fn offsets_after_surrogate_pair_count_two_units() {
    let accepts = |_: &str| false;
    // "😀" takes four bytes and two UTF-16 code units.
    let errors = check_with("😀 wrld 🎉y 𝒳y", &Vec::new(), &accepts);
    assert_eq!(
        errors,
        vec![("wrld".to_string(), 3, 4), ("y".to_string(), 10, 1), ("𝒳y".to_string(), 12, 3)]
    );
}

#[test]
fn custom_words_are_never_reported() {
    let custom = s(&["Thsi", "tset", "zzyzx"]);
    let rejects_all = |_: &str| false;
    assert!(check_with("Thsi tset zzyzx tset", &custom, &rejects_all).is_empty());
}

#[test]
fn custom_words_match_exactly() {
    let custom = s(&["Tset"]);
    let rejects_all = |_: &str| false;
    assert_eq!(check_with("tset Tset", &custom, &rejects_all), vec![("tset".to_string(), 0, 4)]);
    assert!(is_custom_word(&custom, &"Tset".to_string()));
    assert!(!is_custom_word(&custom, &"tset".to_string()));
    assert!(!is_custom_word(&Vec::new(), &"tset".to_string()));
}

#[test]
fn normalized_spelling_is_also_tried() {
    let accepts = |w: &str| w == "don't";
    assert!(check_with("don’t", &Vec::new(), &accepts).is_empty());
    let accepts_curly = |w: &str| w == "won’t";
    assert!(check_with("won’t", &Vec::new(), &accepts_curly).is_empty());
}

#[test]
fn normalize_apostrophes_straightens_right_quotes() {
    assert_eq!(normalize_apostrophes("don’t it’s"), "don't it's");
    assert_eq!(normalize_apostrophes("plain'"), "plain'");
    assert_eq!(normalize_apostrophes(""), "");
}

#[test]
fn select_errors_keeps_order_and_skips_accepted() {
    let spans = find_words("aa bb cc dd");
    let raw = vec![false, true, false, false];
    let norm = vec![false, false, true, false];
    let got = words(&select_errors(&spans, &s(&["dd"]), &raw, &norm));
    assert_eq!(got, vec![("aa".to_string(), 0, 2)]);
}
