use spellcheck::locate::{available_languages, candidate_pairs, language_code, resolve_dictionary_pair};
use spellcheck::session::SpellError;
use spellcheck::startup::{option_argument, startup_file_index};

fn s(v: &[&str]) -> Vec<String> {
    v.iter().map(|w| w.to_string()).collect()
}

#[test]
fn language_code_is_affix_file_stem() {
    assert_eq!(language_code("/usr/share/hunspell/de_DE.aff"), "de_DE");
    assert_eq!(language_code("C:\\dicts\\fr_FR.aff"), "fr_FR");
    assert_eq!(language_code("en_GB.tar.aff"), "en_GB.tar");
    assert_eq!(language_code("dicts/.aff"), ".aff");
    assert_eq!(language_code("noext"), "noext");
}

#[test]
fn language_code_defaults_to_en_us() {
    assert_eq!(language_code(""), "en_US");
    assert_eq!(language_code("dicts/"), "en_US");
}

#[test]
fn candidates_start_with_given_paths_then_fallbacks() {
    let pairs = candidate_pairs("a/x.aff", "a/x.dic", "x");
    let got: Vec<(String, String)> = pairs.iter().map(|p| (p.affix.clone(), p.dictionary.clone())).collect();
    assert_eq!(
        got,
        vec![
            ("a/x.aff".to_string(), "a/x.dic".to_string()),
            ("dictionaries/x.aff".to_string(), "dictionaries/x.dic".to_string()),
            ("../dictionaries/x.aff".to_string(), "../dictionaries/x.dic".to_string()),
            ("src-tauri/dictionaries/x.aff".to_string(), "src-tauri/dictionaries/x.dic".to_string()),
            ("resources/dictionaries/x.aff".to_string(), "resources/dictionaries/x.dic".to_string()),
        ]
    );
}

#[test]
fn resolve_takes_first_present_pair() {
    let pairs = candidate_pairs("a/x.aff", "a/x.dic", "x");
    let found = resolve_dictionary_pair(&pairs, &vec![false, false, true, true, false], &"x".to_string()).unwrap();
    assert_eq!(found.affix, "../dictionaries/x.aff");
    assert_eq!(found.dictionary, "../dictionaries/x.dic");
    let given = resolve_dictionary_pair(&pairs, &vec![true, true, true, true, true], &"x".to_string()).unwrap();
    assert_eq!(given.affix, "a/x.aff");
}

#[test]
fn resolve_fails_when_no_pair_present() {
    let pairs = candidate_pairs("a/x.aff", "a/x.dic", "x");
    let r = resolve_dictionary_pair(&pairs, &vec![false; 5], &"x".to_string());
    match r {
        Err(SpellError::DictionaryNotFound(l)) => assert_eq!(l, "x"),
        other => panic!("unexpected {:?}", other),
    }
}

#[test]
fn available_languages_is_fixed() {
    assert_eq!(available_languages(), s(&["en_US", "en_GB", "de_DE", "fr_FR", "es_ES"]));
}

#[test]
fn startup_file_is_first_readable_non_option() {
    let args = s(&["editor", "--verbose", "missing.txt", "notes.txt", "other.txt"]);
    assert_eq!(startup_file_index(&args, &vec![true, true, false, true, true]), Some(3));
    assert_eq!(startup_file_index(&args, &vec![true, true, false, false, false]), None);
    assert_eq!(startup_file_index(&s(&["notes.txt"]), &vec![true]), None);
    assert_eq!(startup_file_index(&Vec::new(), &Vec::new()), None);
}

#[test]
fn option_arguments_start_with_dash() {
    assert!(option_argument("-v"));
    assert!(option_argument("--x"));
    assert!(!option_argument("file-name"));
    assert!(!option_argument(""));
}
