//! Words to check, and the spell engine.

use jotlog::spell::{
    custom_dict_path, dict_file_name, dict_path, dict_url, download_dictionary, find_dictionary,
    tokenize_for_spell, SpellEngine, SpellError,
};
use jotlog::spell_wizard::case_preserving;

fn tokenize(src: &str) -> Vec<String> {
    tokenize_for_spell(src, 0, src.len())
        .into_iter()
        .map(|w| w.text)
        .collect()
}

#[test]
fn skip_delimiter_lines() {
    let words = tokenize("=== 2026-05-13 14:32 | My title\nhello world\n");
    assert_eq!(words, vec!["hello", "world"]);
}

#[test]
fn skip_tags() {
    let words = tokenize("see #oci and #helidon-test for context\n");
    assert_eq!(words, vec!["see", "and", "for", "context"]);
}

#[test]
fn skip_inline_code() {
    let words = tokenize("call `do_something` here\n");
    assert_eq!(words, vec!["call", "here"]);
}

#[test]
fn skip_fenced_code_block() {
    let src = "before\n```\ncode line\n```\nafter\n";
    assert_eq!(tokenize(src), vec!["before", "after"]);
}

#[test]
fn skip_urls() {
    let words = tokenize("visit https://example.com/path?q=1 for details\n");
    assert_eq!(words, vec!["visit", "for", "details"]);
}

#[test]
fn skip_identifiers() {
    let words = tokenize("the foo_bar value is path/to/file\n");
    assert_eq!(words, vec!["the", "value", "is"]);
}

#[test]
fn skip_camel_case() {
    let words = tokenize("MyClass and another HttpClient class\n");
    assert_eq!(words, vec!["and", "another", "class"]);
}

#[test]
fn skip_todo_prefix() {
    let words = tokenize("TODO: write the docs\n");
    assert_eq!(words, vec!["write", "the", "docs"]);
}

#[test]
fn skip_checkbox_prefix() {
    let words = tokenize("- [ ] something todo\n");
    assert_eq!(words, vec!["something", "todo"]);
}

#[test]
fn keep_apostrophes_in_words() {
    let words = tokenize("don't worry it's fine\n");
    assert_eq!(words, vec!["don't", "worry", "it's", "fine"]);
}

#[test]
fn skip_very_short_words() {
    // Single-character words aren't worth spell-checking.
    let words = tokenize("I a the\n");
    assert_eq!(words, vec!["the"]);
}

#[test]
fn words_keep_their_place() {
    let words = tokenize_for_spell("caf\u{e9} bar\nbaz\n", 0, 10);
    let spans: Vec<(usize, usize)> = words.iter().map(|w| (w.span.start, w.span.end)).collect();
    assert_eq!(spans, vec![(0, 5), (6, 9)]);
}

#[test]
fn the_engine_knows_its_words() {
    let mut e = SpellEngine::load("hello 100\nworld 90\n", Some("Jot\n\n")).unwrap();
    assert!(e.is_correct("hello"));
    assert!(e.is_correct("Hello"));
    assert!(e.is_correct("JOT"), "the user's words count");
    assert!(!e.is_correct("helo"));
    assert_eq!(e.suggest("helo", 5), vec!["hello"]);
    assert_eq!(e.suggest("helo", 0), Vec::<String>::new());
    assert!(e.suggest("zzyzx", 5).is_empty());
    assert_eq!(e.add_to_user_dict(" Helo "), Some("helo".to_string()));
    assert!(e.is_correct("helo"));
    assert_eq!(e.add_to_user_dict("  "), None);
}

#[test]
fn a_line_without_a_count_breaks_the_dictionary() {
    match SpellEngine::load("hello many\n", None) {
        Err(e) => assert_eq!(
            e.message(),
            "spell engine error: symspell failed to load dictionary"
        ),
        Ok(_) => panic!("error expected"),
    }
}

#[test]
fn spell_errors_say_what_happened() {
    assert_eq!(SpellError::NoConfigDir.message(), "no config directory available");
    assert_eq!(
        SpellError::DictMissing("/x".to_string()).message(),
        "dictionary file missing at /x"
    );
    assert_eq!(SpellError::Download("d".to_string()).message(), "download error: d");
    assert_eq!(SpellError::Io("i".to_string()).message(), "i/o error: i");
}

#[test]
fn only_english_can_be_downloaded() {
    assert!(dict_url("en").unwrap().starts_with("https://raw.githubusercontent.com/"));
    assert_eq!(dict_url("de"), None);
    assert_eq!(dict_file_name("en"), "dictionary_en.txt");
}

#[test]
fn suggestions_keep_the_case() {
    assert_eq!(case_preserving("Helo", "hello"), "Hello");
    assert_eq!(case_preserving("HELO", "hello"), "HELLO");
    assert_eq!(case_preserving("helo", "Hello"), "hello");
    assert_eq!(case_preserving("I", "in"), "In", "one capital is no word in capitals");
    assert_eq!(case_preserving("", "Hello"), "Hello");
    assert_eq!(case_preserving("Strasse", "\u{df}a"), "SSa");
}

#[test]
fn dictionaries_have_their_places() {
    assert_eq!(dict_path(Some("/c"), "en").as_deref(), Some("/c/jotlog/dictionary_en.txt"));
    assert_eq!(custom_dict_path(Some("/c")).as_deref(), Some("/c/jotlog/dictionary.txt"));
    assert_eq!(dict_path(None, "en"), None);
    assert_eq!(custom_dict_path(None), None);
    let found = find_dictionary(Some("/c"), "de", true);
    assert_eq!(found.ok().as_deref(), Some("/c/jotlog/dictionary_de.txt"));
    match find_dictionary(Some("/c"), "en", false) {
        Err(SpellError::DictMissing(p)) => assert_eq!(p, "/c/jotlog/dictionary_en.txt"),
        _ => panic!("the file is not there"),
    }
    assert!(matches!(find_dictionary(None, "en", false), Err(SpellError::NoConfigDir)));
}

#[test]
fn downloads_go_to_their_places() {
    match download_dictionary(Some("/c"), "en") {
        Ok(d) => {
            assert_eq!(Some(d.url), dict_url("en"));
            assert_eq!(d.path, "/c/jotlog/dictionary_en.txt");
        }
        Err(e) => panic!("{}", e.message()),
    }
    match download_dictionary(None, "xx") {
        Err(e) => assert_eq!(e.message(), "download error: no URL configured for 'xx'"),
        Ok(_) => panic!("there is no such dictionary"),
    }
    assert!(matches!(download_dictionary(None, "en"), Err(SpellError::NoConfigDir)));
}

#[test]
fn words_in_capitals_are_checked() {
    assert_eq!(tokenize("HELO there\n"), vec!["HELO", "there"]);
    assert_eq!(tokenize("DON'T HttpAPI eBook Ok\n"), vec!["DON'T", "Ok"]);
    assert_eq!(case_preserving("HELO", "hello"), "HELLO");
}

#[test]
fn whole_tags_are_skipped() {
    assert_eq!(tokenize("see #2fa and #-x/y now\n"), vec!["see", "and", "now"]);
    assert_eq!(tokenize("see #123 now\n"), vec!["see", "now"]);
}
