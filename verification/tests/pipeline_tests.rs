use dictionary_creator::dictionary::Dictionary;
use dictionary_creator::dictionary_creator::DictionaryCreator;
use dictionary_creator::dictionary_definer::{percent_decode, percent_encode};
use dictionary_creator::dictionary_language::Language;
use dictionary_creator::dictionary_manager::DictionaryManager;
use dictionary_creator::dictionary_types::Definitions;
use dictionary_creator::regex_parser::{RegexParser, RegularExpressionParser};

#[test]
fn parse_line_classifies_tokens() {
    let creator = DictionaryCreator::new(Language::English);
    let mut dictionary = Dictionary::new(Language::English);
    creator.parse_line("Smith lives here.", &mut dictionary);

    let proper = dictionary.get_proper_nouns();
    assert_eq!(proper.len(), 1);
    assert_eq!(proper[0].get_word(), "Smith".to_string());

    let words: Vec<String> = dictionary
        .get_entries()
        .iter()
        .map(|e| e.get_word())
        .collect();
    assert_eq!(words, vec!["lives".to_string(), "here".to_string()]);
}

#[test]
fn parse_line_drops_short_tokens() {
    let creator = DictionaryCreator::new(Language::English);
    let mut dictionary = Dictionary::new(Language::English);
    creator.parse_line("it is an ox", &mut dictionary);
    assert_eq!(dictionary.total_words(), 0);
    assert_eq!(dictionary.get_proper_nouns().len(), 0);
}

#[test]
fn two_line_scenario_builds_expected_dictionary() {
    let mut manager = DictionaryManager::new(Language::English, "English corpus".to_string());
    manager.add_pending_line("The Quick fox.".to_string());
    manager.add_pending_line("the fox ran.".to_string());
    manager.parse_all_pending();

    let fox = manager.lookup_or_add_word("fox".to_string());
    assert_eq!(fox.get_counter(), 3);

    let the = manager.lookup_or_add_word("the".to_string());
    assert_eq!(the.get_counter(), 3);

    assert!(manager.contains_word("Quick".to_string()));
    assert!(manager.contains_word("ran".to_string()));
    assert!(!manager.contains_word("lives".to_string()));
}

#[test]
fn two_line_scenario_counters_without_lookup() {
    let creator = DictionaryCreator::new(Language::English);
    let mut dictionary = Dictionary::new(Language::English);
    creator.parse_line("The Quick fox.", &mut dictionary);
    creator.parse_line("the fox ran.", &mut dictionary);

    let proper = dictionary.get_proper_nouns();
    assert_eq!(proper.len(), 1);
    assert_eq!(proper[0].get_word(), "Quick".to_string());
    assert_eq!(proper[0].get_counter(), 1);

    let fox = dictionary.lookup("fox".to_string()).expect("fox is a word");
    assert_eq!(fox.get_counter(), 2);
    let the = dictionary.lookup("the".to_string()).expect("the migrated");
    assert_eq!(the.get_counter(), 2);
    let ran = dictionary.lookup("ran".to_string()).expect("ran is a word");
    assert_eq!(ran.get_counter(), 1);
    assert_eq!(dictionary.total_words(), 5);
}

#[test]
fn lookup_or_add_word_creates_one_entry() {
    let mut manager = DictionaryManager::new(Language::English, String::new());
    assert_eq!(manager.get_name(), "Default dictionary".to_string());
    let first = manager.lookup_or_add_word("alpha".to_string());
    assert_eq!(first.get_counter(), 1);
    let second = manager.lookup_or_add_word("alpha".to_string());
    assert_eq!(second.get_counter(), 2);
    assert_eq!(second.get_word(), "alpha".to_string());
    assert!(manager.contains_word("alpha".to_string()));
}

#[test]
fn manager_define_stores_first_result_once() {
    let definer = |_w: &str| {
        let mut res = Definitions::new();
        res.insert("gloss".to_string(), vec!["meaning".to_string()]);
        res
    };
    let other = |_w: &str| {
        let mut res = Definitions::new();
        res.insert("late".to_string(), vec!["loser".to_string()]);
        res
    };
    let mut manager = DictionaryManager::new(Language::English, "defs".to_string());
    let entry = manager.define("volcano".to_string(), definer);
    assert!(entry.is_defined());
    assert_eq!(entry.get_definitions(), definer("volcano"));
    let again = manager.define("volcano".to_string(), other);
    assert!(again.is_defined());
    assert_eq!(again.get_definitions(), definer("volcano"));
    assert_eq!(again.get_counter(), 2);
}

#[test]
fn percent_encode_keeps_unreserved_text() {
    assert_eq!(percent_encode("abc".to_string()), "abc".to_string());
    assert_eq!(percent_encode(String::new()), String::new());
    assert_eq!(
        percent_encode("AZaz09-._~".to_string()),
        "AZaz09-._~".to_string()
    );
}

#[test]
fn percent_encode_escapes_reserved_text() {
    assert_eq!(percent_encode("a b".to_string()), "a%20b".to_string());
    assert_eq!(percent_encode("100%".to_string()), "100%25".to_string());
    assert_eq!(percent_encode("a/b?c".to_string()), "a%2Fb%3Fc".to_string());
}

#[test]
fn percent_encode_round_trips() {
    let samples = vec![
        "hello world!".to_string(),
        "plain".to_string(),
        String::new(),
        "punct %&?=#".to_string(),
    ];
    for sample in samples {
        let encoded = percent_encode(sample.clone());
        assert_eq!(percent_decode(encoded), Some(sample));
    }
}

#[test]
fn percent_decode_rejects_invalid_input() {
    assert_eq!(percent_decode("%".to_string()), None);
    assert_eq!(percent_decode("%G1".to_string()), None);
    assert_eq!(percent_decode("abc%2".to_string()), None);
    assert_eq!(percent_decode("%FF".to_string()), None);
}

#[test]
fn single_match_finds_first_name() {
    let lang = Language::English;
    let parser = RegexParser::new(lang.proper_noun_pattern());
    assert_eq!(
        parser.single_match("he met Smith and Jones.", 0),
        Some("Smith".to_string())
    );
    assert_eq!(parser.single_match("no names here.", 0), None);
}

#[test]
fn all_matches_collects_in_order() {
    let lang = Language::English;
    let names = RegexParser::new(lang.proper_noun_pattern());
    assert_eq!(
        names.all_matches("Smith met Jones.", 0),
        vec!["Smith".to_string(), "Jones".to_string()]
    );
    let words = RegexParser::new(lang.word_pattern());
    assert_eq!(
        words.all_matches("one two three", 0),
        vec!["one".to_string(), "two".to_string(), "three".to_string()]
    );
}

#[test]
fn line_start_pattern_is_anchored() {
    let lang = Language::English;
    let anchored = RegexParser::new(lang.line_start_name_pattern());
    assert_eq!(
        anchored.single_match("Smith lives here.", 0),
        Some("Smith".to_string())
    );
    assert_eq!(anchored.single_match("he met Smith.", 0), None);
    let via_trait: &dyn RegularExpressionParser = &anchored;
    assert_eq!(
        via_trait.single_match("Smith lives here.", 0),
        Some("Smith".to_string())
    );
}

#[test]
fn parse_one_line_goes_through_manager() {
    let mut manager = DictionaryManager::new(Language::English, "lines".to_string());
    manager.parse_one_line("water flows down.".to_string());
    assert!(manager.contains_word("water".to_string()));
    assert!(manager.contains_word("flows".to_string()));
    assert!(!manager.contains_word("up".to_string()));
}
