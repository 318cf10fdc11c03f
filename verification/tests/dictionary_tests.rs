use dictionary_creator::dictionary::Dictionary;
use dictionary_creator::dictionary_entry::Entry;
use dictionary_creator::dictionary_exporter::DictionaryExporter;
use dictionary_creator::dictionary_language::Language;
use dictionary_creator::dictionary_manager::DictionaryManager;
use dictionary_creator::dictionary_types::Definitions;

fn mock_definer(whatever: &str) -> Definitions {
    let mut result = Definitions::new();
    result.insert(whatever.to_string(), Vec::new());
    result
}

#[test]
fn dictionary_entry_creation() {
    let raw_word = "antidisestablismentarianism";
    let entry = Entry::new(raw_word.to_string());

    assert_eq!(entry.as_str(), raw_word);
    assert_eq!(entry.get_counter(), 1);
    assert_eq!(entry.get_definitions().len(), 0);
    assert_eq!(entry.is_defined(), false);
    assert_eq!(entry.get_word(), String::from(raw_word));
}

#[test]
fn dictionary_entry_counter() {
    let mut entry = Entry::new("scientific".to_string());

    entry.increment_counter();
    assert_eq!(entry.get_counter(), 2);

    entry.increment_counter_by(10);
    assert_eq!(entry.get_counter(), 12);

    entry.increment_counter_by(1_000_000_000_000);
    assert_eq!(entry.get_counter(), 1_000_000_000_012);
}

#[test]
fn dictionary_entry_defined() {
    let pseudodefiner = |_any_word: &str| {
        let mut res = Definitions::new();
        res.insert(
            "A".to_string(),
            vec!["B".to_string(), "C".to_string(), "D".to_string()],
        );
        res.insert(
            "One".to_string(),
            vec!["Two".to_string(), "Three".to_string(), "Four".to_string()],
        );
        res
    };
    let pseudodefinitions = pseudodefiner("whatever");
    assert_eq!(pseudodefiner("argument is disregarded"), pseudodefinitions);

    let mut entry = Entry::new("volcano".to_string());
    entry.define(pseudodefiner);
    assert!(entry.is_defined());
    assert_eq!(entry.get_definitions(), pseudodefinitions);
    assert_eq!(entry.get_counter(), 1);
}

#[test]
fn dictionary_manager_name() {
    let mut manager = DictionaryManager::new(Language::English, "Unimplemented".to_string());
    assert_eq!(manager.get_name(), String::from("Unimplemented"));
    manager.rename(String::from("Promising"));
    assert_eq!(manager.get_name(), String::from("Promising"));
}

#[test]
fn dictionary_types_are_visible() {
    let empty = Definitions::new();
    assert_eq!(empty, Definitions::new());
    assert_eq!(empty.len(), 0);

    let local_definer: fn(&str) -> Definitions = mock_definer;
    assert_eq!(local_definer("whatever").len(), 1);
}

#[test]
fn dictionary_entry_is_visible() {
    let entry = Entry::new("future".to_string());
    assert!(!entry.is_defined());
}

#[test]
fn dictionary_is_visible() {
    let dictionary = Dictionary::new(Language::English);
    assert_eq!(dictionary.total_words(), 0);
}

#[test]
fn dictionary_exporter_is_visible() {
    let exporter = DictionaryExporter::new();
    let dictionary = Dictionary::new(Language::English);
    assert!(exporter.export_words(&dictionary).is_empty());
}

#[test]
fn repeated_add_word_counts_one_entry() {
    let mut dictionary = Dictionary::new(Language::English);
    dictionary.add_word("Fox".to_string());
    dictionary.add_word("fox".to_string());
    dictionary.add_word("FOX".to_string());

    let entries = dictionary.get_entries();
    assert_eq!(entries.len(), 1);
    assert_eq!(entries[0].get_word(), "fox".to_string());
    assert_eq!(entries[0].get_counter(), 3);
    assert_eq!(dictionary.total_words(), 3);

    let found = dictionary.lookup("FOX".to_string()).expect("present");
    assert_eq!(found.get_counter(), 3);
}

#[test]
fn word_lives_in_exactly_one_collection() {
    let mut dictionary = Dictionary::new(Language::English);
    dictionary.add_proper_noun("Smith".to_string());
    dictionary.add_word("Smith".to_string());
    assert_eq!(dictionary.get_proper_nouns().len(), 0);
    let entries = dictionary.get_entries();
    assert_eq!(entries.len(), 1);
    assert_eq!(entries[0].get_word(), "smith".to_string());
    assert_eq!(entries[0].get_counter(), 2);

    let mut other = Dictionary::new(Language::English);
    other.add_word("jones".to_string());
    other.add_proper_noun("Jones".to_string());
    assert_eq!(other.get_entries().len(), 0);
    let proper = other.get_proper_nouns();
    assert_eq!(proper.len(), 1);
    assert_eq!(proper[0].get_word(), "Jones".to_string());
    assert_eq!(proper[0].get_counter(), 2);
}

#[test]
fn define_keeps_first_successful_result() {
    let first = |_w: &str| {
        let mut res = Definitions::new();
        res.insert("gloss".to_string(), vec!["first".to_string()]);
        res
    };
    let second = |_w: &str| {
        let mut res = Definitions::new();
        res.insert("other".to_string(), vec!["second".to_string()]);
        res
    };
    let mut entry = Entry::new("stone".to_string());
    entry.define(first);
    let after_first = entry.get_definitions();
    entry.define(second);
    assert!(entry.is_defined());
    assert_eq!(entry.get_definitions(), after_first);
    assert_eq!(entry.get_definitions(), first("stone"));
}

#[test]
fn define_retries_after_empty_result() {
    let empty_definer = |_w: &str| Definitions::new();
    let real_definer = |_w: &str| {
        let mut res = Definitions::new();
        res.insert("gloss".to_string(), vec!["term".to_string()]);
        res
    };
    let mut entry = Entry::new("river".to_string());
    entry.define(empty_definer);
    assert!(!entry.is_defined());
    assert_eq!(entry.get_definitions().len(), 0);
    entry.define(real_definer);
    assert!(entry.is_defined());
}

#[test]
fn total_words_sums_all_counters() {
    let mut dictionary = Dictionary::new(Language::English);
    dictionary.add_word("alpha".to_string());
    dictionary.add_word("alpha".to_string());
    dictionary.add_word("beta".to_string());
    dictionary.add_word("gamma".to_string());
    dictionary.add_proper_noun("Delta".to_string());

    let mut sum: usize = 0;
    for entry in dictionary.get_entries() {
        sum += entry.get_counter();
    }
    assert_eq!(dictionary.total_words(), sum);
    assert_eq!(dictionary.total_words(), 4);
    assert_eq!(dictionary.distinct_words(), 3);
}

#[test]
fn counter_saturates_at_machine_limit() {
    let mut entry = Entry::new("boundless".to_string());
    entry.increment_counter_by(usize::MAX);
    assert_eq!(entry.get_counter(), usize::MAX);
    entry.increment_counter();
    assert_eq!(entry.get_counter(), usize::MAX);
}

#[test]
fn remove_word_deletes_the_entry() {
    let mut dictionary = Dictionary::new(Language::English);
    dictionary.add_word("ephemeral".to_string());
    dictionary.add_word("ephemeral".to_string());
    dictionary.remove_word("Ephemeral".to_string());
    assert!(dictionary.lookup("ephemeral".to_string()).is_none());
    assert_eq!(dictionary.total_words(), 0);
}

#[test]
fn remove_proper_nouns_clears_only_names() {
    let mut dictionary = Dictionary::new(Language::English);
    dictionary.add_word("common".to_string());
    dictionary.add_proper_noun("Smith".to_string());
    dictionary.add_proper_noun("Jones".to_string());
    dictionary.remove_proper_nouns();
    assert_eq!(dictionary.get_proper_nouns().len(), 0);
    assert_eq!(dictionary.total_words(), 1);
    assert_eq!(dictionary.get_language(), Language::English);
}

#[test]
fn exporter_lists_words_then_names() {
    let mut dictionary = Dictionary::new(Language::English);
    dictionary.add_word("word".to_string());
    dictionary.add_proper_noun("Name".to_string());
    let exporter = DictionaryExporter::new();
    assert_eq!(
        exporter.export_words(&dictionary),
        vec!["word".to_string(), "Name".to_string()]
    );
}
