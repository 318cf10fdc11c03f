//! An incremental dictionary builder: lines of raw text are tokenized
//! into words and proper-noun candidates, deduplicated and counted in a
//! language-scoped dictionary, and each word can be resolved once into a
//! definitions structure through a pluggable definer.

pub mod dictionary;
pub mod dictionary_creator;
pub mod dictionary_definer;
pub mod dictionary_manager;
pub mod dictionary_entry;
pub mod dictionary_exporter;
pub mod dictionary_language;
pub mod dictionary_types;
pub mod regex_parser;
pub mod text;
pub mod tokenizer;
