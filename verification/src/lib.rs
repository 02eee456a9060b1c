//! Dictionary-backed pinyin normalization: a text splitter, a reading codec,
//! a versioned dictionary snapshot with a coherence-checked cache, and a
//! greedy longest-match segmentation engine.

pub mod codec;
pub mod entry;
pub mod dict;
pub mod laws;
pub mod plain;
pub mod seed;
pub mod segment;
pub mod splitter;
pub mod text;
pub mod tokenlist;

pub use dict::{DictionaryCache, DictionaryError, DictionarySnapshot, StrMap,
    effective_version, load_dictionary_snapshot};
pub use entry::{pinyin_char_normalize, pinyin_word_normalize, pinyin_word_normalize_tokens,
    pinyin_word_normalize_with_tokenizer};
pub use seed::{CsvError, i16_to_decimal, parse_embedded_string_rows,
    parse_embedded_token_rows, sql_literal, string_rows_values_clause,
    token_rows_values_clause};
pub use text::{chars_vec, string_of};
