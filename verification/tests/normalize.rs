use pinyin::{pinyin_char_normalize, pinyin_word_normalize, pinyin_word_normalize_tokens,
    pinyin_word_normalize_with_tokenizer, DictionarySnapshot};

fn seed_snapshot(version: i64) -> DictionarySnapshot {
    let char_entries: Vec<(String, String)> = vec![
        (" ".to_string(), " ".to_string()),
        ("我".to_string(), "|wo|".to_string()),
        ("们".to_string(), "|men|".to_string()),
        ("重".to_string(), "|tong|zhong|chong|".to_string()),
        ("起".to_string(), "|qi|".to_string()),
        ("郑".to_string(), "|zheng|".to_string()),
        ("爽".to_string(), "|shuang|".to_string()),
    ];
    let word_entries: Vec<(String, String)> =
        vec![("郑爽".to_string(), "|zheng| |shuang|".to_string())];
    DictionarySnapshot::new(version, &char_entries, &word_entries)
}

#[test]
fn test_pinyin_char_normalize() {
    let snap = seed_snapshot(1);
    assert_eq!(pinyin_char_normalize("我ABC们123", &snap), "wo abc men 123");
}

#[test]
fn test_pinyin_word_normalize() {
    let snap = seed_snapshot(1);
    assert_eq!(pinyin_word_normalize("郑爽ABC", &snap), "zheng shuang abc");
}

#[test]
fn test_pinyin_word_normalize_with_tokenizer_passthrough() {
    let snap = seed_snapshot(1);
    let tokens: Vec<String> = vec!["郑爽".to_string(), "ABC".to_string()];
    assert_eq!(pinyin_word_normalize_tokens(&tokens, &snap), "zheng shuang abc");
}

#[test]
fn test_polyphone_first_reading() {
    let snap = seed_snapshot(1);
    assert_eq!(pinyin_char_normalize("重起", &snap), "tong qi");
}

#[test]
fn test_tokenizer_json_input() {
    let snap = seed_snapshot(1);
    let json = "[\"郑爽\", \"ABC\"]";
    assert_eq!(pinyin_word_normalize_with_tokenizer(json, &snap), "zheng shuang abc");
}

#[test]
fn test_tokenizer_fallback_to_text() {
    let snap = seed_snapshot(1);
    // Not a JSON array of strings: falls back to word-mode text handling.
    assert_eq!(pinyin_word_normalize_with_tokenizer("郑爽ABC", &snap), "zheng shuang abc");
}

#[test]
fn test_tokenizer_tokens_trimmed_and_lowercased() {
    let snap = seed_snapshot(1);
    let tokens: Vec<String> =
        vec!["  郑爽 ".to_string(), "   ".to_string(), "AbC9".to_string()];
    assert_eq!(pinyin_word_normalize_tokens(&tokens, &snap), "zheng shuang abc9");
}

#[test]
fn test_char_normalize_empty_input() {
    let snap = seed_snapshot(1);
    assert_eq!(pinyin_char_normalize("", &snap), "");
    assert_eq!(pinyin_word_normalize("", &snap), "");
}

#[test]
fn test_unknown_symbols_collapse_to_single_separator() {
    let snap = seed_snapshot(1);
    assert_eq!(pinyin_char_normalize("我!!??们", &snap), "wo men");
    assert_eq!(pinyin_char_normalize("  我   们  ", &snap), "wo men");
}

#[test]
fn test_ascii_is_lowercased_and_kept() {
    let snap = seed_snapshot(1);
    assert_eq!(pinyin_char_normalize("HeLLo WoRLD 42", &snap), "hello world 42");
}

#[test]
fn test_char_normalize_fixed_point_on_canonical_text() {
    let snap = seed_snapshot(1);
    let once = pinyin_char_normalize("我ABC们123", &snap);
    let twice = pinyin_char_normalize(&once, &snap);
    assert_eq!(once, twice);
}

#[test]
fn test_output_has_no_exotic_whitespace_or_double_spaces() {
    let snap = seed_snapshot(1);
    let inputs = ["我\t们\n重  起", "a\t\tb", "\n\n", "重\u{3000}起", "x\r\ny"];
    for input in inputs.iter() {
        for out in [pinyin_char_normalize(input, &snap), pinyin_word_normalize(input, &snap)] {
            assert!(!out.contains('\t'));
            assert!(!out.contains('\n'));
            assert!(!out.contains("  "));
        }
    }
}

#[test]
fn test_longest_match_beats_single_character() {
    // Both a single-character mapping for the first character and a
    // two-character word sharing it: the word's reading must win.
    let char_entries: Vec<(String, String)> = vec![
        ("郑".to_string(), "|zheng|".to_string()),
        ("爽".to_string(), "|shuang|".to_string()),
    ];
    let word_entries: Vec<(String, String)> =
        vec![("郑爽".to_string(), "|zhengshuang|".to_string())];
    let snap = DictionarySnapshot::new(1, &char_entries, &word_entries);
    assert_eq!(pinyin_word_normalize("郑爽", &snap), "zhengshuang");
    // Character mode ignores the word map.
    assert_eq!(pinyin_char_normalize("郑爽", &snap), "zheng shuang");
}

#[test]
fn test_word_hit_on_single_token_entry() {
    let char_entries: Vec<(String, String)> = vec![("我".to_string(), "|wo|".to_string())];
    let word_entries: Vec<(String, String)> = vec![("我".to_string(), "|word wo|".to_string())];
    let snap = DictionarySnapshot::new(1, &char_entries, &word_entries);
    assert_eq!(pinyin_word_normalize("我", &snap), "word wo");
}

#[test]
fn test_unknown_character_becomes_separator_in_text_mode() {
    let snap = seed_snapshot(1);
    assert_eq!(pinyin_word_normalize("我们他", &snap), "wo men");
}

#[test]
fn test_unknown_token_passes_through_in_token_mode() {
    let snap = seed_snapshot(1);
    let tokens: Vec<String> = vec!["他".to_string(), "我".to_string()];
    assert_eq!(pinyin_word_normalize_tokens(&tokens, &snap), "他 wo");
}

#[test]
fn test_polyphone_codec_directly() {
    let raw = pinyin::chars_vec("tong|zhong|chong");
    let first = pinyin::codec::first_reading_vec(&raw);
    assert_eq!(pinyin::string_of(&first), "tong");

    let piped = pinyin::chars_vec("|TONG|zhong|");
    let first2 = pinyin::codec::first_reading_vec(&piped);
    assert_eq!(pinyin::string_of(&first2), "tong");

    let phrase = pinyin::chars_vec("|zheng| |shuang|");
    let norm = pinyin::codec::normalize_phrase_vec(&phrase);
    assert_eq!(pinyin::string_of(&norm), "zheng shuang");
}

#[test]
fn test_char_normalize_of_mixed_word_text() {
    // The value a stored generated column computes in the database host.
    let snap = seed_snapshot(1);
    assert_eq!(pinyin_char_normalize("郑爽ABC", &snap), "zheng shuang abc");
}

#[test]
fn test_empty_reading_uses_literal_text() {
    // An empty raw reading means the literal text is its own reading.
    let char_entries: Vec<(String, String)> = vec![
        ("我".to_string(), "".to_string()),
        ("们".to_string(), "|men|".to_string()),
    ];
    let word_entries: Vec<(String, String)> = vec![("郑爽".to_string(), "".to_string())];
    let snap = DictionarySnapshot::new(1, &char_entries, &word_entries);
    assert_eq!(pinyin_char_normalize("我们", &snap), "我 men");
    assert_eq!(pinyin_word_normalize("我们", &snap), "我 men");
}

#[test]
fn test_empty_word_reading_uses_literal_word() {
    let char_entries: Vec<(String, String)> = vec![
        ("郑".to_string(), "|zheng|".to_string()),
        ("爽".to_string(), "|shuang|".to_string()),
    ];
    let word_entries: Vec<(String, String)> = vec![("郑爽".to_string(), "".to_string())];
    let snap = DictionarySnapshot::new(1, &char_entries, &word_entries);
    // The longest match still wins; its empty reading resolves to the
    // matched word text itself.
    assert_eq!(pinyin_word_normalize("郑爽", &snap), "郑爽");
}
