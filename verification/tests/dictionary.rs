use pinyin::{pinyin_char_normalize, DictionaryCache, DictionarySnapshot, effective_version};

fn snapshot_with(version: i64, wo_reading: &str) -> DictionarySnapshot {
    let char_entries: Vec<(String, String)> =
        vec![("我".to_string(), wo_reading.to_string())];
    let word_entries: Vec<(String, String)> = Vec::new();
    DictionarySnapshot::new(version, &char_entries, &word_entries)
}

#[test]
fn test_dictionary_update_reflected() {
    let mut cache = DictionaryCache::new();

    // First call: version 1 is current; nothing loaded yet, so reload.
    assert!(cache.needs_reload(1));
    cache.install_if_stale(snapshot_with(1, "|wo|"), 1);
    let before = pinyin_char_normalize("我", cache.current());
    assert_eq!(before, "wo");

    // The store mutates: the reading changes and the version bumps to 2.
    // The next call observes version 2 and must reload.
    assert!(cache.needs_reload(2));
    cache.install_if_stale(snapshot_with(2, "|wo2|"), 2);
    let after = pinyin_char_normalize("我", cache.current());
    assert_eq!(after, "wo2");

    // No further mutation: the fast path serves the cached snapshot.
    assert!(!cache.needs_reload(2));
    assert_eq!(pinyin_char_normalize("我", cache.current()), "wo2");
}

#[test]
fn test_install_if_stale_keeps_current_snapshot() {
    let mut cache = DictionaryCache::new();
    cache.install_if_stale(snapshot_with(3, "|wo|"), 3);

    // A racing reload fetched its own snapshot of the same version; the
    // re-check sees the cache already current and keeps what is installed.
    cache.install_if_stale(snapshot_with(3, "|other|"), 3);
    assert_eq!(pinyin_char_normalize("我", cache.current()), "wo");
}

#[test]
fn test_version_query_failure_degrades_to_zero() {
    assert_eq!(effective_version(Some(7)), 7);
    assert_eq!(effective_version(None), 0);

    // With nothing loaded, version 0 still forces a reload attempt.
    let cache = DictionaryCache::new();
    assert!(cache.needs_reload(0));
}

#[test]
fn test_snapshot_tracks_longest_word_key() {
    let char_entries: Vec<(String, String)> = Vec::new();
    let word_entries: Vec<(String, String)> = vec![
        ("郑爽".to_string(), "|zheng| |shuang|".to_string()),
        ("郑爽我们".to_string(), "x".to_string()),
    ];
    let snap = DictionarySnapshot::new(1, &char_entries, &word_entries);
    assert_eq!(snap.max_word_len, 4);

    let empty: Vec<(String, String)> = Vec::new();
    let bare = DictionarySnapshot::new(1, &empty, &empty);
    assert_eq!(bare.max_word_len, 0);
}

#[test]
fn test_later_entries_override_earlier_ones() {
    let char_entries: Vec<(String, String)> = vec![
        ("我".to_string(), "|old|".to_string()),
        ("我".to_string(), "|new|".to_string()),
    ];
    let word_entries: Vec<(String, String)> = Vec::new();
    let snap = DictionarySnapshot::new(1, &char_entries, &word_entries);
    assert_eq!(pinyin_char_normalize("我", &snap), "new");
}

#[test]
fn test_load_snapshot_from_json() {
    let snap = pinyin::load_dictionary_snapshot(
        2,
        "{\"\u{6211}\": \"|wo|\", \"\u{4eec}\": \"|men|\"}",
        "{}",
    )
    .unwrap();
    assert_eq!(pinyin_char_normalize("我们", &snap), "wo men");
}

#[test]
fn test_load_snapshot_from_malformed_json_fails_loudly() {
    // A dictionary text that does not parse aborts the fetch: no
    // silently-empty-dictionary fallback.
    let err = pinyin::load_dictionary_snapshot(2, "not json", "{}").unwrap_err();
    assert_eq!(err, pinyin::DictionaryError::DictionaryUnavailable);
    let err2 = pinyin::load_dictionary_snapshot(2, "{}", "[1, 2]").unwrap_err();
    assert_eq!(err2, pinyin::DictionaryError::DictionaryUnavailable);
}

#[test]
fn test_load_snapshot_from_empty_tables() {
    // Empty tables aggregate to an empty object: a genuinely empty
    // dictionary is valid, not an error.
    let snap = pinyin::load_dictionary_snapshot(2, "{}", "{}").unwrap();
    assert_eq!(snap.max_word_len, 0);
    assert_eq!(pinyin_char_normalize("我们", &snap), "");
}
