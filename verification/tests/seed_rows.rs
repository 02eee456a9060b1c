use pinyin::{i16_to_decimal, parse_embedded_string_rows, parse_embedded_token_rows,
    sql_literal, string_rows_values_clause, token_rows_values_clause, CsvError};

#[test]
fn test_parse_string_rows_basic() {
    let rows = parse_embedded_string_rows("我,|wo|\n们,|men|\n").unwrap();
    assert_eq!(rows, vec![
        ("我".to_string(), "|wo|".to_string()),
        ("们".to_string(), "|men|".to_string()),
    ]);
}

#[test]
fn test_parse_string_rows_skips_blank_lines_and_strips_cr() {
    let rows = parse_embedded_string_rows("a,1\r\n\r\n\nb,2").unwrap();
    assert_eq!(rows, vec![("a".to_string(), "1".to_string()), ("b".to_string(), "2".to_string())]);
}

#[test]
fn test_parse_string_rows_splits_at_first_comma() {
    let rows = parse_embedded_string_rows("k,v1,v2").unwrap();
    assert_eq!(rows, vec![("k".to_string(), "v1,v2".to_string())]);
}

#[test]
fn test_parse_string_rows_missing_comma() {
    let err = parse_embedded_string_rows("a,1\nno-comma-here\nb,2").unwrap_err();
    assert_eq!(err, CsvError::MissingComma { line: 2 });
}

#[test]
fn test_parse_token_rows_basic() {
    let rows = parse_embedded_token_rows("我,1\n们,2\n重,3\n").unwrap();
    assert_eq!(rows, vec![
        ("我".to_string(), 1i16),
        ("们".to_string(), 2i16),
        ("重".to_string(), 3i16),
    ]);
}

#[test]
fn test_parse_token_rows_signs_and_bounds() {
    let rows = parse_embedded_token_rows("a,+5\nb,-32768\nc,32767\nd,007").unwrap();
    assert_eq!(rows, vec![
        ("a".to_string(), 5i16),
        ("b".to_string(), -32768i16),
        ("c".to_string(), 32767i16),
        ("d".to_string(), 7i16),
    ]);
}

#[test]
fn test_parse_token_rows_bad_category() {
    let err = parse_embedded_token_rows("a,1\nb,notanumber").unwrap_err();
    assert_eq!(err, CsvError::BadCategory { line: 2 });

    let err2 = parse_embedded_token_rows("a,32768").unwrap_err();
    assert_eq!(err2, CsvError::BadCategory { line: 1 });

    let err3 = parse_embedded_token_rows("a,").unwrap_err();
    assert_eq!(err3, CsvError::BadCategory { line: 1 });

    let err4 = parse_embedded_token_rows("a,1.5").unwrap_err();
    assert_eq!(err4, CsvError::BadCategory { line: 1 });
}

#[test]
fn test_sql_literal_quotes_and_escapes() {
    assert_eq!(sql_literal("abc"), "'abc'");
    assert_eq!(sql_literal(""), "''");
    assert_eq!(sql_literal("it's"), "'it''s'");
    assert_eq!(sql_literal("''"), "''''''");
}

#[test]
fn test_values_clause_for_bulk_insert() {
    let rows: Vec<(String, String)> = vec![
        ("我".to_string(), "|wo|".to_string()),
        ("it's".to_string(), "v".to_string()),
    ];
    assert_eq!(string_rows_values_clause(&rows), "('我', '|wo|'),('it''s', 'v')");

    let empty: Vec<(String, String)> = Vec::new();
    assert_eq!(string_rows_values_clause(&empty), "");
}

#[test]
fn test_token_values_clause_for_bulk_insert() {
    let rows: Vec<(String, i16)> = vec![
        ("我".to_string(), 1i16),
        ("it's".to_string(), -23i16),
    ];
    assert_eq!(token_rows_values_clause(&rows), "('我', 1),('it''s', -23)");
}

#[test]
fn test_i16_decimal_formatting() {
    let cases: [(i16, &str); 6] =
        [(0, "0"), (7, "7"), (10, "10"), (-1, "-1"), (32767, "32767"), (-32768, "-32768")];
    for (v, expected) in cases.iter() {
        let cs = i16_to_decimal(*v);
        assert_eq!(pinyin::string_of(&cs), *expected);
    }
}
