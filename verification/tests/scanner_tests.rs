use jsonparse::scanner::{decimal_value, JsonToken, ScanError, Scanner};

#[test]
fn test_scan_string() {
    let json = r#""foo""#;
    let scanner = Scanner::new(json.into());
    let tokens = scanner.scan_tokens().expect("should be successful");

    assert_eq!(
        &tokens,
        &[JsonToken::String(String::from("foo")), JsonToken::Eof]
    );
}

#[test]
fn test_scan_string_error() {
    let json = r#""foo"#;
    let scanner = Scanner::new(json.into());
    let ret = scanner.scan_tokens();

    assert!(matches!(ret, Err(ScanError::UnexpectedEof)));
}

#[test]
fn test_scan_number1() {
    let json = r#"42"#;
    let scanner = Scanner::new(json.into());
    let tokens = scanner.scan_tokens().unwrap();

    assert_eq!(&tokens, &[JsonToken::Number(42), JsonToken::Eof]);
}

#[test]
fn test_scan_number2() {
    let json = r#"42,"#;
    let scanner = Scanner::new(json.into());
    let tokens = scanner.scan_tokens().unwrap();

    assert_eq!(
        &tokens,
        &[JsonToken::Number(42), JsonToken::Comma, JsonToken::Eof]
    );
}

fn scan(text: &str) -> Result<Vec<JsonToken>, ScanError> {
    Scanner::new(text.to_string()).scan_tokens()
}

#[test]
fn scan_empty_input_is_end_marker_only() {
    assert_eq!(scan("").unwrap(), vec![JsonToken::Eof]);
}

#[test]
fn scan_punctuation() {
    assert_eq!(
        scan("{}[]:,").unwrap(),
        vec![
            JsonToken::LeftBrace,
            JsonToken::RightBrace,
            JsonToken::LeftSquareBracket,
            JsonToken::RightSquareBracket,
            JsonToken::Colon,
            JsonToken::Comma,
            JsonToken::Eof,
        ]
    );
}

#[test]
fn scan_skips_blanks() {
    assert_eq!(
        scan(" \t\r\n1 \n 2\t").unwrap(),
        vec![JsonToken::Number(1), JsonToken::Number(2), JsonToken::Eof]
    );
}

#[test]
fn scan_null_keyword() {
    assert_eq!(
        scan("null,null").unwrap(),
        vec![JsonToken::Null, JsonToken::Comma, JsonToken::Null, JsonToken::Eof]
    );
}

#[test]
fn scan_broken_null_keyword() {
    assert_eq!(
        scan(" nul").unwrap_err(),
        ScanError::SyntaxError { unit: b'n', position: 1 }
    );
    assert_eq!(
        scan("nulx").unwrap_err(),
        ScanError::SyntaxError { unit: b'n', position: 0 }
    );
}

#[test]
fn scan_unexpected_character_reports_unit_and_position() {
    assert_eq!(
        scan("[1, x]").unwrap_err(),
        ScanError::SyntaxError { unit: b'x', position: 4 }
    );
    assert_eq!(
        scan("-1").unwrap_err(),
        ScanError::SyntaxError { unit: b'-', position: 0 }
    );
}

#[test]
fn scan_form_feed_is_no_blank() {
    assert_eq!(
        scan("\u{c}").unwrap_err(),
        ScanError::SyntaxError { unit: 0x0c, position: 0 }
    );
}

#[test]
fn scan_number_largest() {
    assert_eq!(
        scan("18446744073709551615").unwrap(),
        vec![JsonToken::Number(u64::MAX), JsonToken::Eof]
    );
}

#[test]
fn scan_number_leading_zeros() {
    assert_eq!(
        scan("007").unwrap(),
        vec![JsonToken::Number(7), JsonToken::Eof]
    );
}

#[test]
fn scan_number_overflow() {
    assert_eq!(scan("18446744073709551616").unwrap_err(), ScanError::Number);
    assert_eq!(scan("[99999999999999999999999]").unwrap_err(), ScanError::Number);
}

#[test]
fn scan_number_stops_at_first_non_digit() {
    assert_eq!(
        scan("12]").unwrap(),
        vec![
            JsonToken::Number(12),
            JsonToken::RightSquareBracket,
            JsonToken::Eof
        ]
    );
}

#[test]
fn scan_empty_string() {
    assert_eq!(
        scan("\"\"").unwrap(),
        vec![JsonToken::String(String::new()), JsonToken::Eof]
    );
}

#[test]
fn scan_string_keeps_escapes_as_written() {
    assert_eq!(
        scan(r#""a\"b""#).unwrap(),
        vec![JsonToken::String(String::from(r#"a\"b"#)), JsonToken::Eof]
    );
    assert_eq!(
        scan(r#""a\\",1"#).unwrap(),
        vec![
            JsonToken::String(String::from(r#"a\\"#)),
            JsonToken::Comma,
            JsonToken::Number(1),
            JsonToken::Eof
        ]
    );
}

#[test]
fn scan_string_escaped_quote_does_not_close() {
    assert_eq!(scan(r#""a\""#).unwrap_err(), ScanError::UnexpectedEof);
    assert_eq!(scan(r#""a\"#).unwrap_err(), ScanError::UnexpectedEof);
}

#[test]
fn scan_string_with_wide_characters() {
    assert_eq!(
        scan("\"h\u{e9}llo \u{1f600}\"").unwrap(),
        vec![
            JsonToken::String(String::from("h\u{e9}llo \u{1f600}")),
            JsonToken::Eof
        ]
    );
}

#[test]
fn scan_wide_character_outside_string() {
    assert_eq!(
        scan("\u{e9}").unwrap_err(),
        ScanError::SyntaxError { unit: 0xc3, position: 0 }
    );
}

#[test]
fn scanner_from_bytes_accepts_text() {
    let scanner = Scanner::from_bytes(b"[1]".to_vec()).unwrap();
    assert_eq!(
        scanner.scan_tokens().unwrap(),
        vec![
            JsonToken::LeftSquareBracket,
            JsonToken::Number(1),
            JsonToken::RightSquareBracket,
            JsonToken::Eof
        ]
    );
}

#[test]
fn scanner_from_bytes_rejects_bad_encoding() {
    let made = Scanner::from_bytes(vec![b'"', 0xff, b'"']);
    assert!(matches!(made, Err(ScanError::InvalidEncoding)));
}

#[test]
fn scanner_steps_one_token_at_a_time() {
    let mut scanner = Scanner::new(String::from("7 ,"));
    assert_eq!(scanner.peek(), Some(b'7'));
    assert_eq!(scanner.peekn(3), Some(&b"7 ,"[..]));
    assert_eq!(scanner.peekn(4), None);
    assert!(!scanner.is_at_end());
    assert_eq!(scanner.scan_token(), Ok(()));
    assert_eq!(scanner.peek(), Some(b' '));
    assert_eq!(scanner.scan_token(), Ok(()));
    assert_eq!(scanner.advance(), Some(b','));
    assert_eq!(scanner.advance(), None);
    assert!(scanner.is_at_end());
    assert_eq!(scanner.peek(), None);
    assert_eq!(scanner.scan_token(), Ok(()));
    assert_eq!(
        scanner.scan_tokens().unwrap(),
        vec![JsonToken::Number(7), JsonToken::Eof]
    );
}

#[test]
fn scanner_string_and_number_steps() {
    let mut scanner = Scanner::new(String::from("\"ab\"123x"));
    assert_eq!(scanner.advance(), Some(b'"'));
    assert_eq!(scanner.string(), Ok(()));
    assert_eq!(scanner.peek(), Some(b'1'));
    assert_eq!(scanner.number(), Err(ScanError::Number));
    let mut scanner = Scanner::new(String::from("123x"));
    assert_eq!(scanner.number(), Ok(()));
    assert_eq!(scanner.peek(), Some(b'x'));
}

#[test]
fn token_equality_and_clone() {
    let token = JsonToken::String(String::from("k"));
    assert_eq!(token.clone(), token);
    assert_ne!(token, JsonToken::String(String::from("j")));
    assert_ne!(JsonToken::Number(1), JsonToken::Number(2));
    assert_ne!(JsonToken::Null, JsonToken::Eof);
    assert_eq!(JsonToken::Colon.clone(), JsonToken::Colon);
}

#[test]
fn decimal_value_of_digit_runs() {
    assert_eq!(decimal_value(b"0"), Some(0));
    assert_eq!(decimal_value(b"1234567890"), Some(1234567890));
    assert_eq!(decimal_value(b"18446744073709551615"), Some(u64::MAX));
    assert_eq!(decimal_value(b"18446744073709551616"), None);
    assert_eq!(decimal_value(b""), None);
    assert_eq!(decimal_value(b"12a"), None);
    assert_eq!(decimal_value(b"+12"), None);
}

#[test]
fn scanner_string_without_consumed_quote() {
    let mut scanner = Scanner::new(String::from("ab\"12"));
    assert_eq!(scanner.string(), Ok(()));
    assert_eq!(scanner.peek(), Some(b'1'));
    assert_eq!(
        scanner.scan_tokens().unwrap(),
        vec![
            JsonToken::String(String::from("b")),
            JsonToken::Number(12),
            JsonToken::Eof
        ]
    );
}
