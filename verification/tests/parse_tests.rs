//! Tests for the token parser: scalars, arrays, objects, unescaping and the
//! structural error taxonomy.
use json_parser::parse::{parse_tokens, unescape_string, TokenParseError};
use json_parser::tokenize::Token;
use json_parser::Value;

fn check(tokens: Vec<Token>, expected: Value) {
    let (actual, _) = parse_tokens(&tokens, 0).unwrap();

    assert_eq!(actual, expected)
}

fn check_err(tokens: Vec<Token>, expected: TokenParseError) {
    let actual = parse_tokens(&tokens, 0).unwrap_err();

    assert_eq!(actual, expected)
}

#[test]
fn parses_null() {
    let input = vec![Token::Null];
    let expected = Value::Null;

    check(input, expected)
}

#[test]
fn parses_true() {
    let input = vec![Token::True];
    let expected = Value::Boolean(true);

    check(input, expected)
}

#[test]
fn parses_false() {
    let input = vec![Token::False];
    let expected = Value::Boolean(false);

    check(input, expected)
}

#[test]
fn parses_number() {
    let input = vec![Token::Number("14".to_string())];
    let expected = Value::Number("14".to_string());

    check(input, expected);
}

#[test]
fn parses_string_non_ascii() {
    let input = vec![Token::String("urrr madddd".to_string())];
    let expected = Value::String(String::from("urrr madddd"));

    check(input, expected);
}

#[test]
fn parses_string_with_emoji() {
    let input = vec![Token::String("💩💩💩💩💩".to_string())];
    let expected = Value::String(String::from("💩💩💩💩💩"));

    check(input, expected);
}

#[test]
fn parses_string_unescape_backslash() {
    let input = vec![Token::String(r#"hello\\world"#.into())];
    // the doubled backslash in the payload unescapes to a single one
    let expected = Value::String("hello\\world".into());

    check(input, expected);
}

#[test]
fn parses_array_one_element() {
    let input = vec![Token::LeftBracket, Token::True, Token::RightBracket];
    let expected = Value::Array(vec![Value::Boolean(true)]);

    check(input, expected);
}

#[test]
fn parses_array_two_elements() {
    let input = vec![
        Token::LeftBracket,
        Token::Null,
        Token::Comma,
        Token::Number("16".to_string()),
        Token::RightBracket,
    ];
    let expected = Value::Array(vec![Value::Null, Value::Number("16".to_string())]);

    check(input, expected)
}

#[test]
fn parses_empty_array() {
    let input = vec![Token::LeftBracket, Token::RightBracket];
    let expected = Value::Array(vec![]);

    check(input, expected)
}

#[test]
fn parse_nested_array() {
    let input = vec![
        Token::LeftBracket,
        Token::Null,
        Token::Comma,
        Token::Number("16".to_string()),
        Token::Comma,
        Token::LeftBracket,
        Token::Null,
        Token::Comma,
        Token::Number("16".to_string()),
        Token::RightBracket,
        Token::Comma,
        Token::Null,
        Token::RightBracket,
    ];

    let expected = Value::Array(vec![
        Value::Null,
        Value::Number("16".to_string()),
        Value::Array(vec![Value::Null, Value::Number("16".to_string())]),
        Value::Null,
    ]);

    check(input, expected);
}

#[test]
fn parse_empty_object() {
    let input = vec![Token::LeftBrace, Token::RightBrace];
    let expected = Value::Object(vec![]);

    check(input, expected)
}

#[test]
fn parse_object() {
    let input = vec![
        Token::LeftBrace,
        Token::String("ASPNETCORE_ENVIRONMENT".into()),
        Token::Colon,
        Token::String("Development".into()),
        Token::RightBrace,
    ];

    let expected = Value::Object(vec![(
        "ASPNETCORE_ENVIRONMENT".into(),
        Value::String("Development".into()),
    )]);

    check(input, expected)
}

#[test]
fn parse_object_with_escaped_chars() {
    let input = vec![
        Token::LeftBrace,
        Token::String("key".to_string()),
        Token::Colon,
        Token::String("value with \\\"quotes\\\" and \\n newline".to_string()),
        Token::RightBrace,
    ];

    let expected = Value::Object(vec![(
        "key".to_string(),
        Value::String("value with \"quotes\" and \n newline".to_string()),
    )]);

    check(input, expected);
}

// unescaping

#[test]
fn unescape_named_escapes() {
    let out = unescape_string(r#"a\"b\\c\bd\fe\nf\rg\th"#).unwrap();

    assert_eq!(out, "a\"b\\c\u{8}d\u{c}e\nf\rg\th");
}

#[test]
fn unescape_hex_digits_exactly() {
    let out = unescape_string(r#"\u0041\u00e9\u20ac"#).unwrap();

    assert_eq!(out, "A\u{e9}\u{20ac}");
}

#[test]
fn unescape_unknown_escape_is_copied() {
    let out = unescape_string(r#"\q"#).unwrap();

    assert_eq!(out, "q");
}

#[test]
fn unescape_trailing_backslash_is_dropped() {
    let out = unescape_string("abc\\").unwrap();

    assert_eq!(out, "abc");
}

#[test]
fn unescape_short_escape() {
    let err = unescape_string(r#"\u12"#).unwrap_err();

    assert_eq!(err, TokenParseError::UnfinishedEscape);
}

#[test]
fn unescape_bad_hex() {
    let err = unescape_string(r#"\uZ123"#).unwrap_err();

    assert_eq!(err, TokenParseError::InvalidHexValue);
}

#[test]
fn unescape_surrogate_half_is_rejected() {
    let err = unescape_string(r#"\uD83D"#).unwrap_err();

    assert_eq!(err, TokenParseError::InvalidCodePointValue);
}

// structural errors

#[test]
fn missing_comma_in_array() {
    let input = vec![
        Token::LeftBracket,
        Token::Null,
        Token::Null,
        Token::RightBracket,
    ];

    check_err(input, TokenParseError::ExpectedComma);
}

#[test]
fn object_key_must_be_string() {
    let input = vec![
        Token::LeftBrace,
        Token::Number("1".to_string()),
        Token::Colon,
        Token::Null,
        Token::RightBrace,
    ];

    check_err(input, TokenParseError::ExpectedProperty);
}

#[test]
fn object_key_needs_colon() {
    let input = vec![
        Token::LeftBrace,
        Token::String("a".to_string()),
        Token::Null,
        Token::RightBrace,
    ];

    check_err(input, TokenParseError::ExpectedColon);
}

#[test]
fn stray_token_is_rejected() {
    let input = vec![Token::Comma];

    check_err(input, TokenParseError::UnexpectedToken);
}

#[test]
fn open_array_at_end_of_tokens() {
    let input = vec![Token::LeftBracket];

    check_err(input, TokenParseError::UnexpectedEndOfTokens);
}

#[test]
fn empty_token_sequence() {
    let input = vec![];

    check_err(input, TokenParseError::UnexpectedEndOfTokens);
}

#[test]
fn trailing_comma_in_array_is_rejected() {
    let input = vec![
        Token::LeftBracket,
        Token::Null,
        Token::Comma,
        Token::RightBracket,
    ];

    check_err(input, TokenParseError::UnexpectedToken);
}

#[test]
fn trailing_comma_in_object_is_rejected() {
    let input = vec![
        Token::LeftBrace,
        Token::String("a".to_string()),
        Token::Colon,
        Token::Null,
        Token::Comma,
        Token::RightBrace,
    ];

    check_err(input, TokenParseError::ExpectedProperty);
}
