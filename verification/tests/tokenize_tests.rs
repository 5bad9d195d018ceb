//! Tests for the tokenizer: token shapes, the number grammar, strings and
//! the lexical error taxonomy.
use json_parser::tokenize::{tokenize, Token, TokenizeError};

// int
#[test]
fn integer() {
    let input = String::from("123");
    let expected = [Token::Number("123".to_string())];

    let actual = tokenize(input).unwrap();

    assert_eq!(actual, expected)
}

#[test]
fn negative_integer() {
    let input = String::from("-123");
    let expected = [Token::Number("-123".to_string())];

    let actual = tokenize(input).unwrap();

    assert_eq!(actual, expected)
}

#[test]
fn double_negative_integer() {
    let input = String::from("--123");
    // the scanner stops after the first minus sign; the lone "-" is no float
    // literal and is reported with the literal text it gathered
    let expected = TokenizeError::ParseNumberError("-".to_string());

    let actual = tokenize(input).unwrap_err();

    assert_eq!(actual, expected)
}

#[test]
fn double_zero() {
    let input = String::from("00");
    let expected = TokenizeError::InvalidNumber("Invalid number provided.".to_string());

    let actual = tokenize(input).unwrap_err();

    assert_eq!(actual, expected)
}

#[test]
fn neagtive_double_zero() {
    let input = String::from("-00");
    let expected = TokenizeError::InvalidNumber("Invalid number provided.".to_string());

    let actual = tokenize(input).unwrap_err();

    assert_eq!(actual, expected)
}

// string
#[test]
fn string() {
    let input = String::from("\"string\"");
    let expected = [Token::String("string".to_string())];

    let actual = tokenize(input).unwrap();

    assert_eq!(actual, expected)
}

#[test]
fn unclosed_quotes() {
    let input = String::from("\"string");
    let expected = TokenizeError::UnclosedQuotes;

    let actual = tokenize(input).unwrap_err();

    assert_eq!(actual, expected)
}

// decimal
#[test]
fn decimal() {
    let input = String::from("0.88");
    let expected = [Token::Number("0.88".to_string())];

    let actual = tokenize(input).unwrap();

    assert_eq!(actual, expected)
}

#[test]
fn negative_decimal() {
    let input = String::from("-0.88");
    let expected = [Token::Number("-0.88".to_string())];

    let actual = tokenize(input).unwrap();

    assert_eq!(actual, expected)
}

// exponent
#[test]
fn exponent() {
    let input = String::from("0.5e2");
    let expected = [Token::Number("0.5e2".to_string())];

    let actual = tokenize(input).unwrap();

    assert_eq!(actual, expected)
}

#[test]
fn negative_exponent() {
    let input = String::from("-0.5e2");
    let expected = [Token::Number("-0.5e2".to_string())];

    let actual = tokenize(input).unwrap();

    assert_eq!(actual, expected)
}

// punctuation
#[test]
fn just_comma() {
    let input = String::from(",");
    let expected = [Token::Comma];

    let actual = tokenize(input).unwrap();

    assert_eq!(actual, expected);
}

#[test]
fn all_punctuation() {
    let input = String::from("[{]},:");
    let expected = [
        Token::LeftBracket,
        Token::LeftBrace,
        Token::RightBracket,
        Token::RightBrace,
        Token::Comma,
        Token::Colon,
    ];

    let actual = tokenize(input).unwrap();

    assert_eq!(actual, expected);
}

// bool
#[test]
fn just_null() {
    let input = String::from("null");
    let expected = [Token::Null];

    let actual = tokenize(input).unwrap();

    assert_eq!(actual, expected);
}

#[test]
fn just_true() {
    let input = String::from("true");
    let expected = [Token::True];

    let actual = tokenize(input).unwrap();

    assert_eq!(actual, expected);
}

#[test]
fn just_false() {
    let input = String::from("false");
    let expected = [Token::False];

    let actual = tokenize(input).unwrap();

    assert_eq!(actual, expected);
}

#[test]
fn true_comma() {
    let input = String::from("true,");
    let expected = [Token::True, Token::Comma];

    let actual = tokenize(input).unwrap();

    assert_eq!(actual, expected);
}

// further lexical behaviour

#[test]
fn unfinished_literal() {
    let input = String::from("tru");
    let expected = TokenizeError::UnfinishedLiteralValue;

    let actual = tokenize(input).unwrap_err();

    assert_eq!(actual, expected);
}

#[test]
fn unrecognized_character() {
    let input = String::from("@");
    let expected = TokenizeError::CharNotRecognized('@');

    let actual = tokenize(input).unwrap_err();

    assert_eq!(actual, expected);
}

#[test]
fn lone_minus_is_no_number() {
    let input = String::from("-");
    let expected = TokenizeError::ParseNumberError("-".to_string());

    let actual = tokenize(input).unwrap_err();

    assert_eq!(actual, expected);
}

#[test]
fn exponent_needs_digits() {
    let input = String::from("5e+");
    let expected = TokenizeError::InvalidNumber("Invalid number provided.".to_string());

    let actual = tokenize(input).unwrap_err();

    assert_eq!(actual, expected);
}

#[test]
fn exponent_marker_needs_a_following_character() {
    // a trailing `e` is no exponent marker: the number ends before it, and
    // the `e` itself then starts no token
    let input = String::from("5e");
    let expected = TokenizeError::CharNotRecognized('e');

    let actual = tokenize(input).unwrap_err();

    assert_eq!(actual, expected);
}

#[test]
fn leading_and_trailing_whitespace() {
    let input = String::from("  true \n");
    let expected = [Token::True];

    let actual = tokenize(input).unwrap();

    assert_eq!(actual, expected);
}

#[test]
fn empty_input_has_no_tokens() {
    let input = String::new();

    let actual = tokenize(input).unwrap();

    assert_eq!(actual, []);
}

#[test]
fn escaped_quote_stays_in_payload() {
    let input = String::from("\"a\\\"b\"");
    let expected = [Token::String("a\\\"b".to_string())];

    let actual = tokenize(input).unwrap();

    assert_eq!(actual, expected);
}
