//! Tests for the whole pipeline: text in, value tree or unified error out.
use json_parser::parse::TokenParseError;
use json_parser::tokenize::TokenizeError;
use json_parser::{parse, ParseError, Value};

#[test]
fn parse_valid() {
    let input = r#"{"name": "Minecraft", "isMyLife": true, "version": 1.5}"#.to_string();

    let result = parse(input).unwrap();

    let expected_map = vec![
        ("name".to_string(), Value::String("Minecraft".to_string())),
        ("isMyLife".to_string(), Value::Boolean(true)),
        ("version".to_string(), Value::Number("1.5".to_string())),
    ];

    assert_eq!(result, Value::Object(expected_map));
}

#[test]
fn parse_valid_nested_structure() {
    let input = r#"{"user": {"id": 1415436218769, "tags": ["admin", "ru"]}}"#.to_string();

    let result = parse(input).unwrap();

    let user_map = vec![
        (
            "id".to_string(),
            Value::Number("1415436218769".to_string()),
        ),
        (
            "tags".to_string(),
            Value::Array(vec![
                Value::String("admin".to_string()),
                Value::String("ru".to_string()),
            ]),
        ),
    ];

    let root_map = vec![("user".to_string(), Value::Object(user_map))];

    let expected = Value::Object(root_map);

    assert_eq!(result, expected);
}

// round trips for scalar literals

#[test]
fn scalar_round_trips() {
    assert_eq!(parse("null".to_string()).unwrap(), Value::Null);
    assert_eq!(parse("true".to_string()).unwrap(), Value::Boolean(true));
    assert_eq!(parse("false".to_string()).unwrap(), Value::Boolean(false));
    assert_eq!(
        parse("123".to_string()).unwrap(),
        Value::Number("123".to_string())
    );
    assert_eq!(
        parse("-123".to_string()).unwrap(),
        Value::Number("-123".to_string())
    );
    assert_eq!(
        parse("0.88".to_string()).unwrap(),
        Value::Number("0.88".to_string())
    );
    assert_eq!(
        parse("-0.5e2".to_string()).unwrap(),
        Value::Number("-0.5e2".to_string())
    );
}

#[test]
fn number_literal_converts_exactly() {
    // an accepted literal is a well-formed float literal: conversion cannot
    // fail, and it is exact because the text is kept unchanged
    let cases = [
        ("1.5", 1.5_f64),
        ("-0.5e2", -0.5e2_f64),
        ("1415436218769", 1415436218769.0_f64),
        ("0.88", 0.88_f64),
    ];
    for (text, expected) in cases {
        match parse(text.to_string()).unwrap() {
            Value::Number(lit) => {
                assert_eq!(lit, text);
                assert_eq!(lit.parse::<f64>().unwrap(), expected);
            }
            other => panic!("expected a number, got {:?}", other),
        }
    }
}

// rejection

#[test]
fn rejects_double_zero_inputs() {
    let expected = TokenizeError::InvalidNumber("Invalid number provided.".to_string());
    assert_eq!(
        parse("00".to_string()).unwrap_err(),
        ParseError::TokenizeError(expected.clone())
    );
    assert_eq!(
        parse("-00".to_string()).unwrap_err(),
        ParseError::TokenizeError(expected)
    );
}

#[test]
fn rejects_double_negative() {
    assert_eq!(
        parse("--123".to_string()).unwrap_err(),
        ParseError::TokenizeError(TokenizeError::ParseNumberError("-".to_string()))
    );
}

#[test]
fn rejects_unterminated_string() {
    assert_eq!(
        parse("\"abc".to_string()).unwrap_err(),
        ParseError::TokenizeError(TokenizeError::UnclosedQuotes)
    );
}

#[test]
fn rejects_unfinished_literal() {
    assert_eq!(
        parse("tru".to_string()).unwrap_err(),
        ParseError::TokenizeError(TokenizeError::UnfinishedLiteralValue)
    );
}

// structure

#[test]
fn empty_array_parses() {
    assert_eq!(parse("[]".to_string()).unwrap(), Value::Array(vec![]));
}

#[test]
fn empty_object_parses() {
    assert_eq!(parse("{}".to_string()).unwrap(), Value::Object(vec![]));
}

#[test]
fn mixed_array_parses() {
    let result = parse(r#"["a",1,true,null,[2,3]]"#.to_string()).unwrap();

    let expected = Value::Array(vec![
        Value::String("a".to_string()),
        Value::Number("1".to_string()),
        Value::Boolean(true),
        Value::Null,
        Value::Array(vec![
            Value::Number("2".to_string()),
            Value::Number("3".to_string()),
        ]),
    ]);

    assert_eq!(result, expected);
}

// escaping

#[test]
fn string_value_unescapes() {
    let input = r#""value with \"quotes\" and \n newline""#.to_string();

    let result = parse(input).unwrap();

    assert_eq!(
        result,
        Value::String("value with \"quotes\" and \n newline".to_string())
    );
}

// object semantics: the last write wins, in the first occurrence's place

#[test]
fn duplicate_key_last_write_wins() {
    let result = parse(r#"{"a":1,"a":2}"#.to_string()).unwrap();

    let expected = Value::Object(vec![("a".to_string(), Value::Number("2".to_string()))]);

    assert_eq!(result, expected);
}

#[test]
fn duplicate_key_keeps_first_position() {
    let result = parse(r#"{"a":1,"b":2,"a":3}"#.to_string()).unwrap();

    let expected = Value::Object(vec![
        ("a".to_string(), Value::Number("3".to_string())),
        ("b".to_string(), Value::Number("2".to_string())),
    ]);

    assert_eq!(result, expected);
}

// depth guard

#[test]
fn deep_nesting_fails_with_resource_limit() {
    let input = "[".repeat(100_000);

    let result = parse(input).unwrap_err();

    assert_eq!(
        result,
        ParseError::ParseError(TokenParseError::RecursionLimitExceeded)
    );
}

#[test]
fn moderate_nesting_still_parses() {
    let mut input = String::new();
    for _ in 0..100 {
        input.push('[');
    }
    for _ in 0..100 {
        input.push(']');
    }

    assert!(parse(input).is_ok());
}

// ends of input

#[test]
fn empty_input_is_an_error() {
    assert_eq!(
        parse(String::new()).unwrap_err(),
        ParseError::ParseError(TokenParseError::UnexpectedEndOfTokens)
    );
}

#[test]
fn trailing_whitespace_is_fine() {
    assert_eq!(parse("true \n".to_string()).unwrap(), Value::Boolean(true));
}

#[test]
fn surrogate_escape_fails_parse() {
    let input = r#""\uD83D\uDE00""#.to_string();

    assert_eq!(
        parse(input).unwrap_err(),
        ParseError::ParseError(TokenParseError::InvalidCodePointValue)
    );
}
