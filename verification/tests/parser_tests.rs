use parse_json::json::lexer::Tokenizer;
use parse_json::json::parser::{JsonValue, ParseError, Parser};

fn parse_text(input: &str) -> Result<JsonValue, ParseError> {
    let tokens = Tokenizer::new(input).tokenize().unwrap();
    Parser::new(tokens).parse()
}

#[test]
fn scalar_integer_parses() {
    let value = parse_text("245").unwrap();
    assert_eq!(value, JsonValue::Number("245".to_string()));
    match &value {
        JsonValue::Number(s) => assert_eq!(s.parse::<f64>().unwrap(), 245.0),
        _ => panic!("expected a number value"),
    }
}

#[test]
fn scalar_negative_float_parses() {
    let value = parse_text("-245.23").unwrap();
    assert_eq!(value, JsonValue::Number("-245.23".to_string()));
    match &value {
        JsonValue::Number(s) => assert_eq!(s.parse::<f64>().unwrap(), -245.23),
        _ => panic!("expected a number value"),
    }
}

#[test]
fn scalar_bool_parses() {
    assert_eq!(parse_text("true").unwrap(), JsonValue::Bool(true));
    assert_eq!(parse_text("false").unwrap(), JsonValue::Bool(false));
}

#[test]
fn scalar_null_parses() {
    assert_eq!(parse_text("null").unwrap(), JsonValue::Null);
}

#[test]
fn escaped_quote_kept_verbatim() {
    let value = parse_text("\"Abc-243.\\\"abc00\"").unwrap();
    assert_eq!(value, JsonValue::String("Abc-243.\\\"abc00".to_string()));
}

#[test]
fn well_formed_object_parses() {
    let value = parse_text(
        "{
            \"str\": \"value\",
            \"num\": 123,
            \"bool\": true,
            \"null\": null
            }",
    )
    .unwrap();
    let expected = JsonValue::Object(vec![
        ("str".to_string(), JsonValue::String("value".to_string())),
        ("num".to_string(), JsonValue::Number("123".to_string())),
        ("bool".to_string(), JsonValue::Bool(true)),
        ("null".to_string(), JsonValue::Null),
    ]);
    assert_eq!(value, expected);
}

#[test]
fn object_parse_ignores_whitespace() {
    let spaced = parse_text("{ \"a\" : 1 , \"b\" : [ true ] }").unwrap();
    let dense = parse_text("{\"a\":1,\"b\":[true]}").unwrap();
    assert_eq!(spaced, dense);
}

#[test]
fn empty_object_and_array_parse() {
    assert_eq!(parse_text("{}").unwrap(), JsonValue::Object(vec![]));
    assert_eq!(parse_text("[]").unwrap(), JsonValue::Array(vec![]));
}

#[test]
fn nested_values_parse() {
    let value = parse_text("{\"a\":[1,{\"b\":null}]}").unwrap();
    let expected = JsonValue::Object(vec![(
        "a".to_string(),
        JsonValue::Array(vec![
            JsonValue::Number("1".to_string()),
            JsonValue::Object(vec![("b".to_string(), JsonValue::Null)]),
        ]),
    )]);
    assert_eq!(value, expected);
}

#[test]
fn duplicate_keys_last_write_wins() {
    let value = parse_text("{\"a\":1,\"a\":2}").unwrap();
    assert_eq!(
        value,
        JsonValue::Object(vec![("a".to_string(), JsonValue::Number("2".to_string()))])
    );
}

#[test]
fn trailing_comma_in_array_accepted() {
    let value = parse_text("[1,]").unwrap();
    assert_eq!(
        value,
        JsonValue::Array(vec![JsonValue::Number("1".to_string())])
    );
}

#[test]
fn object_missing_colon_fails() {
    assert_eq!(parse_text("{\"a\" 1}"), Err(ParseError::ExpectedColon));
}

#[test]
fn object_non_string_key_fails() {
    assert_eq!(parse_text("{1:2}"), Err(ParseError::ExpectedKeyOrCurly));
}

#[test]
fn object_missing_separator_fails() {
    assert_eq!(parse_text("{\"a\":1:1}"), Err(ParseError::ExpectedCommaOrCurly));
}

#[test]
fn array_missing_separator_fails() {
    assert_eq!(parse_text("[1 2]"), Err(ParseError::ExpectedCommaOrSquare));
}

#[test]
fn stray_token_fails() {
    assert_eq!(parse_text(":"), Err(ParseError::UnexpectedToken));
    assert_eq!(parse_text(""), Err(ParseError::UnexpectedToken));
}

#[test]
fn parse_error_messages() {
    assert_eq!(ParseError::UnexpectedToken.message(), "Unexpected token");
    assert_eq!(ParseError::ExpectedColon.message(), "Expected colon");
    assert_eq!(
        ParseError::ExpectedCommaOrCurly.message(),
        "Expected comma or closing curly brace"
    );
    assert_eq!(
        ParseError::ExpectedKeyOrCurly.message(),
        "Expected string key or closing curly brace"
    );
    assert_eq!(
        ParseError::ExpectedCommaOrSquare.message(),
        "Expected comma or closing square bracket"
    );
}
