use parse_json::json::lexer::{Token, Tokenizer, TokenizerError};

#[test]
fn all_syntax() {
    let lexer = Tokenizer::new("[]{}:,");
    let expected = vec![
        Token::SquareOpen,
        Token::SquareClose,
        Token::CurlyOpen,
        Token::CurlyClose,
        Token::Colon,
        Token::Comma,
    ];
    let actual: Vec<Token> = lexer.tokenize().unwrap();
    assert_eq!(expected, actual);
}

#[test]
fn integer() {
    let lexer = Tokenizer::new("245");
    let expected = vec![Token::Number("245".to_string())];
    let actual: Vec<Token> = lexer.tokenize().unwrap();
    assert_eq!(expected, actual);
    match &actual[0] {
        Token::Number(s) => assert_eq!(s.parse::<f64>().unwrap(), 245.0),
        _ => panic!("expected a number token"),
    }
}

#[test]
fn float() {
    let lexer = Tokenizer::new("245.23");
    let expected = vec![Token::Number("245.23".to_string())];
    let actual: Vec<Token> = lexer.tokenize().unwrap();
    assert_eq!(expected, actual);
    match &actual[0] {
        Token::Number(s) => assert_eq!(s.parse::<f64>().unwrap(), 245.23),
        _ => panic!("expected a number token"),
    }
}

#[test]
fn negative() {
    let lexer = Tokenizer::new("-245");
    let expected = vec![Token::Number("-245".to_string())];
    let actual: Vec<Token> = lexer.tokenize().unwrap();
    assert_eq!(expected, actual);
    match &actual[0] {
        Token::Number(s) => assert_eq!(s.parse::<f64>().unwrap(), -245.0),
        _ => panic!("expected a number token"),
    }
}

#[test]
fn negative_float() {
    let lexer = Tokenizer::new("-245.23");
    let expected = vec![Token::Number("-245.23".to_string())];
    let actual: Vec<Token> = lexer.tokenize().unwrap();
    assert_eq!(expected, actual);
    match &actual[0] {
        Token::Number(s) => assert_eq!(s.parse::<f64>().unwrap(), -245.23),
        _ => panic!("expected a number token"),
    }
}

#[test]
fn string() {
    let lexer = Tokenizer::new("\"Abc-243.abc00\"");
    let expected = vec![Token::String("Abc-243.abc00".to_string())];
    let actual: Vec<Token> = lexer.tokenize().unwrap();
    assert_eq!(expected, actual);
}

#[test]
fn string_with_escaped_quote() {
    let lexer = Tokenizer::new("\"Abc-243.\\\"abc00\"");
    let expected = vec![Token::String("Abc-243.\\\"abc00".to_string())];
    let actual: Vec<Token> = lexer.tokenize().unwrap();
    assert_eq!(expected, actual);
}

#[test]
fn null() {
    let lexer = Tokenizer::new("null");
    let expected = vec![Token::Null];
    let actual: Vec<Token> = lexer.tokenize().unwrap();
    assert_eq!(expected, actual);
}

#[test]
fn bool_false() {
    let lexer = Tokenizer::new("false");
    let expected = vec![Token::Bool(false)];
    let actual: Vec<Token> = lexer.tokenize().unwrap();
    assert_eq!(expected, actual);
}

#[test]
fn bool_true() {
    let lexer = Tokenizer::new("true");
    let expected = vec![Token::Bool(true)];
    let actual: Vec<Token> = lexer.tokenize().unwrap();
    assert_eq!(expected, actual);
}

#[test]
fn valid_json() {
    let sample_json = "{
            \"str\": \"value\",
            \"num\": 123,
            \"bool\": true,
            \"null\": null
            }";
    let lexer = Tokenizer::new(sample_json);
    let expected = vec![
        Token::CurlyOpen,
        Token::String("str".to_string()),
        Token::Colon,
        Token::String("value".to_string()),
        Token::Comma,
        Token::String("num".to_string()),
        Token::Colon,
        Token::Number("123".to_string()),
        Token::Comma,
        Token::String("bool".to_string()),
        Token::Colon,
        Token::Bool(true),
        Token::Comma,
        Token::String("null".to_string()),
        Token::Colon,
        Token::Null,
        Token::CurlyClose,
    ];
    let actual: Vec<Token> = lexer.tokenize().unwrap();
    assert_eq!(expected, actual);
}

#[test]
fn tokenize_twice_identical() {
    let first = Tokenizer::new("{\"a\": [1, true, null]}").tokenize().unwrap();
    let second = Tokenizer::new("{\"a\": [1, true, null]}").tokenize().unwrap();
    assert_eq!(first, second);
}

#[test]
fn number_keeps_scanned_text() {
    let actual = Tokenizer::new("245.0").tokenize().unwrap();
    assert_eq!(actual, vec![Token::Number("245.0".to_string())]);
    match &actual[0] {
        Token::Number(s) => assert_eq!(s.parse::<f64>().unwrap(), 245.0),
        _ => panic!("expected a number token"),
    }
}

#[test]
fn empty_string_token() {
    let actual = Tokenizer::new("\"\"").tokenize().unwrap();
    assert_eq!(actual, vec![Token::String("".to_string())]);
}

#[test]
fn multibyte_string_keeps_positions() {
    let actual = Tokenizer::new("\"h\u{e9}llo\":").tokenize().unwrap();
    assert_eq!(
        actual,
        vec![Token::String("h\u{e9}llo".to_string()), Token::Colon]
    );
}

#[test]
fn missing_closing_quote_fails() {
    let result = Tokenizer::new("\"abc").tokenize();
    assert!(matches!(result, Err(TokenizerError::InvalidString)));
}

#[test]
fn invalid_utf8_string_content_fails() {
    let lexer = Tokenizer {
        input: vec![b'"', 0xff, b'"'],
    };
    let result = lexer.tokenize();
    assert!(matches!(result, Err(TokenizerError::InvalidString)));
}

#[test]
fn misshapen_number_fails() {
    let result = Tokenizer::new("2-4").tokenize();
    assert!(matches!(result, Err(TokenizerError::InvalidNumber)));
    let result = Tokenizer::new("245.1.2").tokenize();
    assert!(matches!(result, Err(TokenizerError::InvalidNumber)));
    let result = Tokenizer::new("-").tokenize();
    assert!(matches!(result, Err(TokenizerError::InvalidNumber)));
}

#[test]
fn truncated_literal_fails() {
    assert!(matches!(
        Tokenizer::new("nul").tokenize(),
        Err(TokenizerError::InvalidLiteral)
    ));
    assert!(matches!(
        Tokenizer::new("tru").tokenize(),
        Err(TokenizerError::InvalidLiteral)
    ));
    assert!(matches!(
        Tokenizer::new("falsy").tokenize(),
        Err(TokenizerError::InvalidLiteral)
    ));
}

#[test]
fn tokenizer_error_messages() {
    assert_eq!(
        TokenizerError::InvalidString.message(),
        "Invalid string token"
    );
    assert_eq!(
        TokenizerError::InvalidNumber.message(),
        "Invalid number token"
    );
    assert_eq!(
        TokenizerError::InvalidLiteral.message(),
        "Invalid literal token"
    );
}
