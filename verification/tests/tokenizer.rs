use roar::LexError;
use roar::Lexer;
use roar::Token;

fn lex(input: &str) -> Result<Vec<Token>, LexError> {
    let mut lexer = Lexer::new(input);
    lexer.lex()
}

#[test]
fn lexes_a_flat_object_of_strings() {
    assert_eq!(
        lex("{\"key\":\"value\"}").unwrap(),
        vec![
            Token::LBraces,
            Token::Literal("key".to_string()),
            Token::Colon,
            Token::Literal("value".to_string()),
            Token::RBraces,
        ]
    );
}

#[test]
fn lexes_an_empty_object() {
    assert_eq!(lex("{}").unwrap(), vec![Token::LBraces, Token::RBraces]);
    assert_eq!(
        lex(" {\r\n } ").unwrap(),
        vec![Token::LBraces, Token::RBraces]
    );
}

#[test]
fn lexes_numbers_and_keywords() {
    // a number ends at the first non-digit, which it consumes; a keyword
    // ends at a comma, which it consumes too
    assert_eq!(
        lex("{\"a\":1 ,\"b\":true,\"c\":null,\"d\":false,\"e\":\"x\"}").unwrap(),
        vec![
            Token::LBraces,
            Token::Literal("a".to_string()),
            Token::Colon,
            Token::Number(1),
            Token::Coma,
            Token::Literal("b".to_string()),
            Token::Colon,
            Token::True,
            Token::Literal("c".to_string()),
            Token::Colon,
            Token::Null,
            Token::Literal("d".to_string()),
            Token::Colon,
            Token::False,
            Token::Literal("e".to_string()),
            Token::Colon,
            Token::Literal("x".to_string()),
            Token::RBraces,
        ]
    );
}

#[test]
fn lexes_empty_nested_objects_and_arrays() {
    assert_eq!(
        lex("{\"o\":{},\"p\":[]}").unwrap(),
        vec![
            Token::LBraces,
            Token::Literal("o".to_string()),
            Token::Colon,
            Token::Object,
            Token::Coma,
            Token::Literal("p".to_string()),
            Token::Colon,
            Token::Array,
            Token::RBraces,
        ]
    );
}

#[test]
fn each_lex_error_has_an_input() {
    let cases = [
        ("", LexError::EmptyFile),
        ("   ", LexError::OpeningCurly),
        ("}", LexError::OpeningCurly),
        ("\"a\":\"b\"}", LexError::OpeningCurly),
        ("{", LexError::ClosingCurly),
        ("{\"a\":\"b\",}", LexError::TrailingComa),
        ("x", LexError::UnexpectedToken),
        ("{\"a\"", LexError::InvalidSyntax),
        ("{\"a\" \"b\"}", LexError::InvalidSyntax),
        ("{\"a\":?}", LexError::InvalidSyntax),
        ("{\"a\":nul,\"b\":\"c\"}", LexError::InvalidKeyword),
        ("{\"a:\"b\"}", LexError::MissingClosingQuote),
        ("{\"abc", LexError::UnterminatedString),
        ("{\"a\":12", LexError::UnterminatedNumber),
        ("{\"a\":true", LexError::UnterminatedLiteral),
        ("{\"a\":99999999999999999999 }", LexError::NumberOutOfRange),
        ("{\"a\":{\"b\":1}}", LexError::UnsupportedContent),
    ];
    for (input, expected) in cases {
        assert_eq!(lex(input), Err(expected), "input {:?}", input);
    }
}

#[test]
fn tokens_print_their_literals() {
    assert_eq!(Token::LBraces.literal(), "{");
    assert_eq!(Token::RBraces.literal(), "}");
    assert_eq!(Token::Literal("hi".to_string()).literal(), "hi");
    assert_eq!(Token::Number(42).literal(), "42");
    assert_eq!(Token::Object.literal(), "{{}}");
    assert_eq!(Token::Array.literal(), "[]");
    assert_eq!(Token::Colon.literal(), ":");
    assert_eq!(Token::Coma.literal(), ",");
    assert_eq!(Token::Null.literal(), "null");
    assert_eq!(Token::True.literal(), "true");
    assert_eq!(Token::False.literal(), "false");
}
