use lamp_lang::token::{tokenize, Token, TokenKind};

fn chars(s: &str) -> Vec<char> {
    s.chars().collect()
}

#[test]
fn test_delimiters() {
    let code = chars("[] \n {}:");
    assert_eq!(
        tokenize(&code).unwrap(),
        [
            Token::new(TokenKind::Lfn, 0, 1),
            Token::new(TokenKind::Rfn, 1, 1),
            Token::new(TokenKind::Whitespace(" \n ".to_string()), 2, 3),
            Token::new(TokenKind::Lcond, 5, 1),
            Token::new(TokenKind::Rcond, 6, 1),
            Token::new(TokenKind::FieldDelim, 7, 1),
        ]
    );
}

#[test]
fn token_test_hello_world() {
    let code = chars("[print \"Hello World\"]");
    assert_eq!(
        tokenize(&code).unwrap(),
        [
            Token::new(TokenKind::Lfn, 0, 1),
            Token::new(TokenKind::Identifier("print".to_string()), 1, 5),
            Token::new(TokenKind::Whitespace(" ".to_string()), 6, 1),
            Token::new(TokenKind::StringLiteral("Hello World".to_string()), 7, 13),
            Token::new(TokenKind::Rfn, 20, 1),
        ]
    );
}

#[test]
fn test_identifiers() {
    let code = chars("print u8 uint8_t");
    assert_eq!(
        tokenize(&code).unwrap(),
        [
            Token::new(TokenKind::Identifier("print".to_string()), 0, 5),
            Token::new(TokenKind::Whitespace(" ".to_string()), 5, 1),
            Token::new(TokenKind::Identifier("u8".to_string()), 6, 2),
            Token::new(TokenKind::Whitespace(" ".to_string()), 8, 1),
            Token::new(TokenKind::Identifier("uint8_t".to_string()), 9, 7),
        ]
    );
}

#[test]
fn test_numeric_literals() {
    let code = chars("7 42 3.1415");
    assert_eq!(
        tokenize(&code).unwrap(),
        [
            Token::new(TokenKind::Integer(7), 0, 1),
            Token::new(TokenKind::Whitespace(" ".to_string()), 1, 1),
            Token::new(TokenKind::Integer(42), 2, 2),
            Token::new(TokenKind::Whitespace(" ".to_string()), 4, 1),
            Token::new(TokenKind::Float("3.1415".to_string()), 5, 6),
        ]
    );
}

#[test]
fn test_char_literals() {
    let code = chars("'a''\\n''\\''");
    assert_eq!(
        tokenize(&code).unwrap(),
        [
            Token::new(TokenKind::Character('a'), 0, 3),
            Token::new(TokenKind::Character('\n'), 3, 4),
            Token::new(TokenKind::Character('\''), 7, 4),
        ]
    );
}

#[test]
fn test_string_literals() {
    let code = chars("\"asdf\"\"\\n\\r\\t\\\"\"");
    assert_eq!(
        tokenize(&code).unwrap(),
        [
            Token::new(TokenKind::StringLiteral("asdf".to_string()), 0, 6),
            Token::new(TokenKind::StringLiteral("\n\r\t\"".to_string()), 6, 10),
        ]
    );
}

#[test]
fn test_comments() {
    let code = chars("foo#bar\nfoo\nbar##foo\nbar##bazz#fizzbuzz");
    assert_eq!(
        tokenize(&code).unwrap(),
        [
            Token::new(TokenKind::Identifier("foo".to_string()), 0, 3),
            Token::new(TokenKind::Comment("#bar\n".to_string()), 3, 5),
            Token::new(TokenKind::Identifier("foo".to_string()), 8, 3),
            Token::new(TokenKind::Whitespace("\n".to_string()), 11, 1),
            Token::new(TokenKind::Identifier("bar".to_string()), 12, 3),
            Token::new(TokenKind::Comment("##foo\nbar##".to_string()), 15, 11),
            Token::new(TokenKind::Identifier("bazz".to_string()), 26, 4),
            Token::new(TokenKind::Comment("#fizzbuzz".to_string()), 30, 9),
        ]
    );
}

#[test]
fn test_symbols() {
    let code = chars("!%^ |&@foo");
    assert_eq!(
        tokenize(&code).unwrap(),
        [
            Token::new(TokenKind::Symbol("!%^".to_string()), 0, 3),
            Token::new(TokenKind::Whitespace(" ".to_string()), 3, 1),
            Token::new(TokenKind::Symbol("|&@".to_string()), 4, 3),
            Token::new(TokenKind::Identifier("foo".to_string()), 7, 3),
        ]
    );
}
