use std::cmp::Ordering;
use std::collections::hash_map::DefaultHasher;
use std::hash::{Hash, Hasher};

use lamp_lang::code::{Code, Error, EvalError};
use lamp_lang::map::CanonicalMap;
use lamp_lang::order::Canonical;
use lamp_lang::parse::{parse, parse_to_pgm, ParseError, ParseErrorKind};
use lamp_lang::text::{classify, classify_all, CharInfo};
use lamp_lang::token::{
    tokenize, tokenize_classified, tokenize_from_str, LexError, LexErrorKind, Token, TokenKind,
};

fn ident(s: &str) -> Code {
    Code::Identifier(s.to_string())
}

fn hash_of<T: Hash>(t: &T) -> u64 {
    let mut h = DefaultHasher::new();
    t.hash(&mut h);
    h.finish()
}

fn lex_error(text: &str) -> LexError {
    match Code::from_str(text) {
        Err(Error::Lex(e)) => e,
        other => panic!("expected a scanning error, got {:?}", other),
    }
}

fn parse_error(text: &str) -> ParseError {
    match Code::from_str(text) {
        Err(Error::Parse(e)) => e,
        other => panic!("expected a parsing error, got {:?}", other),
    }
}

#[test]
fn spans_rebuild_the_input() {
    let text = "{if c: [eq a b] do: [foo]} # done\n'x' \"s\\\"t\" 12.5 ### block ### !?";
    let chars: Vec<char> = text.chars().collect();
    let tokens = tokenize(&chars).unwrap();
    let mut rebuilt = String::new();
    let mut next = 0;
    for t in &tokens {
        assert_eq!(t.start, next);
        assert!(t.length > 0);
        rebuilt.extend(&chars[t.start..t.end()]);
        next = t.end();
    }
    assert_eq!(next, chars.len());
    assert_eq!(rebuilt, text);
}

#[test]
fn parsing_twice_gives_equal_trees() {
    let text = "[a {k: [1 2] j: 'c'} 3.25 \"s\"]";
    assert_eq!(Code::from_str(text).unwrap(), Code::from_str(text).unwrap());
}

#[test]
fn insertion_order_does_not_matter() {
    let pairs = [(ident("b"), Code::Integer(2)), (Code::Integer(9), ident("x")), (ident("a"), Code::Integer(1))];
    let mut forward = CanonicalMap::new();
    for (k, v) in pairs.iter() {
        forward.insert(copy(k), copy(v));
    }
    let mut backward = CanonicalMap::new();
    for (k, v) in pairs.iter().rev() {
        backward.insert(copy(k), copy(v));
    }
    assert_eq!(forward, backward);
    assert_eq!(forward.compare(&backward), Ordering::Equal);
    assert_eq!(forward.cmp(&backward), Ordering::Equal);
    assert_eq!(hash_of(&forward), hash_of(&backward));
    let a = Code::Dict(forward);
    let b = Code::Dict(backward);
    assert_eq!(a.compare(&b), Ordering::Equal);
    assert_eq!(hash_of(&a), hash_of(&b));
}

fn copy(c: &Code) -> Code {
    Code::from_str(&render(c)).unwrap().remove(0)
}

fn render(c: &Code) -> String {
    match c {
        Code::Integer(n) => n.to_string(),
        Code::Identifier(s) => s.clone(),
        _ => panic!("not needed here"),
    }
}

#[test]
fn last_insertion_wins() {
    let mut m = CanonicalMap::new();
    m.insert('k', 1);
    m.insert('k', 2);
    assert_eq!(m.len(), 1);
    assert_eq!(m.get(&'k'), Some(&2));
    assert_eq!(m.get(&'z'), None);
}

#[test]
fn empty_input_reads_to_nothing() {
    assert_eq!(Code::from_str("").unwrap(), Vec::<Code>::new());
    assert_eq!(Code::from_str("  # only a comment").unwrap(), Vec::<Code>::new());
}

#[test]
fn open_list_and_open_map_are_unterminated() {
    assert_eq!(parse_error("[a [b c]").kind, ParseErrorKind::UnterminatedList);
    assert_eq!(parse_error("{a: b").kind, ParseErrorKind::UnterminatedMap);
    assert_eq!(parse_error("{a").kind, ParseErrorKind::UnterminatedMap);
    assert_eq!(parse_error("{a: b c:").kind, ParseErrorKind::UnterminatedMap);
}

#[test]
fn scenario_atoms() {
    assert_eq!(
        Code::from_str("42 3.14 'a' \"hi\" foo").unwrap(),
        vec![
            Code::Integer(42),
            Code::Float("3.14".to_string()),
            Code::Character('a'),
            Code::StringLiteral("hi".to_string()),
            ident("foo"),
        ]
    );
}

#[test]
fn scenario_call() {
    assert_eq!(
        Code::from_str("[add 1 2]").unwrap(),
        vec![Code::List(vec![ident("add"), Code::Integer(1), Code::Integer(2)])]
    );
}

#[test]
fn scenario_map() {
    let read = Code::from_str("{15: 30 2: 4}").unwrap();
    assert_eq!(read.len(), 1);
    match &read[0] {
        Code::Dict(m) => {
            assert_eq!(m.len(), 2);
            assert_eq!(m.get(&Code::Integer(15)), Some(&Code::Integer(30)));
            assert_eq!(m.get(&Code::Integer(2)), Some(&Code::Integer(4)));
        }
        other => panic!("expected a map, got {:?}", other),
    }
}

#[test]
fn scenario_head_position_map() {
    let read = Code::from_str("{if c: [eq a b] do: [foo]}").unwrap();
    assert_eq!(read.len(), 1);
    match &read[0] {
        Code::Dict(m) => {
            assert_eq!(m.len(), 3);
            assert_eq!(m.get(&ident("head_position_field")), Some(&ident("if")));
            assert_eq!(
                m.get(&ident("c")),
                Some(&Code::List(vec![ident("eq"), ident("a"), ident("b")]))
            );
            assert_eq!(m.get(&ident("do")), Some(&Code::List(vec![ident("foo")])));
        }
        other => panic!("expected a map, got {:?}", other),
    }
}

#[test]
fn scenario_unclosed_list() {
    assert_eq!(
        Code::from_str("[foo"),
        Err(Error::Parse(ParseError { kind: ParseErrorKind::UnterminatedList, position: 2 }))
    );
}

#[test]
fn scanning_errors() {
    assert_eq!(
        lex_error("x \"abc"),
        LexError { kind: LexErrorKind::UnterminatedString, start: 2, end: 6 }
    );
    assert_eq!(lex_error("\"ab\\").kind, LexErrorKind::UnterminatedString);
    assert_eq!(lex_error("'a").kind, LexErrorKind::UnterminatedChar);
    assert_eq!(lex_error("'").kind, LexErrorKind::UnterminatedChar);
    assert_eq!(
        lex_error("'ab'"),
        LexError { kind: LexErrorKind::InvalidCharLiteralLength, start: 0, end: 3 }
    );
    assert_eq!(lex_error("''").kind, LexErrorKind::InvalidCharLiteralLength);
    assert_eq!(
        lex_error("1 170141183460469231731687303715884105728"),
        LexError { kind: LexErrorKind::NumberOverflow, start: 2, end: 41 }
    );
}

#[test]
fn largest_integer_fits() {
    assert_eq!(
        Code::from_str("170141183460469231731687303715884105727").unwrap(),
        vec![Code::Integer(i128::MAX)]
    );
}

#[test]
fn parsing_errors() {
    assert_eq!(parse_error("a ]").kind, ParseErrorKind::UnexpectedToken);
    assert_eq!(parse_error("a ]").position, 2);
    assert_eq!(parse_error("[+ 1]").kind, ParseErrorKind::UnexpectedToken);
    assert_eq!(parse_error("{}").kind, ParseErrorKind::UnexpectedToken);
    assert_eq!(
        parse_error("{a: b c d}"),
        ParseError { kind: ParseErrorKind::MissingFieldDelimiter, position: 8 }
    );
}

#[test]
fn decimals_need_digits_after_the_point() {
    let tokens = tokenize_from_str("3. 1.5").unwrap();
    assert_eq!(
        tokens,
        vec![
            Token::new(TokenKind::Integer(3), 0, 1),
            Token::new(TokenKind::Symbol(".".to_string()), 1, 1),
            Token::new(TokenKind::Whitespace(" ".to_string()), 2, 1),
            Token::new(TokenKind::Float("1.5".to_string()), 3, 3),
        ]
    );
}

#[test]
fn unicode_classes() {
    let tokens = tokenize_from_str("héllo\u{3000}x_1 ²").unwrap();
    assert_eq!(
        tokens,
        vec![
            Token::new(TokenKind::Identifier("héllo".to_string()), 0, 5),
            Token::new(TokenKind::Whitespace("\u{3000}".to_string()), 5, 1),
            Token::new(TokenKind::Identifier("x_1".to_string()), 6, 3),
            Token::new(TokenKind::Whitespace(" ".to_string()), 9, 1),
            Token::new(TokenKind::Symbol("²".to_string()), 10, 1),
        ]
    );
}

#[test]
fn comment_forms() {
    let tokens = tokenize_from_str("###a#b###c#").unwrap();
    assert_eq!(
        tokens,
        vec![
            Token::new(TokenKind::Comment("###a#b###".to_string()), 0, 9),
            Token::new(TokenKind::Identifier("c".to_string()), 9, 1),
            Token::new(TokenKind::Comment("#".to_string()), 10, 1),
        ]
    );
    let open = tokenize_from_str("## never closed").unwrap();
    assert_eq!(open, vec![Token::new(TokenKind::Comment("## never closed".to_string()), 0, 15)]);
}

#[test]
fn variants_order_by_rank_then_payload() {
    let ordered = vec![
        Code::Integer(-5),
        Code::Integer(7),
        Code::Float("1.0".to_string()),
        Code::Character('z'),
        Code::StringLiteral("a".to_string()),
        Code::StringLiteral("ab".to_string()),
        ident("b"),
        Code::List(vec![Code::Integer(1)]),
        Code::List(vec![Code::Integer(1), Code::Integer(0)]),
        Code::Dict(CanonicalMap::new()),
    ];
    for i in 0..ordered.len() {
        for j in 0..ordered.len() {
            let expected = i.cmp(&j);
            assert_eq!(ordered[i].compare(&ordered[j]), expected);
            assert_eq!(ordered[i].cmp(&ordered[j]), expected);
        }
    }
}

#[test]
fn program_list() {
    let tokens = tokenize_from_str("1 x").unwrap();
    assert_eq!(
        parse_to_pgm(&tokens).unwrap(),
        Code::List(vec![ident("pgm"), Code::Integer(1), ident("x")])
    );
    assert_eq!(parse(&tokens).unwrap(), vec![Code::Integer(1), ident("x")]);
}

#[test]
fn evaluation() {
    assert_eq!(Code::Integer(3).eval(), Ok(Code::Integer(3)));
    assert_eq!(ident("x").eval(), Ok(ident("x")));
    assert_eq!(Code::List(vec![]).eval(), Ok(Code::List(vec![])));
    assert_eq!(Code::List(vec![ident("f")]).eval(), Err(EvalError::Unimplemented));
    assert_eq!(Code::Dict(CanonicalMap::new()).eval(), Err(EvalError::Unimplemented));
}

#[test]
fn scanning_with_given_classes() {
    let none = CharInfo { alphabetic: false, alphanumeric: false, white_space: false };
    let letter = CharInfo { alphabetic: true, alphanumeric: true, white_space: false };
    let space = CharInfo { alphabetic: false, alphanumeric: false, white_space: true };
    let code = vec!['[', 'a', 'b', ']'];
    assert_eq!(
        tokenize_classified(&code, &[none, letter, letter, none]).unwrap(),
        vec![
            Token::new(TokenKind::Lfn, 0, 1),
            Token::new(TokenKind::Identifier("ab".to_string()), 1, 2),
            Token::new(TokenKind::Rfn, 3, 1),
        ]
    );
    assert_eq!(
        tokenize_classified(&code, &[none, letter, space, none]).unwrap(),
        vec![
            Token::new(TokenKind::Lfn, 0, 1),
            Token::new(TokenKind::Identifier("a".to_string()), 1, 1),
            Token::new(TokenKind::Whitespace("b".to_string()), 2, 1),
            Token::new(TokenKind::Rfn, 3, 1),
        ]
    );
}

#[test]
fn classes_come_from_unicode() {
    assert_eq!(
        classify('é'),
        CharInfo { alphabetic: true, alphanumeric: true, white_space: false }
    );
    assert_eq!(
        classify('\u{3000}'),
        CharInfo { alphabetic: false, alphanumeric: false, white_space: true }
    );
    assert_eq!(
        classify('²'),
        CharInfo { alphabetic: false, alphanumeric: true, white_space: false }
    );
    assert_eq!(
        classify('!'),
        CharInfo { alphabetic: false, alphanumeric: false, white_space: false }
    );
    assert_eq!(
        classify_all(&['a', ' ']),
        vec![
            CharInfo { alphabetic: true, alphanumeric: true, white_space: false },
            CharInfo { alphabetic: false, alphanumeric: false, white_space: true },
        ]
    );
}
