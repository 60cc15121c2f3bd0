use lamp_lang::code::Code;
use lamp_lang::map::CanonicalMap;

#[test]
fn test_basic() {
    assert_eq!(Code::from_str("'a'").unwrap()[0], Code::Character('a'));
}

#[test]
fn test_pop_whitespace() {
    assert_eq!(
        Code::from_str(" 'a' \n 'b'").unwrap(),
        vec![Code::Character('a'), Code::Character('b')]
    );
}

#[test]
fn test_atomics() {
    assert_eq!(
        Code::from_str("42 3.14 'a' \"hello\" world").unwrap(),
        vec![
            Code::Integer(42),
            Code::Float("3.14".to_string()),
            Code::Character('a'),
            Code::StringLiteral("hello".to_string()),
            Code::Identifier("world".to_string()),
        ]
    );
}

#[test]
fn parse_test_hello_world() {
    assert_eq!(
        Code::from_str("[print \"Hello World!\"]").unwrap(),
        vec![Code::List(vec![
            Code::Identifier("print".to_string()),
            Code::StringLiteral("Hello World!".to_string()),
        ])]
    );
}

#[test]
fn test_list() {
    assert_eq!(
        Code::from_str("[list 42 3.14 'a']").unwrap(),
        vec![Code::List(vec![
            Code::Identifier("list".to_string()),
            Code::Integer(42),
            Code::Float("3.14".to_string()),
            Code::Character('a'),
        ])]
    );

    assert_eq!(
        Code::from_str("[list 42 [hello 34] [1 [2 3]]]").unwrap(),
        vec![Code::List(vec![
            Code::Identifier("list".to_string()),
            Code::Integer(42),
            Code::List(vec![Code::Identifier("hello".to_string()), Code::Integer(34)]),
            Code::List(vec![
                Code::Integer(1),
                Code::List(vec![Code::Integer(2), Code::Integer(3)]),
            ]),
        ])]
    );
}

#[test]
fn test_map() {
    let mut expected = CanonicalMap::new();
    expected.insert(Code::Integer(15), Code::Integer(30));
    expected.insert(Code::Integer(2), Code::Integer(4));
    assert_eq!(Code::from_str("{15: 30 2: 4}").unwrap()[0], Code::Dict(expected));
}

#[test]
fn test_map_cond() {
    let mut expected = CanonicalMap::new();
    expected.insert(
        Code::Identifier("head_position_field".to_string()),
        Code::Identifier("if".to_string()),
    );
    expected.insert(
        Code::Identifier("c".to_string()),
        Code::List(vec![
            Code::Identifier("equal".to_string()),
            Code::Identifier("msg".to_string()),
            Code::StringLiteral("hello".to_string()),
        ]),
    );
    expected.insert(
        Code::Identifier("do".to_string()),
        Code::List(vec![
            Code::Identifier("print".to_string()),
            Code::StringLiteral("world".to_string()),
        ]),
    );
    assert_eq!(
        Code::from_str("{if c: [equal msg \"hello\"] do: [print \"world\"]}").unwrap()[0],
        Code::Dict(expected)
    );
}
