use lambda_wire::{parse, parse_string, split_words, BigInt, BinaryOp, Token, UnaryOp, WireError};

#[test]
fn words_split_on_any_whitespace() {
    let words = split_words(b"  B$\tL#\n\r v#  ");
    let words: Vec<Vec<u8>> = words.into_iter().collect();
    assert_eq!(words, vec![b"B$".to_vec(), b"L#".to_vec(), b"v#".to_vec()]);
    assert!(split_words(b"").is_empty());
    assert!(split_words(b"   ").is_empty());
}

#[test]
fn parse_builds_the_tree() {
    let t = parse_string("B+ I# U- I$").unwrap();
    match t {
        Token::BinaryOp(BinaryOp::Add, a, b) => {
            assert_eq!(*a.integer(), BigInt::from_i64(2));
            match &*b {
                Token::UnaryOp(UnaryOp::NegInteger, x) => assert_eq!(*x.integer(), BigInt::from_i64(3)),
                other => panic!("unexpected {:?}", other),
            }
        }
        other => panic!("unexpected {:?}", other),
    }
}

#[test]
fn parse_lambda_and_variable_ids() {
    let t = parse_string("L/6 v/6").unwrap();
    match t {
        Token::Abstraction(1337, body) => assert!(matches!(*body, Token::Id(1337))),
        other => panic!("unexpected {:?}", other),
    }
}

#[test]
fn parse_leaves_following_words() {
    let mut words = split_words(b"U! T F I!");
    let t = parse(&mut words).unwrap();
    assert!(matches!(t, Token::UnaryOp(UnaryOp::Not, _)));
    assert_eq!(words.len(), 2);
}

#[test]
fn parse_errors() {
    assert_eq!(parse_string("X").err(), Some(WireError::UnknownIndicator));
    assert_eq!(parse_string("U? T").err(), Some(WireError::UnknownOperator));
    assert_eq!(parse_string("B T T").err(), Some(WireError::UnknownOperator));
    assert_eq!(parse_string("B+ I!").err(), Some(WireError::UnexpectedEndOfInput));
    assert_eq!(parse_string("").err(), Some(WireError::UnexpectedEndOfInput));
    assert_eq!(parse_string("T F").err(), Some(WireError::TrailingTokens));
    assert_eq!(parse_string("S\u{7f}").err(), Some(WireError::PayloadOutOfRange));
}
