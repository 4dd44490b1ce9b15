use dirtycat::token::{identify_token, parse_i32, Error, Token};

#[test]
fn keywords_tokenize_exactly() {
    assert_eq!(identify_token("push").unwrap(), Token::Push);
    assert_eq!(identify_token("inc").unwrap(), Token::Increment);
    assert_eq!(identify_token("dec").unwrap(), Token::Decrement);
    assert_eq!(identify_token("sqr").unwrap(), Token::Square);
    assert_eq!(identify_token("add").unwrap(), Token::Plus);
    assert_eq!(identify_token("sub").unwrap(), Token::Minus);
    assert_eq!(identify_token("dump").unwrap(), Token::Dump);
    assert_eq!(identify_token("out").unwrap(), Token::Out);
}

#[test]
fn uppercase_keyword_is_rejected() {
    match identify_token("PUSH") {
        Err(Error::Tokenize { word }) => assert_eq!(word, "PUSH"),
        other => panic!("expected a tokenize error, got {:?}", other),
    }
    assert!(matches!(identify_token("Push"), Err(Error::Tokenize { .. })));
    assert!(matches!(identify_token("INC"), Err(Error::Tokenize { .. })));
}

#[test]
fn number_literals_tokenize_to_their_value() {
    assert_eq!(identify_token("5").unwrap(), Token::Number(5));
    assert_eq!(identify_token("0").unwrap(), Token::Number(0));
    assert_eq!(identify_token("-17").unwrap(), Token::Number(-17));
    assert_eq!(identify_token("-0").unwrap(), Token::Number(0));
    assert_eq!(identify_token("007").unwrap(), Token::Number(7));
    assert_eq!(identify_token("2147483647").unwrap(), Token::Number(2147483647));
    assert_eq!(identify_token("-2147483648").unwrap(), Token::Number(-2147483648));
}

#[test]
fn out_of_range_numbers_are_rejected() {
    assert!(matches!(identify_token("2147483648"), Err(Error::Tokenize { .. })));
    assert!(matches!(identify_token("-2147483649"), Err(Error::Tokenize { .. })));
    assert!(matches!(
        identify_token("99999999999999999999"),
        Err(Error::Tokenize { .. })
    ));
}

#[test]
fn malformed_words_are_rejected() {
    assert!(matches!(identify_token("+5"), Err(Error::Tokenize { .. })));
    assert!(matches!(identify_token(""), Err(Error::Tokenize { .. })));
    assert!(matches!(identify_token("-"), Err(Error::Tokenize { .. })));
    assert!(matches!(identify_token("1.5"), Err(Error::Tokenize { .. })));
    assert!(matches!(identify_token("0x10"), Err(Error::Tokenize { .. })));
    assert!(matches!(identify_token("push5"), Err(Error::Tokenize { .. })));
    assert!(matches!(identify_token("12a"), Err(Error::Tokenize { .. })));
    assert!(matches!(identify_token("1-2"), Err(Error::Tokenize { .. })));
}

#[test]
fn parse_i32_matches_literal_grammar() {
    assert_eq!(parse_i32("42"), Some(42));
    assert_eq!(parse_i32("-1"), Some(-1));
    assert_eq!(parse_i32("push"), None);
    assert_eq!(parse_i32("--1"), None);
    assert_eq!(parse_i32(" 1"), None);
    assert_eq!(parse_i32("2147483648"), None);
}
