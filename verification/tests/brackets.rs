use std::collections::HashMap;

use bf::{build_bracket_map, BfError, Token};

#[test]
fn test_no_nest() {
    let tokens = vec![Token::Open, Token::Close];
    let actual = build_bracket_map(&tokens);
    let mut expected = HashMap::new();
    expected.insert(0, 1);
    assert!(actual.is_ok());
    assert_eq!(actual, Ok(expected));
}

#[test]
fn test_one_nest() {
    let tokens = vec![Token::Open, Token::Open, Token::Close, Token::Close];
    let actual = build_bracket_map(&tokens);
    let mut expected = HashMap::new();
    expected.insert(0, 3);
    expected.insert(1, 2);
    assert!(actual.is_ok());
    assert_eq!(actual, Ok(expected));
}

#[test]
fn test_complex_nest() {
    let tokens = vec![
        Token::Open,
        Token::Inc,
        Token::Inc,
        Token::Open,
        Token::Inc,
        Token::Close,
        Token::Open,
        Token::Open,
        Token::Open,
        Token::Open,
        Token::Close,
        Token::Next,
        Token::Close,
        Token::Inc,
        Token::Close,
        Token::Next,
        Token::Inc,
        Token::Close,
        Token::Dec,
        Token::Close,
    ];
    let actual = build_bracket_map(&tokens);
    let mut expected = HashMap::new();
    expected.insert(0, 19);
    expected.insert(3, 5);
    expected.insert(6, 17);
    expected.insert(7, 14);
    expected.insert(8, 12);
    expected.insert(9, 10);
    assert!(actual.is_ok());
    assert_eq!(actual, Ok(expected));
}

#[test]
fn test_start_not_bracket() {
    let tokens = vec![Token::Inc, Token::Open, Token::Close];
    let actual = build_bracket_map(&tokens);
    let mut expected = HashMap::new();
    expected.insert(1, 2);
    assert!(actual.is_ok());
    assert_eq!(actual, Ok(expected));
}

#[test]
fn test_end_not_bracket() {
    let tokens = vec![Token::Open, Token::Close, Token::Inc];
    let actual = build_bracket_map(&tokens);
    let mut expected = HashMap::new();
    expected.insert(0, 1);
    assert!(actual.is_ok());
    assert_eq!(actual, Ok(expected));
}

#[test]
fn test_not_close() {
    let tokens = vec![Token::Open, Token::Inc];
    let actual = build_bracket_map(&tokens);
    assert!(actual.is_err());
    assert_eq!(actual, Err(BfError::InvalidBracketPair(0)));
}

#[test]
fn test_start_close() {
    let tokens = vec![Token::Close];
    let actual = build_bracket_map(&tokens);
    assert!(actual.is_err());
    assert_eq!(actual, Err(BfError::InvalidBracketPair(0)));
}

#[test]
fn test_unmatched_open_after_closed_pair() {
    let tokens = vec![Token::Open, Token::Open, Token::Close];
    let actual = build_bracket_map(&tokens);
    assert_eq!(actual, Err(BfError::InvalidBracketPair(0)));
}

#[test]
fn test_orphan_close_after_closed_pair() {
    let tokens = vec![Token::Open, Token::Close, Token::Close];
    let actual = build_bracket_map(&tokens);
    assert_eq!(actual, Err(BfError::InvalidBracketPair(2)));
}

#[test]
fn test_empty_token_sequence() {
    let tokens = vec![];
    let actual = build_bracket_map(&tokens);
    assert_eq!(actual, Ok(HashMap::new()));
}
