use bf::{tokenize_code, BfError, Token};

#[test]
fn test_ok() {
    let src = "+-,.<>[]";
    let actual = tokenize_code(src);
    assert!(actual.is_ok());
    assert_eq!(
        actual,
        Ok(vec![
            Token::Inc,
            Token::Dec,
            Token::GetChar,
            Token::PutChar,
            Token::Prev,
            Token::Next,
            Token::Open,
            Token::Close
        ]),
    );
}

#[test]
fn test_tokenize_error() {
    let src = "a.";
    let actual = tokenize_code(src);
    assert!(actual.is_err());
    assert_eq!(actual, Err(BfError::TokenizeError));
}

#[test]
fn test_tokenize_error_late_invalid_character() {
    let actual = tokenize_code("+-+ +");
    assert_eq!(actual, Err(BfError::TokenizeError));
}

#[test]
fn test_tokenize_empty_source() {
    let actual = tokenize_code("");
    assert_eq!(actual, Ok(vec![]));
}

#[test]
fn test_tokenize_single_character() {
    let actual = Token::tokenize(&'+');
    assert_eq!(actual, Ok(Token::Inc));
    let actual = Token::tokenize(&'x');
    assert_eq!(actual, Err(BfError::TokenizeError));
}
