use bf::{eval, eval_with_input, BfError};

#[test]
fn test_inc_dec() {
    let src = "+++++--";
    let actual = eval(src, 1);
    assert!(actual.is_ok());
    assert_eq!(actual.unwrap().cells, vec![3]);
}

#[test]
fn test_move_ptr() {
    let src = "++++>+>++->+<<<-";
    let actual = eval(src, 4);
    assert!(actual.is_ok());
    assert_eq!(actual.unwrap().cells, vec![3, 1, 1, 1]);
}

#[test]
fn test_loop() {
    let src = "+[-]";
    let actual = eval(src, 1);
    assert!(actual.is_ok());
    assert_eq!(actual.unwrap().cells, vec![0]);
}

#[test]
fn test_nested_loop() {
    let src = "+++++[>+++[>+++<-]<-]";
    let actual = eval(src, 3);
    assert!(actual.is_ok());
    assert_eq!(actual.unwrap().cells, vec![0, 0, 45]);
}

#[test]
fn test_many_symbol() {
    let src = "+++++++++++++++++++++++++++++++++++++++++++++++++++++++++++++++++++++++++++++++++++++++++++++++++++++++++++++++++++++++++++++++++++++++++++++++++++++++++++++++++++++++++++++++++++++++++++++++++++++++++++++++";
    let actual = eval(src, 1);
    assert!(actual.is_ok());
}

#[test]
fn test_hello_world() {
    let src = ">+++++++++[<++++++++>-]<.>+++++++[<++++>-]<+.+++++++..+++.[-]>++++++++[<++++>-]<.>+++++++++++[<+++++>-]<.>++++++++[<+++>-]<.+++.------.--------.[-]>++++++++[<++++>-]<+.[-]++++++++++.";
    let actual = eval(src, 100000);
    assert!(actual.is_ok());
}

#[test]
fn test_hello_world_output() {
    let src = ">+++++++++[<++++++++>-]<.>+++++++[<++++>-]<+.+++++++..+++.[-]>++++++++[<++++>-]<.>+++++++++++[<+++++>-]<.>++++++++[<+++>-]<.+++.------.--------.[-]>++++++++[<++++>-]<+.[-]++++++++++.";
    let actual = eval(src, 100000);
    assert_eq!(actual.unwrap().output, b"Hello World!\n".to_vec());
}

#[test]
fn test_eval_empty_program() {
    let actual = eval("", 1);
    assert!(actual.is_ok());
    assert_eq!(actual.unwrap().cells, vec![0]);
}

#[test]
fn test_eval_tokenize_error() {
    assert_eq!(eval("+a", 1), Err(BfError::TokenizeError));
}

#[test]
fn test_eval_unbalanced_program() {
    assert_eq!(eval("+[", 1), Err(BfError::InvalidBracketPair(1)));
    assert_eq!(eval("+]", 1), Err(BfError::InvalidBracketPair(1)));
}

#[test]
fn test_eval_exhausted_input() {
    assert_eq!(eval(",", 1), Err(BfError::GetCharError));
    assert_eq!(eval_with_input(",,", 1, vec![1]), Err(BfError::GetCharError));
}

#[test]
fn test_eval_pointer_out_of_bounds() {
    assert_eq!(eval("<", 1), Err(BfError::OutOfBounds(0)));
    assert_eq!(eval(">>", 1), Err(BfError::OutOfBounds(1)));
    assert_eq!(eval("+", 0), Err(BfError::OutOfBounds(0)));
}

#[test]
fn test_eval_cell_wraparound() {
    let src = "-";
    let actual = eval(src, 1);
    assert_eq!(actual.unwrap().cells, vec![255]);
}
