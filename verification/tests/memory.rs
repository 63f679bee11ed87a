use std::collections::HashMap;

use bf::{BfError, BracketMap, Memory, Token};

#[test]
fn test_new() {
    let size: usize = 10;
    let tokens = vec![Token::Inc, Token::Dec];
    let mut bracket_map: BracketMap = HashMap::new();
    bracket_map.insert(1, 3);
    bracket_map.insert(4, 5);
    let mut reverse_bracket_map: BracketMap = HashMap::new();
    reverse_bracket_map.insert(3, 1);
    reverse_bracket_map.insert(5, 4);
    let memory = Memory::new(size, tokens.clone(), bracket_map.clone());
    assert_eq!(memory.cells, vec![0; size]);
    assert_eq!(memory.cell_pos, 0);
    assert_eq!(memory.tokens, tokens);
    assert_eq!(memory.bracket_map, bracket_map);
    assert_eq!(memory.reverse_bracket_map, reverse_bracket_map);
}

#[test]
fn test_prev_cell() {
    let mut memory = Memory::new(3, vec![], HashMap::new());
    memory.cell_pos += 1;
    memory.prev_cell();
    assert_eq!(memory.cell_pos, 0);
}

#[test]
fn test_next_cell() {
    let mut memory = Memory::new(3, vec![], HashMap::new());
    memory.next_cell();
    assert_eq!(memory.cell_pos, 1);
}

#[test]
fn test_next_token() {
    let expected_token = Token::Dec;
    let tokens = vec![Token::Inc, expected_token];
    let mut memory = Memory::new(3, tokens.clone(), HashMap::new());
    memory.next_token();
    assert_eq!(memory.current_token(), expected_token);
}

#[test]
fn test_increment() {
    let mut memory = Memory::new(3, vec![], HashMap::new());
    memory.cells = vec![0];
    memory.increment();
    assert_eq!(memory.cells, vec![1]);
}

#[test]
fn test_decrement() {
    let mut memory = Memory::new(1, vec![], HashMap::new());
    memory.cells = vec![1];
    memory.decrement();
    assert_eq!(memory.cells, vec![0]);
}

#[test]
fn test_open_jump_behind_of_correspond_close_bracket() {
    let mut bracket_map = HashMap::new();
    bracket_map.insert(0, 2);
    let mut memory = Memory::new(
        3,
        vec![Token::Open, Token::Inc, Token::Close, Token::Inc],
        bracket_map,
    );
    let result = memory.open();
    assert!(result.is_ok());
    assert_eq!(memory.token_pos, 2);
}

#[test]
fn test_raise_not_found_close_bracket() {
    let tokens = vec![Token::Open, Token::Inc];
    let mut memory = Memory::new(2, tokens, HashMap::new());
    let result = memory.open();
    assert_eq!(result, Err(BfError::NotFoundCloseBracket(0)));
}

#[test]
fn test_close_jump_behind_of_correspond_open_bracket() {
    let mut bracket_map = HashMap::new();
    bracket_map.insert(1, 3);
    let mut memory = Memory::new(
        3,
        vec![Token::Inc, Token::Open, Token::Inc, Token::Close],
        bracket_map,
    );
    memory.token_pos = 3;
    memory.cells = vec![1, 0, 0];
    let result = memory.close();
    assert!(result.is_ok());
}

#[test]
fn test_raise_not_found_open_bracket() {
    let tokens = vec![Token::Close, Token::Inc];
    let mut memory = Memory::new(2, tokens, HashMap::new());
    memory.cells = vec![1, 0];
    let result = memory.close();
    assert_eq!(result, Err(BfError::NotFoundOpenBracket(0)));
}

#[test]
fn test_increment_wraps_at_byte_range() {
    let mut memory = Memory::new(1, vec![], HashMap::new());
    memory.cells = vec![255];
    memory.increment();
    assert_eq!(memory.cells, vec![0]);
}

#[test]
fn test_decrement_wraps_at_byte_range() {
    let mut memory = Memory::new(1, vec![], HashMap::new());
    memory.cells = vec![0];
    memory.decrement();
    assert_eq!(memory.cells, vec![255]);
}

#[test]
fn test_get_char_consumes_input() {
    let mut memory = Memory::new(1, vec![], HashMap::new());
    memory.input = vec![7, 9];
    assert_eq!(memory.get_char(), Ok(()));
    assert_eq!(memory.cells, vec![7]);
    assert_eq!(memory.input_pos, 1);
    assert_eq!(memory.get_char(), Ok(()));
    assert_eq!(memory.cells, vec![9]);
    assert_eq!(memory.get_char(), Err(BfError::GetCharError));
}

#[test]
fn test_put_char_appends_output() {
    let mut memory = Memory::new(1, vec![], HashMap::new());
    memory.cells = vec![65];
    memory.put_char();
    memory.put_char();
    assert_eq!(memory.output, vec![65, 65]);
}
