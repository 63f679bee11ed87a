//! An interpreter for a minimal eight-symbol language that runs on a linear
//! tape of byte cells.
//!
//! The pipeline has three stages: the tokenizer turns source text into a
//! sequence of instructions, the bracket resolver computes the map between
//! matching loop brackets, and the tape machine executes the instructions
//! against a mutable tape, consuming an input byte buffer and appending to an
//! output byte buffer. Each stage carries a contract that pins its result
//! down, and the execution loop is proved to follow a small-step semantics
//! given as a specification-level machine.

pub mod brackets;
pub mod errors;
pub mod machine;
pub mod semantics;
pub mod token;

pub use brackets::build_bracket_map;
pub use brackets::BracketMap;
pub use errors::BfError;
pub use machine::eval;
pub use machine::eval_with_input;
pub use machine::Memory;
pub use token::tokenize_code;
pub use token::Token;
pub use token::Tokens;
