use vstd::prelude::*;

use crate::errors::BfError;

verus! {

/// One instruction of the language. Exactly eight variants exist, one per
/// recognized source character; invalid characters never produce a value of
/// this type.
#[derive(Debug, Clone, Copy, PartialEq, Eq, Structural)]
pub enum Token {
    /// `+`: add one to the current cell, wrapping modulo 256.
    Inc,
    /// `-`: subtract one from the current cell, wrapping modulo 256.
    Dec,
    /// `>`: move the data pointer one cell forward.
    Next,
    /// `<`: move the data pointer one cell backward.
    Prev,
    /// `,`: read one byte from the input buffer into the current cell.
    GetChar,
    /// `.`: append the current cell to the output buffer.
    PutChar,
    /// `[`: jump past the matching close when the current cell is zero.
    Open,
    /// `]`: jump back to the matching open when the current cell is not zero.
    Close,
}

/// The instruction sequence of a program, in source order. Positions in this
/// list are the sole addressing scheme for jumps.
pub type Tokens = Vec<Token>;

/// The symbol-to-instruction mapping: `Some` for the eight recognized
/// characters, `None` for every other character.
pub open spec fn token_of(c: char) -> Option<Token> {
    if c == '+' {
        Some(Token::Inc)
    } else if c == '-' {
        Some(Token::Dec)
    } else if c == '>' {
        Some(Token::Next)
    } else if c == '<' {
        Some(Token::Prev)
    } else if c == ',' {
        Some(Token::GetChar)
    } else if c == '.' {
        Some(Token::PutChar)
    } else if c == '[' {
        Some(Token::Open)
    } else if c == ']' {
        Some(Token::Close)
    } else {
        None
    }
}

/// Every character of the text is one of the eight recognized symbols.
pub open spec fn all_chars_valid(s: Seq<char>) -> bool {
    forall|i: int| 0 <= i < s.len() ==> #[trigger] token_of(s[i]) is Some
}

/// The instruction sequence of a fully recognized source text, in source
/// order, one instruction per character.
pub open spec fn spec_tokenize(s: Seq<char>) -> Seq<Token> {
    Seq::new(s.len(), |i: int| token_of(s[i]).unwrap())
}

impl Token {
    /// Convert one source character into its instruction, or fail on a
    /// character outside the eight-symbol set.
    pub fn tokenize(ch: &char) -> (r: Result<Self, BfError>)
        ensures
            r == match token_of(*ch) {
                Some(t) => Ok::<Token, BfError>(t),
                None => Err::<Token, BfError>(BfError::TokenizeError),
            },
    {
        match ch {
            '+' => Ok(Token::Inc),
            '-' => Ok(Token::Dec),
            '>' => Ok(Token::Next),
            '<' => Ok(Token::Prev),
            ',' => Ok(Token::GetChar),
            '.' => Ok(Token::PutChar),
            '[' => Ok(Token::Open),
            ']' => Ok(Token::Close),
            _ => Err(BfError::TokenizeError),
        }
    }
}

/// Tokenize a whole source text in one left-to-right pass, preserving source
/// order and aborting at the first unrecognized character. Succeeds exactly
/// when every character is one of the eight symbols.
pub fn tokenize_code(src: &str) -> (r: Result<Tokens, BfError>)
    ensures
        match r {
            Ok(tokens) => all_chars_valid(src@) && tokens@ == spec_tokenize(src@),
            Err(e) => e == BfError::TokenizeError && !all_chars_valid(src@),
        },
{
    let mut tokens: Tokens = Vec::new();
    for c in it: src.chars()
        invariant
            it.seq() == src@,
            tokens@.len() == it.index(),
            forall|j: int|
                0 <= j < tokens@.len() ==> #[trigger] token_of(src@[j]) is Some && tokens@[j]
                    == token_of(src@[j]).unwrap(),
    {
        match Token::tokenize(&c) {
            Ok(t) => {
                tokens.push(t);
            },
            Err(e) => {
                assert(token_of(src@[it.index() as int]) is None);
                return Err(e);
            },
        }
    }
    assert(tokens@ =~= spec_tokenize(src@));
    Ok(tokens)
}

} // verus!
