use vstd::prelude::*;

verus! {

/// The error taxonomy of the interpreter. The taxonomy is flat: each variant
/// is a leaf cause, and no variant wraps another error. Positions index the
/// instruction sequence.
#[derive(Debug, Clone, PartialEq, Eq, Structural)]
pub enum BfError {
    /// The source text holds a character outside the eight instruction
    /// symbols. Tokenization stops at the first such character and reports
    /// no position.
    TokenizeError,
    /// Bracket resolution found an orphan loop-close or an unmatched
    /// loop-open at the given position.
    InvalidBracketPair(usize),
    /// The input byte buffer was exhausted when a read instruction ran.
    GetCharError,
    /// A loop-open instruction has no entry in the bracket map. Defensive:
    /// unreachable when the map was produced by the bracket resolver.
    NotFoundCloseBracket(usize),
    /// A loop-close instruction has no entry in the reverse bracket map.
    /// Defensive, as above.
    NotFoundOpenBracket(usize),
    /// The data pointer would move below zero or beyond the tape, or a cell
    /// beyond the tape would be touched, at the given instruction position.
    OutOfBounds(usize),
    /// The dispatch budget of a run was exhausted before the program halted.
    /// The budget is `u64::MAX` dispatches, so no physical run reaches this;
    /// it reports a program that does not halt.
    StepLimit,
}

} // verus!
