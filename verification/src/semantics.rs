use vstd::prelude::*;

use crate::errors::BfError;
use crate::token::Token;

verus! {

/// The immutable context of a run: the instruction sequence, the two bracket
/// maps, and the input byte buffer. Built once before execution and read-only
/// thereafter.
pub struct Config {
    pub tokens: Seq<Token>,
    pub fwd: Map<usize, usize>,
    pub rev: Map<usize, usize>,
    pub input: Seq<u8>,
}

/// The mutable execution state: the tape, the data pointer, the instruction
/// pointer, the input cursor, and the output produced so far.
pub struct MachineState {
    pub cells: Seq<u8>,
    pub cell_pos: int,
    pub token_pos: int,
    pub input_pos: int,
    pub output: Seq<u8>,
}

/// The state at run start: all cells zero, every pointer and cursor at zero,
/// nothing written yet.
pub open spec fn init_state(size: nat) -> MachineState {
    MachineState {
        cells: Seq::new(size, |i: int| 0u8),
        cell_pos: 0,
        token_pos: 0,
        input_pos: 0,
        output: Seq::empty(),
    }
}

/// The run goes on while the instruction pointer is at a valid index; it
/// halts normally once the pointer has moved past the last instruction.
pub open spec fn is_running(c: Config, s: MachineState) -> bool {
    0 <= s.token_pos < c.tokens.len()
}

/// Cell increment, wrapping modulo 256. Cells are bytes, so the common
/// byte-wraparound idioms of the language hold.
pub open spec fn inc_cell(v: u8) -> u8 {
    if v == 255 {
        0u8
    } else {
        (v + 1) as u8
    }
}

/// Cell decrement, wrapping modulo 256.
pub open spec fn dec_cell(v: u8) -> u8 {
    if v == 0 {
        255u8
    } else {
        (v - 1) as u8
    }
}

/// The data pointer rests on a cell of the tape.
pub open spec fn cell_in_range(s: MachineState) -> bool {
    0 <= s.cell_pos < s.cells.len()
}

/// Unconditional advance of the instruction pointer, applied after every
/// dispatch; jumps target the bracket itself, and this advance moves past it.
pub open spec fn advance(s: MachineState) -> MachineState {
    MachineState { token_pos: s.token_pos + 1, ..s }
}

/// One dispatch of the tape machine: interpret the instruction under the
/// instruction pointer against the state, then advance the pointer by one.
/// Errors are the first-failure semantics of the run: an exhausted input on
/// a read, a missing bracket-map entry on a jump, and a data pointer or cell
/// access outside the tape.
pub open spec fn step(c: Config, s: MachineState) -> Result<MachineState, BfError>
    recommends
        is_running(c, s),
{
    let pos = s.token_pos;
    match c.tokens[pos] {
        Token::Inc => if cell_in_range(s) {
            Ok(
                advance(
                    MachineState {
                        cells: s.cells.update(s.cell_pos, inc_cell(s.cells[s.cell_pos])),
                        ..s
                    },
                ),
            )
        } else {
            Err(BfError::OutOfBounds(pos as usize))
        },
        Token::Dec => if cell_in_range(s) {
            Ok(
                advance(
                    MachineState {
                        cells: s.cells.update(s.cell_pos, dec_cell(s.cells[s.cell_pos])),
                        ..s
                    },
                ),
            )
        } else {
            Err(BfError::OutOfBounds(pos as usize))
        },
        Token::Next => if s.cell_pos < s.cells.len() {
            Ok(advance(MachineState { cell_pos: s.cell_pos + 1, ..s }))
        } else {
            Err(BfError::OutOfBounds(pos as usize))
        },
        Token::Prev => if s.cell_pos >= 1 {
            Ok(advance(MachineState { cell_pos: s.cell_pos - 1, ..s }))
        } else {
            Err(BfError::OutOfBounds(pos as usize))
        },
        Token::GetChar => if !cell_in_range(s) {
            Err(BfError::OutOfBounds(pos as usize))
        } else if s.input_pos < c.input.len() {
            Ok(
                advance(
                    MachineState {
                        cells: s.cells.update(s.cell_pos, c.input[s.input_pos]),
                        input_pos: s.input_pos + 1,
                        ..s
                    },
                ),
            )
        } else {
            Err(BfError::GetCharError)
        },
        Token::PutChar => if cell_in_range(s) {
            Ok(advance(MachineState { output: s.output.push(s.cells[s.cell_pos]), ..s }))
        } else {
            Err(BfError::OutOfBounds(pos as usize))
        },
        Token::Open => if !cell_in_range(s) {
            Err(BfError::OutOfBounds(pos as usize))
        } else if s.cells[s.cell_pos] != 0 {
            Ok(advance(s))
        } else if c.fwd.contains_key(pos as usize) {
            Ok(advance(MachineState { token_pos: c.fwd[pos as usize] as int, ..s }))
        } else {
            Err(BfError::NotFoundCloseBracket(pos as usize))
        },
        Token::Close => if !cell_in_range(s) {
            Err(BfError::OutOfBounds(pos as usize))
        } else if s.cells[s.cell_pos] == 0 {
            Ok(advance(s))
        } else if c.rev.contains_key(pos as usize) {
            Ok(advance(MachineState { token_pos: c.rev[pos as usize] as int, ..s }))
        } else {
            Err(BfError::NotFoundOpenBracket(pos as usize))
        },
    }
}

/// The machine after `n` dispatches from `s`, or the first error raised on
/// the way. A halted state is kept unchanged by further dispatches.
pub open spec fn run_n(c: Config, s: MachineState, n: nat) -> Result<MachineState, BfError>
    decreases n,
{
    if n == 0 {
        Ok(s)
    } else if !is_running(c, s) {
        Ok(s)
    } else {
        match step(c, s) {
            Ok(s2) => run_n(c, s2, (n - 1) as nat),
            Err(e) => Err(e),
        }
    }
}

/// A terminal outcome: a normal halt past the last instruction, or an error.
pub open spec fn is_terminal(c: Config, r: Result<MachineState, BfError>) -> bool {
    match r {
        Ok(s) => !is_running(c, s),
        Err(_) => true,
    }
}

/// Appending one dispatch to a run: after `n` dispatches reaching a still
/// running state, the run of `n + 1` dispatches ends in that state's step.
pub proof fn lemma_run_snoc(c: Config, s0: MachineState, n: nat, s: MachineState)
    requires
        run_n(c, s0, n) == Ok::<MachineState, BfError>(s),
        is_running(c, s),
    ensures
        run_n(c, s0, n + 1) == step(c, s),
    decreases n,
{
    if n == 0 {
        assert(s0 == s);
        match step(c, s0) {
            Ok(s2) => {
                assert(run_n(c, s0, 1) == run_n(c, s2, 0));
            },
            Err(e) => {
                assert(run_n(c, s0, 1) == Err::<MachineState, BfError>(e));
            },
        }
    } else {
        assert(is_running(c, s0));
        match step(c, s0) {
            Ok(s1) => {
                assert(run_n(c, s1, (n - 1) as nat) == Ok::<MachineState, BfError>(s));
                lemma_run_snoc(c, s1, (n - 1) as nat, s);
                assert(run_n(c, s0, n + 1) == run_n(c, s1, n));
            },
            Err(_) => {
                assert(false);
            },
        }
    }
}

/// A terminal outcome is stable: dispatching further changes nothing.
pub proof fn lemma_terminal_stable(c: Config, s0: MachineState, n: nat, m: nat)
    requires
        n <= m,
        is_terminal(c, run_n(c, s0, n)),
    ensures
        run_n(c, s0, m) == run_n(c, s0, n),
    decreases m,
{
    if n == 0 {
        assert(run_n(c, s0, 0) == Ok::<MachineState, BfError>(s0));
        assert(!is_running(c, s0));
    } else if m > 0 {
        if !is_running(c, s0) {
        } else {
            match step(c, s0) {
                Ok(s1) => {
                    lemma_terminal_stable(c, s1, (n - 1) as nat, (m - 1) as nat);
                },
                Err(_) => {},
            }
        }
    }
}

/// Determinism of execution: the machine is a function of the source, the
/// bracket maps, the tape size and the input buffer alone, so any two runs
/// that reach a terminal outcome reach the same one — same final tape, same
/// pointers, same output, or the same error.
pub proof fn lemma_run_deterministic(c: Config, s0: MachineState, n1: nat, n2: nat)
    requires
        is_terminal(c, run_n(c, s0, n1)),
        is_terminal(c, run_n(c, s0, n2)),
    ensures
        run_n(c, s0, n1) == run_n(c, s0, n2),
{
    if n1 <= n2 {
        lemma_terminal_stable(c, s0, n1, n2);
    } else {
        lemma_terminal_stable(c, s0, n2, n1);
    }
}

/// Round-trip of a read followed by a write: when a write instruction
/// immediately follows a read that consumed the byte `v`, the write emits
/// exactly `v` — the value is not transformed between read and write.
pub proof fn lemma_read_write_round_trip(c: Config, s: MachineState)
    requires
        is_running(c, s),
        c.tokens[s.token_pos] is GetChar,
        s.token_pos + 1 < c.tokens.len(),
        c.tokens[s.token_pos + 1] is PutChar,
        cell_in_range(s),
        s.input_pos < c.input.len(),
    ensures
        step(c, s) is Ok,
        ({
            let s1 = step(c, s)->Ok_0;
            &&& s1.token_pos == s.token_pos + 1
            &&& step(c, s1) is Ok
            &&& step(c, s1)->Ok_0.output == s.output.push(c.input[s.input_pos])
        }),
{
    let s1 = step(c, s)->Ok_0;
    assert(s1.cells[s1.cell_pos] == c.input[s.input_pos]);
}

} // verus!
