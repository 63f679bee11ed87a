use vstd::prelude::*;

use std::collections::HashMap;

use crate::brackets::{
    balanced, build_bracket_map, first_orphan_close_at, first_unmatched_open_at, has_orphan_close,
    lemma_spec_bracket_map_wf, orphan_close_at, spec_bracket_map, unmatched_open_at, BracketMap,
};
use crate::errors::BfError;
use crate::semantics::{
    dec_cell, inc_cell, init_state, is_running, is_terminal, lemma_run_deterministic,
    lemma_run_snoc, lemma_terminal_stable, run_n, step, Config, MachineState,
};
use crate::token::{all_chars_valid, spec_tokenize, tokenize_code, Token, Tokens};
use vstd::std_specs::iter::IteratorSpec;

verus! {

/// The tape machine: the tape of byte cells, the data pointer, the
/// instruction sequence, the instruction pointer, the two bracket maps, the
/// input byte buffer with its cursor, and the output byte buffer. One value
/// of this type owns the whole execution state of one run.
#[derive(Debug, PartialEq)]
pub struct Memory {
    pub cells: Vec<u8>,
    pub cell_pos: usize,
    pub tokens: Tokens,
    pub token_pos: usize,
    pub bracket_map: BracketMap,
    pub reverse_bracket_map: BracketMap,
    pub input: Vec<u8>,
    pub input_pos: usize,
    pub output: Vec<u8>,
}

/// The fields that stay fixed over a run: the program, the bracket maps and
/// the input buffer are never written by the machine.
pub open spec fn same_program(a: Memory, b: Memory) -> bool {
    &&& a.tokens == b.tokens
    &&& a.bracket_map == b.bracket_map
    &&& a.reverse_bracket_map == b.reverse_bracket_map
    &&& a.input == b.input
}

impl Memory {
    /// The mutable execution state this machine is in, at the level of the
    /// specification machine.
    pub open spec fn machine_state(&self) -> MachineState {
        MachineState {
            cells: self.cells@,
            cell_pos: self.cell_pos as int,
            token_pos: self.token_pos as int,
            input_pos: self.input_pos as int,
            output: self.output@,
        }
    }

    /// The immutable context this machine runs under, at the level of the
    /// specification machine.
    pub open spec fn machine_config(&self) -> Config {
        Config {
            tokens: self.tokens@,
            fwd: self.bracket_map@,
            rev: self.reverse_bracket_map@,
            input: self.input@,
        }
    }

    /// Build a machine over a zeroed tape of `size` cells, with both
    /// pointers at zero and an empty input and output buffer. The reverse
    /// bracket map is derived by inverting every pair of the given map; when
    /// the given map is injective — as every map built by the bracket
    /// resolver is — the result is exactly its inverse.
    ///
    /// Relies on the specification of `std::collections::HashMap` iteration
    /// from vstd.
    pub fn new(size: usize, tokens: Tokens, bracket_map: BracketMap) -> (m: Memory)
        ensures
            m.cells@ == Seq::new(size as nat, |i: int| 0u8),
            m.cell_pos == 0,
            m.tokens == tokens,
            m.token_pos == 0,
            m.bracket_map == bracket_map,
            m.input@ == Seq::<u8>::empty(),
            m.input_pos == 0,
            m.output@ == Seq::<u8>::empty(),
            forall|o: usize| #[trigger]
                bracket_map@.contains_key(o) ==> m.reverse_bracket_map@.contains_key(
                    bracket_map@[o],
                ),
            forall|c: usize| #[trigger]
                m.reverse_bracket_map@.contains_key(c) ==> bracket_map@.contains_key(
                    m.reverse_bracket_map@[c],
                ) && bracket_map@[m.reverse_bracket_map@[c]] == c,
            bracket_map@.is_injective() ==> m.reverse_bracket_map@ == bracket_map@.invert(),
    {
        broadcast use vstd::std_specs::hash::group_hash_axioms;

        let cells: Vec<u8> = vec![0u8; size];
        let mut reverse_bracket_map: BracketMap = HashMap::new();
        for kv in it: bracket_map.iter()
            invariant
                it.seq() == vstd::std_specs::hash::spec_hash_map_iter(&bracket_map).remaining(),
                forall|c: usize| #[trigger]
                    reverse_bracket_map@.contains_key(c) ==> bracket_map@.contains_key(
                        reverse_bracket_map@[c],
                    ) && bracket_map@[reverse_bracket_map@[c]] == c,
                forall|o: usize| #[trigger]
                    bracket_map@.contains_key(o) ==> reverse_bracket_map@.contains_key(
                        bracket_map@[o],
                    ) || (exists|j: int|
                        it.index() <= j < it.seq().len() && (#[trigger] it.seq()[j]) == (
                            &o,
                            &bracket_map@[o],
                        )),
        {
            let (open_pos, close_pos) = kv;
            reverse_bracket_map.insert(*close_pos, *open_pos);
        }
        proof {
            if bracket_map@.is_injective() {
                assert forall|c: usize| bracket_map@.invert().dom().contains(c) implies
                    reverse_bracket_map@.contains_key(c) by {
                    assert(bracket_map@.contains_value(c));
                    let o = choose|o: usize| #[trigger]
                        bracket_map@.dom().contains(o) && bracket_map@[o] == c;
                    assert(bracket_map@.contains_key(o));
                }
                assert forall|c: usize| #[trigger] reverse_bracket_map@.contains_key(c) implies
                    bracket_map@.invert().dom().contains(c) && bracket_map@.invert()[c]
                        == reverse_bracket_map@[c] by {
                    let o = reverse_bracket_map@[c];
                    assert(bracket_map@.dom().contains(o) && bracket_map@[o] == c);
                    assert(bracket_map@.contains_value(c));
                    let o2 = choose|k: usize| bracket_map@.contains_pair(k, c);
                    assert(bracket_map@.contains_pair(o, c));
                    assert(bracket_map@.invert()[c] == o2);
                    assert(bracket_map@.contains_key(o2) && bracket_map@.contains_key(o));
                    assert(o2 == o);
                }
                assert(reverse_bracket_map@ =~= bracket_map@.invert());
            }
        }
        Memory {
            cells,
            cell_pos: 0,
            tokens,
            token_pos: 0,
            bracket_map,
            reverse_bracket_map,
            input: Vec::new(),
            input_pos: 0,
            output: Vec::new(),
        }
    }

    /// Move the data pointer one cell backward.
    pub fn prev_cell(&mut self)
        requires
            old(self).cell_pos >= 1,
        ensures
            same_program(*old(self), *final(self)),
            final(self).cell_pos == old(self).cell_pos - 1,
            final(self).cells == old(self).cells,
            final(self).token_pos == old(self).token_pos,
            final(self).input_pos == old(self).input_pos,
            final(self).output == old(self).output,
    {
        self.cell_pos -= 1;
    }

    /// Move the data pointer one cell forward.
    pub fn next_cell(&mut self)
        requires
            old(self).cell_pos < usize::MAX,
        ensures
            same_program(*old(self), *final(self)),
            final(self).cell_pos == old(self).cell_pos + 1,
            final(self).cells == old(self).cells,
            final(self).token_pos == old(self).token_pos,
            final(self).input_pos == old(self).input_pos,
            final(self).output == old(self).output,
    {
        self.cell_pos += 1;
    }

    /// Advance the instruction pointer by one; runs after every dispatch.
    pub fn next_token(&mut self)
        requires
            old(self).token_pos < usize::MAX,
        ensures
            same_program(*old(self), *final(self)),
            final(self).token_pos == old(self).token_pos + 1,
            final(self).cells == old(self).cells,
            final(self).cell_pos == old(self).cell_pos,
            final(self).input_pos == old(self).input_pos,
            final(self).output == old(self).output,
    {
        self.token_pos += 1;
    }

    /// The instruction under the instruction pointer.
    pub fn current_token(&self) -> (t: Token)
        requires
            self.token_pos < self.tokens.len(),
        ensures
            t == self.tokens@[self.token_pos as int],
    {
        self.tokens[self.token_pos]
    }

    /// The value of the cell under the data pointer.
    pub fn current_cell(&self) -> (v: u8)
        requires
            self.cell_pos < self.cells.len(),
        ensures
            v == self.cells@[self.cell_pos as int],
    {
        self.cells[self.cell_pos]
    }

    /// Add one to the current cell, wrapping modulo 256.
    pub fn increment(&mut self)
        requires
            old(self).cell_pos < old(self).cells.len(),
        ensures
            same_program(*old(self), *final(self)),
            final(self).cells@ == old(self).cells@.update(
                old(self).cell_pos as int,
                inc_cell(old(self).cells@[old(self).cell_pos as int]),
            ),
            final(self).cell_pos == old(self).cell_pos,
            final(self).token_pos == old(self).token_pos,
            final(self).input_pos == old(self).input_pos,
            final(self).output == old(self).output,
    {
        let v = self.cells[self.cell_pos];
        self.cells[self.cell_pos] = if v == 255 {
            0
        } else {
            v + 1
        };
    }

    /// Subtract one from the current cell, wrapping modulo 256.
    pub fn decrement(&mut self)
        requires
            old(self).cell_pos < old(self).cells.len(),
        ensures
            same_program(*old(self), *final(self)),
            final(self).cells@ == old(self).cells@.update(
                old(self).cell_pos as int,
                dec_cell(old(self).cells@[old(self).cell_pos as int]),
            ),
            final(self).cell_pos == old(self).cell_pos,
            final(self).token_pos == old(self).token_pos,
            final(self).input_pos == old(self).input_pos,
            final(self).output == old(self).output,
    {
        let v = self.cells[self.cell_pos];
        self.cells[self.cell_pos] = if v == 0 {
            255
        } else {
            v - 1
        };
    }

    /// Consume one byte from the input buffer into the current cell, or fail
    /// when the buffer is exhausted. On failure nothing changes.
    pub fn get_char(&mut self) -> (r: Result<(), BfError>)
        requires
            old(self).cell_pos < old(self).cells.len(),
        ensures
            same_program(*old(self), *final(self)),
            final(self).cell_pos == old(self).cell_pos,
            final(self).token_pos == old(self).token_pos,
            final(self).output == old(self).output,
            if old(self).input_pos < old(self).input.len() {
                &&& r == Ok::<(), BfError>(())
                &&& final(self).cells@ == old(self).cells@.update(
                    old(self).cell_pos as int,
                    old(self).input@[old(self).input_pos as int],
                )
                &&& final(self).input_pos == old(self).input_pos + 1
            } else {
                &&& r == Err::<(), BfError>(BfError::GetCharError)
                &&& final(self).cells == old(self).cells
                &&& final(self).input_pos == old(self).input_pos
            },
    {
        if self.input_pos < self.input.len() {
            let b = self.input[self.input_pos];
            self.cells[self.cell_pos] = b;
            self.input_pos += 1;
            Ok(())
        } else {
            Err(BfError::GetCharError)
        }
    }

    /// Append the current cell to the output buffer, in execution order.
    pub fn put_char(&mut self)
        requires
            old(self).cell_pos < old(self).cells.len(),
        ensures
            same_program(*old(self), *final(self)),
            final(self).cells == old(self).cells,
            final(self).cell_pos == old(self).cell_pos,
            final(self).token_pos == old(self).token_pos,
            final(self).input_pos == old(self).input_pos,
            final(self).output@ == old(self).output@.push(
                old(self).cells@[old(self).cell_pos as int],
            ),
    {
        let b = self.cells[self.cell_pos];
        self.output.push(b);
    }

    /// Dispatch a loop-open: when the current cell is zero, jump to the
    /// matching loop-close found in the bracket map, or fail when the map
    /// has no entry for this position; otherwise do nothing.
    pub fn open(&mut self) -> (r: Result<(), BfError>)
        requires
            old(self).cell_pos < old(self).cells.len(),
        ensures
            same_program(*old(self), *final(self)),
            final(self).cells == old(self).cells,
            final(self).cell_pos == old(self).cell_pos,
            final(self).input_pos == old(self).input_pos,
            final(self).output == old(self).output,
            ({
                let cur = old(self).cells@[old(self).cell_pos as int];
                let pos = old(self).token_pos;
                if cur != 0 {
                    r == Ok::<(), BfError>(()) && final(self).token_pos == pos
                } else if old(self).bracket_map@.contains_key(pos) {
                    r == Ok::<(), BfError>(()) && final(self).token_pos
                        == old(self).bracket_map@[pos]
                } else {
                    r == Err::<(), BfError>(BfError::NotFoundCloseBracket(pos))
                        && final(self).token_pos == pos
                }
            }),
    {
        broadcast use vstd::std_specs::hash::group_hash_axioms;

        if self.current_cell() == 0 {
            match self.bracket_map.get(&self.token_pos) {
                Some(close_pos) => {
                    self.token_pos = *close_pos;
                },
                None => {
                    return Err(BfError::NotFoundCloseBracket(self.token_pos));
                },
            }
        }
        Ok(())
    }

    /// Dispatch a loop-close: when the current cell is not zero, jump back
    /// to the matching loop-open found in the reverse map, or fail when the
    /// map has no entry for this position; otherwise do nothing.
    pub fn close(&mut self) -> (r: Result<(), BfError>)
        requires
            old(self).cell_pos < old(self).cells.len(),
        ensures
            same_program(*old(self), *final(self)),
            final(self).cells == old(self).cells,
            final(self).cell_pos == old(self).cell_pos,
            final(self).input_pos == old(self).input_pos,
            final(self).output == old(self).output,
            ({
                let cur = old(self).cells@[old(self).cell_pos as int];
                let pos = old(self).token_pos;
                if cur == 0 {
                    r == Ok::<(), BfError>(()) && final(self).token_pos == pos
                } else if old(self).reverse_bracket_map@.contains_key(pos) {
                    r == Ok::<(), BfError>(()) && final(self).token_pos
                        == old(self).reverse_bracket_map@[pos]
                } else {
                    r == Err::<(), BfError>(BfError::NotFoundOpenBracket(pos))
                        && final(self).token_pos == pos
                }
            }),
    {
        broadcast use vstd::std_specs::hash::group_hash_axioms;

        if self.current_cell() != 0 {
            match self.reverse_bracket_map.get(&self.token_pos) {
                Some(open_pos) => {
                    self.token_pos = *open_pos;
                },
                None => {
                    return Err(BfError::NotFoundOpenBracket(self.token_pos));
                },
            }
        }
        Ok(())
    }
}

/// The specification-level context a source text and an input buffer give
/// rise to: its token sequence with the matching bracket map and the exact
/// inverse of that map.
pub open spec fn run_config(tokens: Seq<Token>, input: Seq<u8>) -> Config {
    Config {
        tokens,
        fwd: spec_bracket_map(tokens),
        rev: spec_bracket_map(tokens).invert(),
        input,
    }
}

/// The run of the specification machine reaches, after `n` dispatches, the
/// outcome that `r` reports: a halted state whose tape, pointers and output
/// the returned machine carries, or the first error of the run.
pub open spec fn run_reaches(
    c: Config,
    size: nat,
    n: nat,
    r: Result<Memory, BfError>,
) -> bool {
    match run_n(c, init_state(size), n) {
        Ok(s) => {
            &&& !is_running(c, s)
            &&& r matches Ok(m) && m.machine_state() == s && m.machine_config() == c
        },
        Err(e) => r == Err::<Memory, BfError>(e),
    }
}

/// The dispatch budget of one run. A program that halts does so unchanged
/// under this bound — no physical run dispatches this many instructions —
/// and a program that does not halt fails with the budget error instead of
/// running forever.
pub open spec fn fuel() -> nat {
    u64::MAX as nat
}

/// What evaluation returns, for every source text, tape size and input:
/// the tokenizer's error on the first unrecognized character; the resolver's
/// error on an unbalanced program, at the first orphan close or else the
/// first unmatched open; otherwise the outcome the specification machine
/// reaches within the dispatch budget, or the budget error when the machine
/// is still running at every point under the budget.
pub open spec fn eval_post(
    src: Seq<char>,
    size: nat,
    input: Seq<u8>,
    r: Result<Memory, BfError>,
) -> bool {
    if !all_chars_valid(src) {
        r == Err::<Memory, BfError>(BfError::TokenizeError)
    } else {
        let tokens = spec_tokenize(src);
        if !balanced(tokens) {
            &&& r is Err
            &&& r->Err_0 matches BfError::InvalidBracketPair(p) && (if has_orphan_close(tokens) {
                first_orphan_close_at(tokens, p as int)
            } else {
                first_unmatched_open_at(tokens, p as int)
            })
        } else {
            let c = run_config(tokens, input);
            ||| (exists|n: nat| n <= fuel() && #[trigger] run_reaches(c, size, n, r))
            ||| (r == Err::<Memory, BfError>(BfError::StepLimit) && forall|n: nat|
                n <= fuel() ==> !is_terminal(c, #[trigger] run_n(c, init_state(size), n)))
        }
    }
}

/// Run a program against a fresh tape of `size` cells, reading from the
/// given input buffer: tokenize, resolve the brackets, then dispatch
/// instructions until the instruction pointer passes the last one or the
/// first error is hit. On success the returned machine holds the final tape,
/// both pointers, the input cursor and the collected output.
#[verifier::loop_isolation(false)]
pub fn eval_with_input(src: &str, size: usize, input: Vec<u8>) -> (r: Result<Memory, BfError>)
    ensures
        eval_post(src@, size as nat, input@, r),
{
    let tokens = match tokenize_code(src) {
        Ok(t) => t,
        Err(e) => {
            return Err(e);
        },
    };
    let ghost ts = spec_tokenize(src@);
    let bracket_map = match build_bracket_map(&tokens) {
        Ok(m) => m,
        Err(e) => {
            return Err(e);
        },
    };
    proof {
        assert(ts.len() == tokens.len() <= usize::MAX);
        lemma_spec_bracket_map_wf(ts);
    }
    let mut memory = Memory::new(size, tokens, bracket_map);
    memory.input = input;
    let ghost c = run_config(ts, input@);
    let ghost s0 = init_state(size as nat);
    let ghost mut steps: nat = 0;
    proof {
        assert(memory.machine_config() == c);
        assert(memory.machine_state() == s0);
        assert forall|p: usize| #[trigger] c.rev.contains_key(p) implies c.rev[p]
            < c.tokens.len() by {
            assert(c.fwd.contains_value(p));
            let o = choose|i: usize| #![auto] c.fwd.dom().contains(i) && c.fwd[i] == p;
            assert(c.fwd.contains_pair(o, p));
            let o2 = choose|k: usize| c.fwd.contains_pair(k, p);
            assert(c.rev[p] == o2);
            assert(c.fwd.contains_key(o2));
        }
    }
    let mut fuel_left: u64 = u64::MAX;
    while memory.token_pos < memory.tokens.len() && fuel_left > 0
        invariant
            c == run_config(ts, input@),
            s0 == init_state(size as nat),
            memory.machine_config() == c,
            steps + fuel_left == fuel(),
            run_n(c, s0, steps) == Ok::<MachineState, BfError>(memory.machine_state()),
            forall|o: usize| #[trigger] c.fwd.contains_key(o) ==> c.fwd[o] < c.tokens.len(),
            forall|p: usize| #[trigger] c.rev.contains_key(p) ==> c.rev[p] < c.tokens.len(),
        decreases fuel_left,
    {
        fuel_left = fuel_left - 1;
        let ghost pre = memory.machine_state();
        proof {
            assert(is_running(c, pre));
        }
        match memory.current_token() {
            Token::Inc => {
                if memory.cell_pos >= memory.cells.len() {
                    proof {
                        assert(step(c, pre) == Err::<MachineState, BfError>(
                            BfError::OutOfBounds(memory.token_pos),
                        ));
                        lemma_run_snoc(c, s0, steps, pre);
                        assert(run_reaches(
                            c,
                            size as nat,
                            steps + 1,
                            Err::<Memory, BfError>(BfError::OutOfBounds(memory.token_pos)),
                        ));
                    }
                    return Err(BfError::OutOfBounds(memory.token_pos));
                }
                memory.increment();
            },
            Token::Dec => {
                if memory.cell_pos >= memory.cells.len() {
                    proof {
                        assert(step(c, pre) == Err::<MachineState, BfError>(
                            BfError::OutOfBounds(memory.token_pos),
                        ));
                        lemma_run_snoc(c, s0, steps, pre);
                        assert(run_reaches(
                            c,
                            size as nat,
                            steps + 1,
                            Err::<Memory, BfError>(BfError::OutOfBounds(memory.token_pos)),
                        ));
                    }
                    return Err(BfError::OutOfBounds(memory.token_pos));
                }
                memory.decrement();
            },
            Token::Next => {
                if memory.cell_pos >= memory.cells.len() {
                    proof {
                        assert(step(c, pre) == Err::<MachineState, BfError>(
                            BfError::OutOfBounds(memory.token_pos),
                        ));
                        lemma_run_snoc(c, s0, steps, pre);
                        assert(run_reaches(
                            c,
                            size as nat,
                            steps + 1,
                            Err::<Memory, BfError>(BfError::OutOfBounds(memory.token_pos)),
                        ));
                    }
                    return Err(BfError::OutOfBounds(memory.token_pos));
                }
                memory.next_cell();
            },
            Token::Prev => {
                if memory.cell_pos == 0 {
                    proof {
                        assert(step(c, pre) == Err::<MachineState, BfError>(
                            BfError::OutOfBounds(memory.token_pos),
                        ));
                        lemma_run_snoc(c, s0, steps, pre);
                        assert(run_reaches(
                            c,
                            size as nat,
                            steps + 1,
                            Err::<Memory, BfError>(BfError::OutOfBounds(memory.token_pos)),
                        ));
                    }
                    return Err(BfError::OutOfBounds(memory.token_pos));
                }
                memory.prev_cell();
            },
            Token::GetChar => {
                if memory.cell_pos >= memory.cells.len() {
                    proof {
                        assert(step(c, pre) == Err::<MachineState, BfError>(
                            BfError::OutOfBounds(memory.token_pos),
                        ));
                        lemma_run_snoc(c, s0, steps, pre);
                        assert(run_reaches(
                            c,
                            size as nat,
                            steps + 1,
                            Err::<Memory, BfError>(BfError::OutOfBounds(memory.token_pos)),
                        ));
                    }
                    return Err(BfError::OutOfBounds(memory.token_pos));
                }
                match memory.get_char() {
                    Ok(_) => {},
                    Err(e) => {
                        proof {
                            assert(step(c, pre) == Err::<MachineState, BfError>(e));
                            lemma_run_snoc(c, s0, steps, pre);
                            assert(run_reaches(
                                c,
                                size as nat,
                                steps + 1,
                                Err::<Memory, BfError>(e),
                            ));
                        }
                        return Err(e);
                    },
                }
            },
            Token::PutChar => {
                if memory.cell_pos >= memory.cells.len() {
                    proof {
                        assert(step(c, pre) == Err::<MachineState, BfError>(
                            BfError::OutOfBounds(memory.token_pos),
                        ));
                        lemma_run_snoc(c, s0, steps, pre);
                        assert(run_reaches(
                            c,
                            size as nat,
                            steps + 1,
                            Err::<Memory, BfError>(BfError::OutOfBounds(memory.token_pos)),
                        ));
                    }
                    return Err(BfError::OutOfBounds(memory.token_pos));
                }
                memory.put_char();
            },
            Token::Open => {
                if memory.cell_pos >= memory.cells.len() {
                    proof {
                        assert(step(c, pre) == Err::<MachineState, BfError>(
                            BfError::OutOfBounds(memory.token_pos),
                        ));
                        lemma_run_snoc(c, s0, steps, pre);
                        assert(run_reaches(
                            c,
                            size as nat,
                            steps + 1,
                            Err::<Memory, BfError>(BfError::OutOfBounds(memory.token_pos)),
                        ));
                    }
                    return Err(BfError::OutOfBounds(memory.token_pos));
                }
                match memory.open() {
                    Ok(_) => {},
                    Err(e) => {
                        proof {
                            assert(step(c, pre) == Err::<MachineState, BfError>(e));
                            lemma_run_snoc(c, s0, steps, pre);
                            assert(run_reaches(
                                c,
                                size as nat,
                                steps + 1,
                                Err::<Memory, BfError>(e),
                            ));
                        }
                        return Err(e);
                    },
                }
            },
            Token::Close => {
                if memory.cell_pos >= memory.cells.len() {
                    proof {
                        assert(step(c, pre) == Err::<MachineState, BfError>(
                            BfError::OutOfBounds(memory.token_pos),
                        ));
                        lemma_run_snoc(c, s0, steps, pre);
                        assert(run_reaches(
                            c,
                            size as nat,
                            steps + 1,
                            Err::<Memory, BfError>(BfError::OutOfBounds(memory.token_pos)),
                        ));
                    }
                    return Err(BfError::OutOfBounds(memory.token_pos));
                }
                match memory.close() {
                    Ok(_) => {},
                    Err(e) => {
                        proof {
                            assert(step(c, pre) == Err::<MachineState, BfError>(e));
                            lemma_run_snoc(c, s0, steps, pre);
                            assert(run_reaches(
                                c,
                                size as nat,
                                steps + 1,
                                Err::<Memory, BfError>(e),
                            ));
                        }
                        return Err(e);
                    },
                }
            },
        }
        memory.next_token();
        proof {
            lemma_run_snoc(c, s0, steps, pre);
            assert(step(c, pre) == Ok::<MachineState, BfError>(memory.machine_state()));
            steps = steps + 1;
        }
    }
    if memory.token_pos < memory.tokens.len() {
        proof {
            assert(is_running(c, memory.machine_state()));
            assert(steps == fuel());
            assert forall|n: nat| n <= fuel() implies !is_terminal(
                c,
                #[trigger] run_n(c, s0, n),
            ) by {
                if is_terminal(c, run_n(c, s0, n)) {
                    lemma_terminal_stable(c, s0, n, steps);
                }
            }
        }
        return Err(BfError::StepLimit);
    }
    proof {
        assert(!is_running(c, memory.machine_state()));
        assert(run_reaches(c, size as nat, steps, Ok(memory)));
    }
    Ok(memory)
}

/// Determinism of evaluation: any two results that evaluation can return
/// for one source text, tape capacity and input buffer agree — the same
/// final tape, data pointer, input cursor and output on success, or the
/// same error. Running the same program twice changes nothing.
pub proof fn lemma_eval_deterministic(
    src: Seq<char>,
    size: nat,
    input: Seq<u8>,
    r1: Result<Memory, BfError>,
    r2: Result<Memory, BfError>,
)
    requires
        eval_post(src, size, input, r1),
        eval_post(src, size, input, r2),
    ensures
        match (r1, r2) {
            (Ok(m1), Ok(m2)) => m1.machine_state() == m2.machine_state() && m1.machine_config()
                == m2.machine_config(),
            (Err(e1), Err(e2)) => e1 == e2,
            _ => false,
        },
{
    if all_chars_valid(src) {
        let tokens = spec_tokenize(src);
        if !balanced(tokens) {
            match (r1->Err_0, r2->Err_0) {
                (BfError::InvalidBracketPair(p1), BfError::InvalidBracketPair(p2)) => {
                    if has_orphan_close(tokens) {
                        if p1 < p2 {
                            assert(!orphan_close_at(tokens, p1 as int));
                        } else if p2 < p1 {
                            assert(!orphan_close_at(tokens, p2 as int));
                        }
                    } else {
                        if p1 < p2 {
                            assert(!unmatched_open_at(tokens, p1 as int));
                        } else if p2 < p1 {
                            assert(!unmatched_open_at(tokens, p2 as int));
                        }
                    }
                    assert(p1 == p2);
                },
                _ => {
                    assert(false);
                },
            }
        } else {
            let c = run_config(tokens, input);
            let s0 = init_state(size);
            if exists|n: nat| n <= fuel() && #[trigger] run_reaches(c, size, n, r1) {
                let n1 = choose|n: nat| n <= fuel() && #[trigger] run_reaches(c, size, n, r1);
                assert(is_terminal(c, run_n(c, s0, n1)));
                if exists|n: nat| n <= fuel() && #[trigger] run_reaches(c, size, n, r2) {
                    let n2 = choose|n: nat|
                        n <= fuel() && #[trigger] run_reaches(c, size, n, r2);
                    assert(is_terminal(c, run_n(c, s0, n2)));
                    lemma_run_deterministic(c, s0, n1, n2);
                } else {
                    assert(!is_terminal(c, run_n(c, s0, n1)));
                    assert(false);
                }
            } else {
                assert(r1 == Err::<Memory, BfError>(BfError::StepLimit));
                if exists|n: nat| n <= fuel() && #[trigger] run_reaches(c, size, n, r2) {
                    let n2 = choose|n: nat|
                        n <= fuel() && #[trigger] run_reaches(c, size, n, r2);
                    assert(is_terminal(c, run_n(c, s0, n2)));
                    assert(!is_terminal(c, run_n(c, s0, n2)));
                    assert(false);
                }
            }
        }
    }
}

/// Run a program with an empty input buffer: a read instruction then fails
/// with the input-exhausted error, and everything else behaves as
/// `eval_with_input`.
pub fn eval(src: &str, size: usize) -> (r: Result<Memory, BfError>)
    ensures
        eval_post(src@, size as nat, Seq::<u8>::empty(), r),
{
    let input: Vec<u8> = Vec::new();
    eval_with_input(src, size, input)
}

} // verus!
