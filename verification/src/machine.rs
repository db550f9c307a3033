//! The abstract machine: operations, machine states, and the deterministic
//! small-step semantics that the interpreter is verified against.

use vstd::prelude::*;

verus! {

/// Number of cells on the tape.
pub const TAPE_LEN: usize = 30000;

/// Byte stored by an input operation once the input stream is exhausted:
/// the low byte of the conventional end-of-stream indicator -1.
pub const EOF_BYTE: u8 = 255;

/// One operation of the translated program.
///
/// `Add` and `Move` carry an accumulated magnitude, since adjacent
/// operations of the same kind are merged during translation.
#[derive(Copy, Clone, PartialEq, Eq, Structural, Debug)]
pub enum Op {
    /// Add the delta to the current cell, wrapping modulo 256.
    Add(u8),
    /// Move the data pointer by the delta, wrapping across the tape ends.
    Move(i64),
    /// Read one byte from the input into the current cell.
    Input,
    /// Write the current cell as one byte of output.
    Output,
    /// When the current cell is zero, jump past the matching `LoopEnd`.
    LoopBegin,
    /// When the current cell is nonzero, jump past the matching `LoopBegin`.
    LoopEnd,
}

/// The whole observable state of a running program: tape contents, data
/// pointer, instruction pointer, how much input has been consumed, and the
/// output produced so far.
#[verifier::ext_equal]
pub struct MachineState {
    pub tape: Seq<u8>,
    pub dp: int,
    pub ip: int,
    pub icur: int,
    pub out: Seq<u8>,
}

/// The state every execution starts from: an all-zero tape of `TAPE_LEN`
/// cells, both pointers at zero, nothing consumed, nothing produced.
pub open spec fn init_state() -> MachineState {
    MachineState {
        tape: Seq::new(TAPE_LEN as nat, |i: int| 0u8),
        dp: 0,
        ip: 0,
        icur: 0,
        out: Seq::empty(),
    }
}

/// The cell value after adding `delta`, wrapping modulo 256.
pub open spec fn cell_add(cell: u8, delta: u8) -> u8 {
    ((cell + delta) % 256) as u8
}

/// The data pointer after moving `delta` cells on a tape of `len` cells:
/// the Euclidean remainder, so a move left past cell 0 lands at the high
/// end and a move right past the last cell lands at 0.
pub open spec fn move_dp(dp: int, delta: int, len: int) -> int {
    (dp + delta) % len
}

/// A halted state: the instruction pointer has left the operation sequence.
pub open spec fn halted(ops: Seq<Op>, s: MachineState) -> bool {
    !(0 <= s.ip < ops.len())
}

/// One step of execution. Halted states step to themselves, so the halted
/// state reached by a run is the value of `steps` at every later count too.
pub open spec fn step(ops: Seq<Op>, jt: Seq<usize>, input: Seq<u8>, s: MachineState) -> MachineState {
    if halted(ops, s) {
        s
    } else {
        match ops[s.ip] {
            Op::Add(d) => MachineState {
                tape: s.tape.update(s.dp, cell_add(s.tape[s.dp], d)),
                ip: s.ip + 1,
                ..s
            },
            Op::Move(d) => MachineState {
                dp: move_dp(s.dp, d as int, s.tape.len() as int),
                ip: s.ip + 1,
                ..s
            },
            Op::Input => if s.icur < input.len() {
                MachineState {
                    tape: s.tape.update(s.dp, input[s.icur]),
                    icur: s.icur + 1,
                    ip: s.ip + 1,
                    ..s
                }
            } else {
                MachineState {
                    tape: s.tape.update(s.dp, EOF_BYTE),
                    ip: s.ip + 1,
                    ..s
                }
            },
            Op::Output => MachineState {
                out: s.out.push(s.tape[s.dp]),
                ip: s.ip + 1,
                ..s
            },
            Op::LoopBegin => MachineState {
                ip: if s.tape[s.dp] == 0 { jt[s.ip] as int } else { s.ip + 1 },
                ..s
            },
            Op::LoopEnd => MachineState {
                ip: if s.tape[s.dp] != 0 { jt[s.ip] as int } else { s.ip + 1 },
                ..s
            },
        }
    }
}

/// The state after `n` steps of execution from `s`.
pub open spec fn steps(ops: Seq<Op>, jt: Seq<usize>, input: Seq<u8>, s: MachineState, n: nat) -> MachineState
    decreases n,
{
    if n == 0 {
        s
    } else {
        step(ops, jt, input, steps(ops, jt, input, s, (n - 1) as nat))
    }
}

/// Adding wraps the same whether the deltas are folded first or applied
/// one after the other.
pub proof fn lemma_cell_add_assoc(c: u8, u: u8, v: u8)
    ensures
        cell_add(cell_add(c, u), v) == cell_add(c, cell_add(u, v)),
{
    vstd::arithmetic::div_mod::lemma_add_mod_noop(c + u, v as int, 256);
    vstd::arithmetic::div_mod::lemma_add_mod_noop_right(c as int, u + v, 256);
    vstd::arithmetic::div_mod::lemma_small_mod(v as nat, 256);
}

/// Wrapping the pointer after each move lands where wrapping once after
/// the summed move lands.
pub proof fn lemma_move_dp_assoc(dp: int, u: int, v: int, l: int)
    requires
        l > 0,
    ensures
        (((dp + u) % l) + v) % l == (dp + (u + v)) % l,
{
    vstd::arithmetic::div_mod::lemma_add_mod_noop(dp + u, v, l);
    vstd::arithmetic::div_mod::lemma_add_mod_noop_right((dp + u) % l, v, l);
}

} // verus!
