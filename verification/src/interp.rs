//! The interpreter: executes a translated program against a fresh tape,
//! consuming input bytes and producing output bytes, and is verified to
//! land exactly on the state that the abstract machine reaches.

use vstd::prelude::*;

use vstd::arithmetic::div_mod::{
    lemma_fundamental_div_mod, lemma_fundamental_div_mod_converse_mod,
    lemma_mod_division_less_than_divisor,
};

use crate::brackets::{
    jump_table_matches, net_depth, prefixes_nonneg, some_neg_prefix, well_nested, TranslateError,
};
use crate::machine::{
    cell_add, halted, init_state, move_dp, step, steps, MachineState, Op, EOF_BYTE, TAPE_LEN,
};
use crate::translate::{parse, translate, Program};

verus! {

/// What one execution leaves behind: the output bytes, the final tape, the
/// final data pointer, how many input bytes were consumed, whether the
/// program halted, and how many steps were executed.
#[derive(Debug)]
pub struct Outcome {
    pub output: Vec<u8>,
    pub tape: Vec<u8>,
    pub data_ptr: usize,
    pub consumed: usize,
    pub halted: bool,
    pub steps_taken: u64,
}

impl Outcome {
    /// The machine state this outcome records.
    pub open spec fn reflects(self, s: MachineState) -> bool {
        &&& self.output@ == s.out
        &&& self.tape@ == s.tape
        &&& self.data_ptr == s.dp
        &&& self.consumed == s.icur
    }
}

/// Moves the data pointer by `delta` on the tape, wrapping across both
/// tape boundaries whatever the magnitude of the move.
fn move_wrapped(dp: usize, delta: i64) -> (r: usize)
    requires
        dp < TAPE_LEN,
    ensures
        r == move_dp(dp as int, delta as int, TAPE_LEN as int),
        r < TAPE_LEN,
{
    let l: u64 = TAPE_LEN as u64;
    if delta >= 0 {
        proof {
            lemma_mod_division_less_than_divisor(delta as int, TAPE_LEN as int);
            lemma_fundamental_div_mod(delta as int, TAPE_LEN as int);
        }
        let off: usize = ((delta as u64) % l) as usize;
        let s: usize = dp + off;
        let r: usize = if s >= TAPE_LEN {
            s - TAPE_LEN
        } else {
            s
        };
        proof {
            let x: int = dp + delta;
            let q: int = (delta as int) / (TAPE_LEN as int);
            if s >= TAPE_LEN {
                assert(x == (q + 1) * (TAPE_LEN as int) + r) by {
                    assert((q + 1) * (TAPE_LEN as int) == q * (TAPE_LEN as int) + TAPE_LEN);
                }
                lemma_fundamental_div_mod_converse_mod(x, TAPE_LEN as int, q + 1, r as int);
            } else {
                lemma_fundamental_div_mod_converse_mod(x, TAPE_LEN as int, q, r as int);
            }
        }
        r
    } else {
        let wide: i128 = -(delta as i128);
        let mag: u64 = wide as u64;
        proof {
            lemma_mod_division_less_than_divisor(mag as int, TAPE_LEN as int);
            lemma_fundamental_div_mod(mag as int, TAPE_LEN as int);
        }
        let off: usize = (mag % l) as usize;
        let s: usize = dp + TAPE_LEN - off;
        let r: usize = if s >= TAPE_LEN {
            s - TAPE_LEN
        } else {
            s
        };
        proof {
            let x: int = dp + delta;
            let q: int = (mag as int) / (TAPE_LEN as int);
            if s >= TAPE_LEN {
                assert(x == (-q) * (TAPE_LEN as int) + r) by {
                    assert((-q) * (TAPE_LEN as int) == -(q * (TAPE_LEN as int)));
                }
                lemma_fundamental_div_mod_converse_mod(x, TAPE_LEN as int, -q, r as int);
            } else {
                assert(x == (-q - 1) * (TAPE_LEN as int) + r) by {
                    assert((-q - 1) * (TAPE_LEN as int) == -(q * (TAPE_LEN as int)) - TAPE_LEN);
                }
                lemma_fundamental_div_mod_converse_mod(x, TAPE_LEN as int, -q - 1, r as int);
            }
        }
        r
    }
}

/// The current cell plus `delta`, wrapping modulo 256.
fn cell_add_exec(cell: u8, delta: u8) -> (r: u8)
    ensures
        r == cell_add(cell, delta),
{
    (((cell as u16) + (delta as u16)) % 256) as u8
}

/// Executes a translated program for at most `fuel` steps, from an all-zero
/// tape, reading input bytes in order (`EOF_BYTE` once they run out) and
/// collecting output bytes in order.
///
/// The outcome records exactly the abstract machine state after
/// `steps_taken` steps; `halted` says whether that state is past the final
/// operation, and the run stops short of a halt only when the whole budget
/// of `fuel` steps has been spent.
#[verifier::loop_isolation(false)]
pub fn interpret(prog: &Program, input: &[u8], fuel: u64) -> (r: Outcome)
    requires
        prog.wf(),
    ensures
        r.steps_taken <= fuel,
        r.reflects(steps(prog.ops@, prog.jump_table@, input@, init_state(), r.steps_taken as nat)),
        r.halted <==> halted(
            prog.ops@,
            steps(prog.ops@, prog.jump_table@, input@, init_state(), r.steps_taken as nat),
        ),
        !r.halted ==> r.steps_taken == fuel,
        forall|m: nat|
            m < r.steps_taken ==> !halted(
                prog.ops@,
                #[trigger] steps(prog.ops@, prog.jump_table@, input@, init_state(), m),
            ),
{
    let ops = &prog.ops;
    let jt = &prog.jump_table;
    let n = ops.len();
    let mut tape: Vec<u8> = Vec::new();
    let mut fill: usize = 0;
    while fill < TAPE_LEN
        invariant
            fill <= TAPE_LEN,
            tape@.len() == fill,
            forall|q: int| 0 <= q < fill ==> tape@[q] == 0,
        decreases TAPE_LEN - fill,
    {
        tape.push(0);
        fill = fill + 1;
    }
    proof {
        assert(tape@ =~= init_state().tape);
    }
    let mut dp: usize = 0;
    let mut ip: usize = 0;
    let mut icur: usize = 0;
    let mut out: Vec<u8> = Vec::new();
    let mut count: u64 = 0;
    proof {
        assert(out@ =~= Seq::<u8>::empty());
    }
    while ip < n && count < fuel
        invariant
            count <= fuel,
            ip <= n,
            dp < TAPE_LEN,
            tape@.len() == TAPE_LEN,
            icur <= input@.len(),
            (MachineState {
                tape: tape@,
                dp: dp as int,
                ip: ip as int,
                icur: icur as int,
                out: out@,
            }) == steps(ops@, jt@, input@, init_state(), count as nat),
            forall|m: nat|
                m < count ==> !halted(
                    ops@,
                    #[trigger] steps(ops@, jt@, input@, init_state(), m),
                ),
        decreases fuel - count,
    {
        let ghost pre = MachineState {
            tape: tape@,
            dp: dp as int,
            ip: ip as int,
            icur: icur as int,
            out: out@,
        };
        match ops[ip] {
            Op::Add(d) => {
                let v = tape[dp];
                tape[dp] = cell_add_exec(v, d);
                ip = ip + 1;
            },
            Op::Move(d) => {
                dp = move_wrapped(dp, d);
                ip = ip + 1;
            },
            Op::Input => {
                if icur < input.len() {
                    tape[dp] = input[icur];
                    icur = icur + 1;
                } else {
                    tape[dp] = EOF_BYTE;
                }
                ip = ip + 1;
            },
            Op::Output => {
                out.push(tape[dp]);
                ip = ip + 1;
            },
            Op::LoopBegin => {
                if tape[dp] == 0 {
                    ip = jt[ip];
                } else {
                    ip = ip + 1;
                }
            },
            Op::LoopEnd => {
                if tape[dp] != 0 {
                    ip = jt[ip];
                } else {
                    ip = ip + 1;
                }
            },
        }
        proof {
            let post = MachineState {
                tape: tape@,
                dp: dp as int,
                ip: ip as int,
                icur: icur as int,
                out: out@,
            };
            assert(!halted(ops@, pre));
            assert(post =~= step(ops@, jt@, input@, pre));
            assert(steps(ops@, jt@, input@, init_state(), (count + 1) as nat) == step(
                ops@,
                jt@,
                input@,
                steps(ops@, jt@, input@, init_state(), count as nat),
            ));
        }
        count = count + 1;
    }
    Outcome {
        output: out,
        tape,
        data_ptr: dp,
        consumed: icur,
        halted: ip >= n,
        steps_taken: count,
    }
}

/// Translates a source text and executes it for at most `fuel` steps: the
/// whole pipeline. Translation fails exactly on malformed bracket nesting,
/// and then nothing is executed and no output exists at all.
pub fn run(src: &[u8], input: &[u8], fuel: u64) -> (r: Result<Outcome, TranslateError>)
    requires
        src@.len() <= i64::MAX,
    ensures
        r is Ok <==> well_nested(parse(src@)),
        r matches Ok(o) ==> exists|jt: Seq<usize>|
            {
                let s = steps(parse(src@), jt, input@, init_state(), o.steps_taken as nat);
                &&& #[trigger] jump_table_matches(parse(src@), jt)
                &&& o.steps_taken <= fuel
                &&& o.reflects(s)
                &&& (o.halted <==> halted(parse(src@), s))
                &&& (!o.halted ==> o.steps_taken == fuel)
            },
        r matches Err(e) ==> ((e is UnmatchedLoopEnd) <==> some_neg_prefix(parse(src@))),
        r matches Err(e) ==> ((e is UnclosedLoopBegin) <==> (prefixes_nonneg(parse(src@))
            && net_depth(parse(src@)) > 0)),
{
    match translate(src) {
        Ok(prog) => {
            let o = interpret(&prog, input, fuel);
            proof {
                let jt = prog.jump_table@;
                assert(jump_table_matches(parse(src@), jt));
            }
            Ok(o)
        },
        Err(e) => Err(e),
    }
}

} // verus!
