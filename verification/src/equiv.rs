//! Semantic transparency of the peephole merge: for a straight-line
//! program (one without loop boundaries), executing the merged operation
//! sequence produces exactly the tape, data pointer, input consumption and
//! output of executing the unmerged primitive sequence.

use vstd::prelude::*;

use crate::machine::{
    cell_add, lemma_cell_add_assoc, lemma_move_dp_assoc, move_dp, step, steps, MachineState, Op,
    EOF_BYTE,
};
use crate::translate::{byte_op, deltas_bounded, lemma_parse_deltas_bounded, parse, push_op};

verus! {

/// The source contains no loop-boundary bytes.
pub open spec fn bracket_free_src(src: Seq<u8>) -> bool {
    forall|i: int| 0 <= i < src.len() ==> (#[trigger] src[i]) != 91 && src[i] != 93
}

/// The operation sequence contains no loop boundaries.
pub open spec fn loop_free(ops: Seq<Op>) -> bool {
    forall|i: int|
        0 <= i < ops.len() ==> !((#[trigger] ops[i]) is LoopBegin) && !(ops[i] is LoopEnd)
}

/// The unmerged primitive operation sequence of a source text: comment
/// bytes dropped, every instruction byte kept as its own operation.
pub open spec fn primitive_ops(src: Seq<u8>) -> Seq<Op>
    decreases src.len(),
{
    if src.len() == 0 {
        Seq::empty()
    } else {
        match byte_op(src.last()) {
            Some(op) => primitive_ops(src.drop_last()).push(op),
            None => primitive_ops(src.drop_last()),
        }
    }
}

/// The effect of one operation taken as straight-line code: as `step`, but
/// position-independent; a loop boundary only advances the instruction
/// pointer.
pub open spec fn apply_op(op: Op, input: Seq<u8>, s: MachineState) -> MachineState {
    match op {
        Op::Add(d) => MachineState {
            tape: s.tape.update(s.dp, cell_add(s.tape[s.dp], d)),
            ip: s.ip + 1,
            ..s
        },
        Op::Move(d) => MachineState {
            dp: move_dp(s.dp, d as int, s.tape.len() as int),
            ip: s.ip + 1,
            ..s
        },
        Op::Input => if s.icur < input.len() {
            MachineState {
                tape: s.tape.update(s.dp, input[s.icur]),
                icur: s.icur + 1,
                ip: s.ip + 1,
                ..s
            }
        } else {
            MachineState {
                tape: s.tape.update(s.dp, EOF_BYTE),
                ip: s.ip + 1,
                ..s
            }
        },
        Op::Output => MachineState { out: s.out.push(s.tape[s.dp]), ip: s.ip + 1, ..s },
        Op::LoopBegin => MachineState { ip: s.ip + 1, ..s },
        Op::LoopEnd => MachineState { ip: s.ip + 1, ..s },
    }
}

/// The state after a straight-line operation sequence, executed in order.
pub open spec fn run_ops(ops: Seq<Op>, input: Seq<u8>, s: MachineState) -> MachineState
    decreases ops.len(),
{
    if ops.len() == 0 {
        s
    } else {
        apply_op(ops.last(), input, run_ops(ops.drop_last(), input, s))
    }
}

/// Observably equal states: same tape, data pointer, consumed input and
/// output; only the instruction pointer may differ.
pub open spec fn obs_eq(s1: MachineState, s2: MachineState) -> bool {
    &&& s1.tape == s2.tape
    &&& s1.dp == s2.dp
    &&& s1.icur == s2.icur
    &&& s1.out == s2.out
}

proof fn lemma_run_ops_ip(ops: Seq<Op>, input: Seq<u8>, s: MachineState)
    ensures
        run_ops(ops, input, s).ip == s.ip + ops.len(),
    decreases ops.len(),
{
    if ops.len() == 0 {
    } else {
        lemma_run_ops_ip(ops.drop_last(), input, s);
    }
}

/// Straight-line execution keeps the tape length and the data pointer
/// inside the tape.
proof fn lemma_run_ops_wf(ops: Seq<Op>, input: Seq<u8>, s: MachineState)
    requires
        s.tape.len() > 0,
        0 <= s.dp < s.tape.len(),
    ensures
        run_ops(ops, input, s).tape.len() == s.tape.len(),
        0 <= run_ops(ops, input, s).dp < s.tape.len(),
    decreases ops.len(),
{
    if ops.len() == 0 {
    } else {
        lemma_run_ops_wf(ops.drop_last(), input, s);
        let w = run_ops(ops.drop_last(), input, s);
        match ops.last() {
            Op::Move(d) => {
                vstd::arithmetic::div_mod::lemma_mod_division_less_than_divisor(
                    w.dp + d,
                    w.tape.len() as int,
                );
            },
            _ => {},
        }
    }
}

/// The same operation applied to observably equal states gives observably
/// equal states.
proof fn lemma_apply_op_congruent(op: Op, input: Seq<u8>, s1: MachineState, s2: MachineState)
    requires
        obs_eq(s1, s2),
    ensures
        obs_eq(apply_op(op, input, s1), apply_op(op, input, s2)),
{
}

/// For a program without loop boundaries, the step semantics is the
/// straight-line fold of its first `t` operations.
proof fn lemma_steps_are_run_ops(
    prog: Seq<Op>,
    jt: Seq<usize>,
    input: Seq<u8>,
    s: MachineState,
    t: nat,
)
    requires
        loop_free(prog),
        s.ip == 0,
        t <= prog.len(),
    ensures
        steps(prog, jt, input, s, t) == run_ops(prog.take(t as int), input, s),
    decreases t,
{
    if t == 0 {
        assert(prog.take(0) =~= Seq::<Op>::empty());
    } else {
        lemma_steps_are_run_ops(prog, jt, input, s, (t - 1) as nat);
        let prev = run_ops(prog.take(t - 1), input, s);
        lemma_run_ops_ip(prog.take(t - 1), input, s);
        assert(prev.ip == t - 1);
        assert(steps(prog, jt, input, s, t) == step(prog, jt, input, prev));
        assert(step(prog, jt, input, prev) == apply_op(prog[t - 1], input, prev));
        assert(prog.take(t as int).drop_last() =~= prog.take(t - 1));
        assert(prog.take(t as int).last() == prog[t - 1]);
    }
}

proof fn lemma_primitive_loop_free(src: Seq<u8>)
    requires
        bracket_free_src(src),
    ensures
        loop_free(primitive_ops(src)),
    decreases src.len(),
{
    if src.len() == 0 {
    } else {
        assert(bracket_free_src(src.drop_last())) by {
            assert(forall|i: int|
                0 <= i < src.len() - 1 ==> src.drop_last()[i] == (#[trigger] src[i]));
        }
        lemma_primitive_loop_free(src.drop_last());
    }
}

proof fn lemma_parse_loop_free(src: Seq<u8>)
    requires
        bracket_free_src(src),
    ensures
        loop_free(parse(src)),
    decreases src.len(),
{
    if src.len() == 0 {
    } else {
        assert(bracket_free_src(src.drop_last())) by {
            assert(forall|i: int|
                0 <= i < src.len() - 1 ==> src.drop_last()[i] == (#[trigger] src[i]));
        }
        lemma_parse_loop_free(src.drop_last());
        let rest = parse(src.drop_last());
        match byte_op(src.last()) {
            Some(op) => {
                assert forall|i: int| 0 <= i < push_op(rest, op).len() implies !((
                #[trigger] push_op(rest, op)[i]) is LoopBegin) && !(push_op(rest, op)[i]
                    is LoopEnd) by {
                    if i < rest.len() {
                        assert(!(rest[i] is LoopBegin) && !(rest[i] is LoopEnd));
                    }
                }
            },
            None => {},
        }
    }
}

/// Folding two additions at the same cell equals applying them in turn.
proof fn lemma_fold_add(p: u8, x: u8, input: Seq<u8>, w: MachineState)
    requires
        0 <= w.dp < w.tape.len(),
    ensures
        obs_eq(
            apply_op(Op::Add(x), input, apply_op(Op::Add(p), input, w)),
            apply_op(Op::Add(cell_add(p, x)), input, w),
        ),
{
    let c = w.tape[w.dp];
    lemma_cell_add_assoc(c, p, x);
    assert(w.tape.update(w.dp, cell_add(c, p)).update(w.dp, cell_add(cell_add(c, p), x))
        =~= w.tape.update(w.dp, cell_add(c, cell_add(p, x))));
}

/// Folding two movements equals applying them in turn.
proof fn lemma_fold_move(p: i64, x: i64, input: Seq<u8>, w: MachineState)
    requires
        w.tape.len() > 0,
        i64::MIN <= p + x <= i64::MAX,
    ensures
        obs_eq(
            apply_op(Op::Move(x), input, apply_op(Op::Move(p), input, w)),
            apply_op(Op::Move((p + x) as i64), input, w),
        ),
{
    lemma_move_dp_assoc(w.dp, p as int, x as int, w.tape.len() as int);
}

/// The peephole merge is semantically transparent on straight-line code:
/// for a source without loop-boundary bytes, the merged operation sequence
/// and the unmerged primitive sequence, run to completion from any state,
/// leave the same tape, data pointer, consumed input and output.
pub proof fn lemma_merging_preserves_semantics(src: Seq<u8>, input: Seq<u8>, s: MachineState)
    requires
        bracket_free_src(src),
        src.len() <= i64::MAX,
        s.tape.len() > 0,
        0 <= s.dp < s.tape.len(),
    ensures
        obs_eq(run_ops(parse(src), input, s), run_ops(primitive_ops(src), input, s)),
    decreases src.len(),
{
    if src.len() == 0 {
    } else {
        let d = src.drop_last();
        assert(bracket_free_src(d)) by {
            assert(forall|i: int| 0 <= i < d.len() ==> d[i] == (#[trigger] src[i]));
        }
        lemma_merging_preserves_semantics(d, input, s);
        let pd = parse(d);
        let ud = primitive_ops(d);
        match byte_op(src.last()) {
            None => {},
            Some(op) => {
                assert(primitive_ops(src) == ud.push(op));
                assert(ud.push(op).drop_last() =~= ud);
                assert(ud.push(op).last() == op);
                assert(run_ops(primitive_ops(src), input, s) == apply_op(
                    op,
                    input,
                    run_ops(ud, input, s),
                ));
                if pd.len() > 0 && pd.last() is Add && op is Add {
                    let p = pd.last()->Add_0;
                    let x = op->Add_0;
                    let merged = Op::Add(cell_add(p, x));
                    assert(parse(src) == pd.update(pd.len() - 1, merged));
                    assert(parse(src).drop_last() =~= pd.drop_last());
                    assert(parse(src).last() == merged);
                    let w = run_ops(pd.drop_last(), input, s);
                    lemma_run_ops_wf(pd.drop_last(), input, s);
                    assert(run_ops(pd, input, s) == apply_op(Op::Add(p), input, w));
                    assert(run_ops(parse(src), input, s) == apply_op(merged, input, w));
                    lemma_fold_add(p, x, input, w);
                    lemma_apply_op_congruent(op, input, run_ops(pd, input, s), run_ops(ud, input, s));
                } else if pd.len() > 0 && pd.last() is Move && op is Move {
                    let p = pd.last()->Move_0;
                    let x = op->Move_0;
                    assert(x == 1 || x == -1);
                    lemma_parse_deltas_bounded(d);
                    assert(-(d.len() as int) <= p <= d.len() as int);
                    let merged = Op::Move((p + x) as i64);
                    assert(parse(src) == pd.update(pd.len() - 1, merged));
                    assert(parse(src).drop_last() =~= pd.drop_last());
                    assert(parse(src).last() == merged);
                    let w = run_ops(pd.drop_last(), input, s);
                    lemma_run_ops_wf(pd.drop_last(), input, s);
                    assert(run_ops(pd, input, s) == apply_op(Op::Move(p), input, w));
                    assert(run_ops(parse(src), input, s) == apply_op(merged, input, w));
                    lemma_fold_move(p, x, input, w);
                    lemma_apply_op_congruent(op, input, run_ops(pd, input, s), run_ops(ud, input, s));
                } else {
                    assert(parse(src) == pd.push(op));
                    assert(pd.push(op).drop_last() =~= pd);
                    assert(pd.push(op).last() == op);
                    assert(run_ops(parse(src), input, s) == apply_op(op, input, run_ops(pd, input, s)));
                    lemma_apply_op_congruent(op, input, run_ops(pd, input, s), run_ops(ud, input, s));
                }
            },
        }
    }
}

/// The peephole merge is semantically transparent under the step
/// semantics: for a source without loop-boundary bytes, executing the
/// merged sequence to its end and executing the unmerged primitive
/// sequence to its end produce identical tape state, data pointer, input
/// consumption and output, whatever jump tables the two programs carry.
pub proof fn lemma_merging_preserves_execution(
    src: Seq<u8>,
    jt2: Seq<usize>,
    jt1: Seq<usize>,
    input: Seq<u8>,
    s: MachineState,
)
    requires
        bracket_free_src(src),
        src.len() <= i64::MAX,
        s.ip == 0,
        s.tape.len() > 0,
        0 <= s.dp < s.tape.len(),
    ensures
        ({
            let unmerged = steps(primitive_ops(src), jt2, input, s, primitive_ops(src).len());
            let merged = steps(parse(src), jt1, input, s, parse(src).len());
            &&& unmerged.tape == merged.tape
            &&& unmerged.dp == merged.dp
            &&& unmerged.icur == merged.icur
            &&& unmerged.out == merged.out
        }),
{
    lemma_primitive_loop_free(src);
    lemma_parse_loop_free(src);
    lemma_steps_are_run_ops(primitive_ops(src), jt2, input, s, primitive_ops(src).len());
    lemma_steps_are_run_ops(parse(src), jt1, input, s, parse(src).len());
    assert(primitive_ops(src).take(primitive_ops(src).len() as int) =~= primitive_ops(src));
    assert(parse(src).take(parse(src).len() as int) =~= parse(src));
    lemma_merging_preserves_semantics(src, input, s);
}

} // verus!
