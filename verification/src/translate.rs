//! Translation of source text into an operation sequence: comment bytes are
//! dropped, instruction bytes are mapped to primitive operations, and
//! adjacent additions and movements are merged into one operation each.

use vstd::prelude::*;

use crate::brackets::{
    build_jump_table, jump_table_matches, matched_pair, net_depth, prefixes_nonneg,
    some_neg_prefix, well_nested, TranslateError,
};
use crate::machine::{cell_add, Op};

verus! {

/// A translated program: the merged operation sequence and the jump table
/// that resolves every loop boundary.
#[derive(Debug)]
pub struct Program {
    pub ops: Vec<Op>,
    pub jump_table: Vec<usize>,
}

impl Program {
    /// The jump table covers the operations and every loop-boundary target
    /// stays within the sequence (one past the end allowed: it halts).
    pub open spec fn wf(self) -> bool {
        &&& self.jump_table@.len() == self.ops@.len()
        &&& forall|i: int|
            0 <= i < self.ops@.len() && ((#[trigger] self.ops@[i]) is LoopBegin
                || self.ops@[i] is LoopEnd) ==> self.jump_table@[i] <= self.ops@.len()
    }
}

/// The primitive operation a source byte stands for, or `None` for a
/// comment byte, which translation ignores.
pub open spec fn byte_op(b: u8) -> Option<Op> {
    if b == 43 {
        Some(Op::Add(1))
    } else if b == 45 {
        Some(Op::Add(255))
    } else if b == 62 {
        Some(Op::Move(1))
    } else if b == 60 {
        Some(Op::Move(-1i64))
    } else if b == 44 {
        Some(Op::Input)
    } else if b == 46 {
        Some(Op::Output)
    } else if b == 91 {
        Some(Op::LoopBegin)
    } else if b == 93 {
        Some(Op::LoopEnd)
    } else {
        None
    }
}

/// Appends one primitive operation to a sequence, folding it into the last
/// entry when both are additions (wrapping modulo 256) or both are
/// movements (plain integer addition of the deltas).
pub open spec fn push_op(ops: Seq<Op>, op: Op) -> Seq<Op> {
    if ops.len() == 0 {
        ops.push(op)
    } else {
        match (ops.last(), op) {
            (Op::Add(p), Op::Add(x)) => ops.update(ops.len() - 1, Op::Add(cell_add(p, x))),
            (Op::Move(p), Op::Move(x)) => ops.update(ops.len() - 1, Op::Move((p + x) as i64)),
            _ => ops.push(op),
        }
    }
}

/// The operation sequence a source text translates to.
pub open spec fn parse(src: Seq<u8>) -> Seq<Op>
    decreases src.len(),
{
    if src.len() == 0 {
        Seq::empty()
    } else {
        match byte_op(src.last()) {
            Some(op) => push_op(parse(src.drop_last()), op),
            None => parse(src.drop_last()),
        }
    }
}

/// The source with every comment byte removed.
pub open spec fn instr_only(src: Seq<u8>) -> Seq<u8>
    decreases src.len(),
{
    if src.len() == 0 {
        Seq::empty()
    } else if byte_op(src.last()) is Some {
        instr_only(src.drop_last()).push(src.last())
    } else {
        instr_only(src.drop_last())
    }
}

/// Comment bytes are semantically inert: a source text translates to
/// exactly the operations of the source stripped of every comment byte,
/// so the two programs have identical semantics.
pub proof fn lemma_comments_inert(src: Seq<u8>)
    ensures
        parse(src) == parse(instr_only(src)),
    decreases src.len(),
{
    if src.len() == 0 {
    } else {
        lemma_comments_inert(src.drop_last());
        if byte_op(src.last()) is Some {
            let stripped = instr_only(src.drop_last());
            assert(instr_only(src) == stripped.push(src.last()));
            assert(stripped.push(src.last()).drop_last() =~= stripped);
            assert(stripped.push(src.last()).last() == src.last());
        }
    }
}

/// The merged operation sequence is never longer than the source stripped
/// of its comment bytes.
pub proof fn lemma_parse_no_longer_than_instructions(src: Seq<u8>)
    ensures
        parse(src).len() <= instr_only(src).len(),
    decreases src.len(),
{
    if src.len() == 0 {
    } else {
        lemma_parse_no_longer_than_instructions(src.drop_last());
    }
}

/// No two adjacent operations of the same mergeable kind: every maximal
/// run of primitive additions or movements has been folded into one entry.
pub open spec fn fully_merged(ops: Seq<Op>) -> bool {
    forall|i: int|
        0 <= i < ops.len() - 1 ==> !((#[trigger] ops[i]) is Add && ops[i + 1] is Add) && !(ops[i]
            is Move && ops[i + 1] is Move)
}

/// Translation leaves no adjacent pair of mergeable operations behind.
pub proof fn lemma_parse_fully_merged(src: Seq<u8>)
    ensures
        fully_merged(parse(src)),
    decreases src.len(),
{
    if src.len() == 0 {
    } else {
        lemma_parse_fully_merged(src.drop_last());
        let rest = parse(src.drop_last());
        match byte_op(src.last()) {
            Some(op) => {
                assert forall|i: int|
                    0 <= i < push_op(rest, op).len() - 1 implies !((#[trigger] push_op(
                    rest,
                    op,
                )[i]) is Add && push_op(rest, op)[i + 1] is Add) && !(push_op(rest, op)[i] is Move
                    && push_op(rest, op)[i + 1] is Move) by {
                    if i < rest.len() - 1 {
                        assert(!(rest[i] is Add && rest[i + 1] is Add) && !(rest[i] is Move
                            && rest[i + 1] is Move));
                    }
                }
            },
            None => {},
        }
    }
}

/// Each accumulated `Move` delta is bounded by the number of source bytes
/// already translated, so the running merge never leaves `i64`.
pub open spec fn deltas_bounded(ops: Seq<Op>, bound: int) -> bool {
    forall|j: int| 0 <= j < ops.len() ==> (#[trigger] ops[j] matches Op::Move(d) ==> -bound <= d <= bound)
}

/// Every accumulated `Move` delta of a translated source is bounded by the
/// source length.
pub proof fn lemma_parse_deltas_bounded(src: Seq<u8>)
    requires
        src.len() <= i64::MAX,
    ensures
        deltas_bounded(parse(src), src.len() as int),
    decreases src.len(),
{
    if src.len() == 0 {
    } else {
        lemma_parse_deltas_bounded(src.drop_last());
        let rest = parse(src.drop_last());
        let n = src.len() as int;
        match byte_op(src.last()) {
            Some(op) => {
                assert forall|j: int| 0 <= j < push_op(rest, op).len() implies (#[trigger] push_op(
                    rest,
                    op,
                )[j] matches Op::Move(d) ==> -n <= d <= n) by {
                    if j < rest.len() {
                        assert(rest[j] matches Op::Move(d) ==> -(n - 1) <= d <= n - 1);
                    }
                }
            },
            None => {
                assert forall|j: int| 0 <= j < parse(src).len() implies (#[trigger] parse(
                    src,
                )[j] matches Op::Move(d) ==> -n <= d <= n) by {
                    assert(parse(src)[j] matches Op::Move(d) ==> -(n - 1) <= d <= n - 1);
                }
            },
        }
    }
}

/// The primitive operation for one source byte, or `None` for a comment.
fn byte_to_op(b: u8) -> (r: Option<Op>)
    ensures
        r == byte_op(b),
{
    match b {
        43 => Some(Op::Add(1)),
        45 => Some(Op::Add(255)),
        62 => Some(Op::Move(1)),
        60 => Some(Op::Move(-1)),
        44 => Some(Op::Input),
        46 => Some(Op::Output),
        91 => Some(Op::LoopBegin),
        93 => Some(Op::LoopEnd),
        _ => None,
    }
}

/// Translates source bytes into the merged operation sequence.
///
/// The length bound is the machine limit on slices; it keeps every merged
/// movement delta inside `i64`.
#[verifier::loop_isolation(false)]
pub fn parse_ops(src: &[u8]) -> (ops: Vec<Op>)
    requires
        src@.len() <= i64::MAX,
    ensures
        ops@ == parse(src@),
{
    let mut ops: Vec<Op> = Vec::new();
    let n = src.len();
    let mut i: usize = 0;
    while i < n
        invariant
            i <= n,
            ops@ == parse(src@.take(i as int)),
            deltas_bounded(ops@, i as int),
        decreases n - i,
    {
        proof {
            assert(src@.take(i + 1).drop_last() =~= src@.take(i as int));
            assert(src@.take(i + 1).last() == src@[i as int]);
        }
        match byte_to_op(src[i]) {
            None => {},
            Some(op) => {
                let len = ops.len();
                let mut merged = false;
                if len > 0 {
                    match (ops[len - 1], op) {
                        (Op::Add(p), Op::Add(x)) => {
                            let m: u8 = (((p as u16) + (x as u16)) % 256) as u8;
                            ops[len - 1] = Op::Add(m);
                            merged = true;
                        },
                        (Op::Move(p), Op::Move(x)) => {
                            ops[len - 1] = Op::Move(p + x);
                            merged = true;
                        },
                        _ => {},
                    }
                }
                if !merged {
                    ops.push(op);
                }
            },
        }
        i = i + 1;
    }
    proof {
        assert(src@.take(n as int) =~= src@);
    }
    ops
}

/// Translates a source text into a program: parses and merges the
/// operations, then resolves every loop boundary. Fails exactly on
/// malformed bracket nesting, before anything is executed.
pub fn translate(src: &[u8]) -> (r: Result<Program, TranslateError>)
    requires
        src@.len() <= i64::MAX,
    ensures
        r is Ok <==> well_nested(parse(src@)),
        r matches Ok(p) ==> p.ops@ == parse(src@) && p.wf() && jump_table_matches(
            p.ops@,
            p.jump_table@,
        ),
        r matches Err(e) ==> ((e is UnmatchedLoopEnd) <==> some_neg_prefix(parse(src@))),
        r matches Err(e) ==> ((e is UnclosedLoopBegin) <==> (prefixes_nonneg(parse(src@))
            && net_depth(parse(src@)) > 0)),
{
    let ops = parse_ops(src);
    match build_jump_table(&ops) {
        Ok(jt) => {
            let p = Program { ops, jump_table: jt };
            proof {
                assert forall|i: int|
                    0 <= i < p.ops@.len() && ((#[trigger] p.ops@[i]) is LoopBegin
                        || p.ops@[i] is LoopEnd) implies p.jump_table@[i] <= p.ops@.len() by {
                    if p.ops@[i] is LoopBegin {
                        let j = choose|j: int|
                            matched_pair(p.ops@, i, j) && p.jump_table@[i] == j + 1;
                        assert(matched_pair(p.ops@, i, j));
                    } else {
                        let i0 = choose|i0: int|
                            matched_pair(p.ops@, i0, i) && p.jump_table@[i] == i0 + 1;
                        assert(matched_pair(p.ops@, i0, i));
                    }
                }
            }
            Ok(p)
        },
        Err(e) => Err(e),
    }
}

} // verus!
