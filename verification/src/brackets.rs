//! Loop-boundary resolution: a single left-to-right scan pairs every
//! `LoopBegin` with its matching `LoopEnd` through a stack of unmatched
//! positions, and records the branch target of each in a jump table.

use vstd::prelude::*;

use crate::machine::Op;

verus! {

/// How one operation changes the bracket depth.
pub open spec fn op_depth(op: Op) -> int {
    match op {
        Op::LoopBegin => 1,
        Op::LoopEnd => -1,
        _ => 0,
    }
}

/// Number of `LoopBegin`s minus number of `LoopEnd`s.
pub open spec fn net_depth(ops: Seq<Op>) -> int
    decreases ops.len(),
{
    if ops.len() == 0 {
        0
    } else {
        net_depth(ops.drop_last()) + op_depth(ops.last())
    }
}

/// No prefix closes more loops than it opens.
pub open spec fn prefixes_nonneg(ops: Seq<Op>) -> bool {
    forall|k: int| 0 <= k <= ops.len() ==> net_depth(#[trigger] ops.take(k)) >= 0
}

/// Some prefix closes a loop that was never opened.
pub open spec fn some_neg_prefix(ops: Seq<Op>) -> bool {
    exists|k: int| 0 <= k <= ops.len() && net_depth(#[trigger] ops.take(k)) < 0
}

/// The brackets pair up: every prefix is nonnegative and the whole
/// sequence is balanced.
pub open spec fn well_nested(ops: Seq<Op>) -> bool {
    prefixes_nonneg(ops) && net_depth(ops) == 0
}

/// Positions `i` and `j` hold a matching `LoopBegin`/`LoopEnd` pair: the
/// segment from `i` through `j` is balanced, and no shorter segment
/// starting at `i` already is, so `j` is the earliest close that returns
/// the depth opened at `i` to zero.
pub open spec fn matched_pair(ops: Seq<Op>, i: int, j: int) -> bool {
    &&& 0 <= i < j < ops.len()
    &&& ops[i] is LoopBegin
    &&& ops[j] is LoopEnd
    &&& net_depth(ops.subrange(i, j + 1)) == 0
    &&& forall|k: int| i < k <= j ==> net_depth(#[trigger] ops.subrange(i, k)) > 0
}

/// Every loop-boundary entry of the jump table names the position one past
/// the matching bracket: `j + 1` for a `LoopBegin` matched with the
/// `LoopEnd` at `j`, and `i + 1` for a `LoopEnd` matched with the
/// `LoopBegin` at `i`.
pub open spec fn jump_table_matches(ops: Seq<Op>, jt: Seq<usize>) -> bool {
    &&& jt.len() == ops.len()
    &&& forall|i: int|
        0 <= i < ops.len() && (#[trigger] ops[i]) is LoopBegin ==> exists|j: int|
            matched_pair(ops, i, j) && jt[i] == j + 1
    &&& forall|j: int|
        0 <= j < ops.len() && (#[trigger] ops[j]) is LoopEnd ==> exists|i: int|
            matched_pair(ops, i, j) && jt[j] == i + 1
}

/// A fatal bracket-structure fault found while resolving loop boundaries.
#[derive(Copy, Clone, PartialEq, Eq, Structural, Debug)]
pub enum TranslateError {
    /// A `LoopEnd` with no unmatched `LoopBegin` before it.
    UnmatchedLoopEnd,
    /// A `LoopBegin` still unmatched at the end of the sequence.
    UnclosedLoopBegin,
}

/// Position `i` is on the stack.
pub open spec fn in_stack(stack: Seq<usize>, i: int) -> bool {
    exists|t: int| 0 <= t < stack.len() && stack[t] == i
}

proof fn lemma_net_depth_concat(a: Seq<Op>, b: Seq<Op>)
    ensures
        net_depth(a + b) == net_depth(a) + net_depth(b),
    decreases b.len(),
{
    if b.len() == 0 {
        assert(a + b =~= a);
    } else {
        lemma_net_depth_concat(a, b.drop_last());
        assert((a + b).drop_last() =~= a + b.drop_last());
        assert((a + b).last() == b.last());
    }
}

/// The depth of a segment is the difference of the depths of the prefixes
/// that bound it.
proof fn lemma_net_depth_split(ops: Seq<Op>, m1: int, m2: int)
    requires
        0 <= m1 <= m2 <= ops.len(),
    ensures
        net_depth(ops.take(m2)) == net_depth(ops.take(m1)) + net_depth(ops.subrange(m1, m2)),
{
    assert(ops.take(m2) =~= ops.take(m1) + ops.subrange(m1, m2));
    lemma_net_depth_concat(ops.take(m1), ops.subrange(m1, m2));
}

/// Extending a prefix by one operation adds that operation's depth.
proof fn lemma_net_depth_snoc(ops: Seq<Op>, k: int)
    requires
        0 <= k < ops.len(),
    ensures
        net_depth(ops.take(k + 1)) == net_depth(ops.take(k)) + op_depth(ops[k]),
{
    assert(ops.take(k + 1).drop_last() =~= ops.take(k));
    assert(ops.take(k + 1).last() == ops[k]);
}

/// Builds the jump table for an operation sequence by a single scan with a
/// stack of unmatched `LoopBegin` positions, or reports the first bracket
/// fault. Succeeds exactly on well-nested sequences; entries at non-loop
/// positions keep their default value and are never read.
#[verifier::loop_isolation(false)]
pub fn build_jump_table(ops: &Vec<Op>) -> (r: Result<Vec<usize>, TranslateError>)
    ensures
        r is Ok <==> well_nested(ops@),
        r matches Ok(jt) ==> jump_table_matches(ops@, jt@),
        r matches Err(e) ==> ((e is UnmatchedLoopEnd) <==> some_neg_prefix(ops@)),
        r matches Err(e) ==> ((e is UnclosedLoopBegin) <==> (prefixes_nonneg(ops@) && net_depth(
            ops@,
        ) > 0)),
{
    let n = ops.len();
    let mut jt: Vec<usize> = Vec::new();
    let mut fill: usize = 0;
    while fill < n
        invariant
            fill <= n,
            jt@.len() == fill,
        decreases n - fill,
    {
        jt.push(0);
        fill = fill + 1;
    }
    let mut stack: Vec<usize> = Vec::new();
    let mut k: usize = 0;
    proof {
        assert(ops@.take(0) =~= Seq::<Op>::empty());
    }
    while k < n
        invariant
            k <= n,
            jt@.len() == n,
            forall|t: int| 0 <= t < stack@.len() ==> (#[trigger] stack@[t]) < k,
            forall|t: int| 0 <= t < stack@.len() ==> ops@[#[trigger] stack@[t] as int] is LoopBegin,
            forall|t: int|
                0 <= t < stack@.len() ==> net_depth(ops@.take(#[trigger] stack@[t] as int)) == t,
            net_depth(ops@.take(k as int)) == stack@.len(),
            forall|t: int, m: int|
                #![trigger stack@[t], ops@.take(m)]
                0 <= t < stack@.len() && stack@[t] < m <= k ==> net_depth(ops@.take(m)) > t,
            forall|m: int| 0 <= m <= k ==> net_depth(#[trigger] ops@.take(m)) >= 0,
            forall|i: int|
                0 <= i < k && (#[trigger] ops@[i]) is LoopBegin && !in_stack(stack@, i)
                    ==> exists|j: int| matched_pair(ops@, i, j) && j < k && jt@[i] == j + 1,
            forall|j: int|
                0 <= j < k && (#[trigger] ops@[j]) is LoopEnd ==> exists|i: int|
                    matched_pair(ops@, i, j) && jt@[j] == i + 1,
        decreases n - k,
    {
        let ghost stack0 = stack@;
        let ghost jt0 = jt@;
        proof {
            lemma_net_depth_snoc(ops@, k as int);
        }
        match ops[k] {
            Op::LoopBegin => {
                stack.push(k);
                proof {
                    assert(stack@[stack@.len() - 1] == k);
                    assert(in_stack(stack@, k as int));
                    assert forall|i: int|
                        0 <= i < k + 1 && (#[trigger] ops@[i]) is LoopBegin && !in_stack(stack@, i)
                            implies exists|j: int|
                        matched_pair(ops@, i, j) && j < k + 1 && jt@[i] == j + 1 by {
                        assert(i < k);
                        assert(!in_stack(stack0, i)) by {
                            if in_stack(stack0, i) {
                                let tt = choose|tt: int|
                                    0 <= tt < stack0.len() && stack0[tt] == i;
                                assert(stack@[tt] == i);
                            }
                        }
                        let j0 = choose|j0: int|
                            matched_pair(ops@, i, j0) && j0 < k && jt0[i] == j0 + 1;
                        assert(matched_pair(ops@, i, j0) && j0 < k + 1 && jt@[i] == j0 + 1);
                    }
                }
            },
            Op::LoopEnd => {
                let popped = stack.pop();
                match popped {
                    None => {
                        proof {
                            assert(net_depth(ops@.take(k + 1)) < 0);
                        }
                        return Err(TranslateError::UnmatchedLoopEnd);
                    },
                    Some(p) => {
                        let ghost t = stack0.len() - 1;
                        proof {
                            assert(stack0[t] == p);
                            assert(net_depth(ops@.take(p as int)) == t);
                            assert(net_depth(ops@.subrange(p as int, k + 1)) == 0) by {
                                lemma_net_depth_split(ops@, p as int, k + 1);
                            }
                            assert forall|m: int| p < m <= k implies net_depth(
                                ops@.subrange(p as int, m),
                            ) > 0 by {
                                lemma_net_depth_split(ops@, p as int, m);
                            }
                            assert(matched_pair(ops@, p as int, k as int));
                        }
                        jt[p] = k + 1;
                        jt[k] = p + 1;
                        proof {
                            assert(jt@ =~= jt0.update(p as int, (k + 1) as usize).update(
                                k as int,
                                (p + 1) as usize,
                            ));
                            assert forall|i: int|
                                0 <= i < k + 1 && (#[trigger] ops@[i]) is LoopBegin && !in_stack(
                                    stack@,
                                    i,
                                ) implies exists|j: int|
                                matched_pair(ops@, i, j) && j < k + 1 && jt@[i] == j + 1 by {
                                if i == p {
                                    assert(matched_pair(ops@, p as int, k as int) && (k as int) < k
                                        + 1 && jt@[p as int] == k + 1);
                                } else {
                                    assert(i < k);
                                    assert(!in_stack(stack0, i)) by {
                                        if in_stack(stack0, i) {
                                            let tt = choose|tt: int|
                                                0 <= tt < stack0.len() && stack0[tt] == i;
                                            assert(tt < t);
                                            assert(stack@[tt] == i);
                                        }
                                    }
                                    let j0 = choose|j0: int|
                                        matched_pair(ops@, i, j0) && j0 < k && jt0[i] == j0 + 1;
                                    assert(matched_pair(ops@, i, j0) && j0 < k + 1 && jt@[i] == j0
                                        + 1);
                                }
                            }
                            assert forall|j: int|
                                0 <= j < k + 1 && (#[trigger] ops@[j]) is LoopEnd implies exists|
                                i: int,
                            |
                                matched_pair(ops@, i, j) && jt@[j] == i + 1 by {
                                if j == k {
                                    assert(matched_pair(ops@, p as int, k as int) && jt@[k as int]
                                        == p + 1);
                                } else {
                                    let i0 = choose|i0: int|
                                        matched_pair(ops@, i0, j) && jt0[j] == i0 + 1;
                                    assert(matched_pair(ops@, i0, j) && jt@[j] == i0 + 1);
                                }
                            }
                        }
                    },
                }
            },
            _ => {},
        }
        k = k + 1;
    }
    proof {
        assert(ops@.take(n as int) =~= ops@);
    }
    if stack.len() > 0 {
        return Err(TranslateError::UnclosedLoopBegin);
    }
    Ok(jt)
}

} // verus!
