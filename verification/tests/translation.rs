use bfvm::{run, translate, Op, TranslateError};

#[test]
fn adjacent_additions_merge() {
    let p = translate(b"+++++").unwrap();
    assert_eq!(p.ops, vec![Op::Add(5)]);
}

#[test]
fn additions_merge_with_wraparound() {
    let p = translate(b"+--").unwrap();
    assert_eq!(p.ops, vec![Op::Add(255)]);
}

#[test]
fn adjacent_moves_merge() {
    let p = translate(b"><<<").unwrap();
    assert_eq!(p.ops, vec![Op::Move(-2)]);
}

#[test]
fn different_kinds_do_not_merge() {
    let p = translate(b"+>+").unwrap();
    assert_eq!(p.ops, vec![Op::Add(1), Op::Move(1), Op::Add(1)]);
}

#[test]
fn comment_bytes_are_ignored() {
    let commented = translate(b"a + b + c!").unwrap();
    let stripped = translate(b"++").unwrap();
    assert_eq!(commented.ops, stripped.ops);
    assert_eq!(commented.ops, vec![Op::Add(2)]);
}

#[test]
fn jump_table_pairs_simple_loop() {
    let p = translate(b"[]").unwrap();
    assert_eq!(p.jump_table, vec![2, 1]);
}

#[test]
fn jump_table_pairs_nested_loops() {
    let p = translate(b"[[]]").unwrap();
    assert_eq!(p.jump_table, vec![4, 3, 2, 1]);
}

#[test]
fn jump_table_pairs_sequential_loops() {
    let p = translate(b"[][]").unwrap();
    assert_eq!(p.jump_table, vec![2, 1, 4, 3]);
}

#[test]
fn unmatched_close_is_fatal() {
    assert_eq!(translate(b"]").unwrap_err(), TranslateError::UnmatchedLoopEnd);
    assert_eq!(translate(b"+[.]][").unwrap_err(), TranslateError::UnmatchedLoopEnd);
}

#[test]
fn unclosed_open_is_fatal() {
    assert_eq!(translate(b"[").unwrap_err(), TranslateError::UnclosedLoopBegin);
    assert_eq!(translate(b"+[[-]").unwrap_err(), TranslateError::UnclosedLoopBegin);
}

#[test]
fn malformed_brackets_abort_before_any_output() {
    let r = run(b"..]..", b"", 1_000_000);
    assert_eq!(r.unwrap_err(), TranslateError::UnmatchedLoopEnd);
}
