use bfvm::{run, EOF_BYTE, TAPE_LEN};

const FUEL: u64 = 1_000_000;

#[test]
fn cell_wraps_forward_past_255() {
    let src = "+".repeat(256);
    let o = run(src.as_bytes(), b"", FUEL).unwrap();
    assert!(o.halted);
    assert_eq!(o.tape[0], 0);
}

#[test]
fn cell_holds_signed_minimum_pattern_after_128_increments() {
    let src = "+".repeat(128);
    let o = run(src.as_bytes(), b"", FUEL).unwrap();
    assert_eq!(o.tape[0], 128);
}

#[test]
fn cell_wraps_backward_past_zero() {
    let o = run(b"-", b"", FUEL).unwrap();
    assert_eq!(o.tape[0], 255);
}

#[test]
fn cell_wraps_at_run_time_inside_loop() {
    let o = run(b"+[+]", b"", FUEL).unwrap();
    assert!(o.halted);
    assert_eq!(o.tape[0], 0);
}

#[test]
fn pointer_wraps_left_from_zero() {
    let o = run(b"<+", b"", FUEL).unwrap();
    assert_eq!(o.data_ptr, TAPE_LEN - 1);
    assert_eq!(o.tape[TAPE_LEN - 1], 1);
}

#[test]
fn pointer_wraps_right_from_last_cell() {
    let o = run(b"<+>", b"", FUEL).unwrap();
    assert_eq!(o.data_ptr, 0);
    assert_eq!(o.tape[TAPE_LEN - 1], 1);
}

#[test]
fn merged_move_larger_than_tape_wraps() {
    let src = ">".repeat(TAPE_LEN + 1);
    let o = run(src.as_bytes(), b"", FUEL).unwrap();
    assert_eq!(o.data_ptr, 1);
}

#[test]
fn exhausted_input_yields_sentinel() {
    let o = run(b",.", b"", FUEL).unwrap();
    assert_eq!(o.output, vec![EOF_BYTE]);
    assert_eq!(o.consumed, 0);
}
