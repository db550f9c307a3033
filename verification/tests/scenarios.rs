use bfvm::run;

const FUEL: u64 = 1_000_000;

#[test]
fn three_increments_output_three() {
    let o = run(b"+++.", b"", FUEL).unwrap();
    assert!(o.halted);
    assert_eq!(o.output, vec![3u8]);
    assert_eq!(o.tape[0], 3);
}

#[test]
fn echo_one_byte() {
    let o = run(b",.", b"A", FUEL).unwrap();
    assert!(o.halted);
    assert_eq!(o.output, vec![65u8]);
    assert_eq!(o.consumed, 1);
}

#[test]
fn clear_loop_zeroes_cell_without_output() {
    let o = run(b"++[-]", b"", FUEL).unwrap();
    assert!(o.halted);
    assert!(o.output.is_empty());
    assert_eq!(o.tape[0], 0);
}

#[test]
fn move_value_loop_transfers_one() {
    let o = run(b"+[>+<-]", b"", FUEL).unwrap();
    assert!(o.halted);
    assert!(o.output.is_empty());
    assert_eq!(o.tape[0], 0);
    assert_eq!(o.tape[1], 1);
}

#[test]
fn empty_source_terminates_untouched() {
    let o = run(b"", b"", FUEL).unwrap();
    assert!(o.halted);
    assert!(o.output.is_empty());
    assert_eq!(o.consumed, 0);
    assert_eq!(o.data_ptr, 0);
    assert_eq!(o.steps_taken, 0);
    assert_eq!(o.tape.len(), bfvm::TAPE_LEN);
    for cell in &o.tape {
        assert_eq!(*cell, 0);
    }
}

#[test]
fn inputs_consumed_in_program_order() {
    let o = run(b",>,<.>.", b"AB", FUEL).unwrap();
    assert!(o.halted);
    assert_eq!(o.output, vec![65u8, 66u8]);
    assert_eq!(o.consumed, 2);
}

#[test]
fn fuel_exhaustion_reports_not_halted() {
    let o = run(b"+[]", b"", 10).unwrap();
    assert!(!o.halted);
    assert_eq!(o.steps_taken, 10);
}
