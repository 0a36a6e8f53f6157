use brainfuck_toy::interpreter;
use brainfuck_toy::interpreter_it;
use brainfuck_toy::Error;

const STEPS: u64 = 1_000_000;

/// Runs `program` on both engines with the same input and checks that they
/// agree on output and tape; returns the common output.
fn run_both(program: &[u8], input: &[u8]) -> Vec<u8> {
    let input: Vec<u8> = input.to_vec();
    let mut plain = interpreter::Interpreter::default();
    let mut it = interpreter_it::Interpreter::default();
    let out_plain = plain.run(program.to_vec(), &input, STEPS).unwrap();
    let out_it = it.run(program.to_vec(), &input, STEPS).unwrap();
    assert_eq!(out_plain, out_it);
    assert_eq!(plain.tape(), it.tape());
    out_plain
}

#[test]
fn fresh_interpreters_hold_one_zeroed_cell() {
    let plain = interpreter::Interpreter::default();
    let it = interpreter_it::Interpreter::default();
    assert_eq!(plain.tape(), &vec![0u8]);
    assert_eq!(it.tape(), &vec![0u8]);
}

#[test]
fn add_by_loop_sums_the_two_cells() {
    // The loop moves cell one (5) onto cell zero (2), then prints the sum.
    assert_eq!(run_both(b"++>+++++[-<+>]<.", b""), vec![7]);
}

#[test]
fn echo_copies_the_input_byte() {
    assert_eq!(run_both(b",.", &[0x41]), vec![0x41]);
}

#[test]
fn echo_twice_keeps_program_order() {
    assert_eq!(run_both(b",.,.", b"AB"), b"AB".to_vec());
}

#[test]
fn nested_loops_terminate_with_the_expected_tape() {
    let mut plain = interpreter::Interpreter::default();
    let mut it = interpreter_it::Interpreter::default();
    let input: Vec<u8> = Vec::new();
    let out_plain = plain
        .run(b"++[>++[>++<-]<-]".to_vec(), &input, STEPS)
        .unwrap();
    let out_it = it.run(b"++[>++[>++<-]<-]".to_vec(), &input, STEPS).unwrap();
    assert!(out_plain.is_empty());
    assert!(out_it.is_empty());
    // Two outer rounds, each adding two inner rounds of two: cell two ends
    // at eight, the loop counters at zero.
    assert_eq!(plain.tape(), &vec![0, 0, 8]);
    assert_eq!(it.tape(), &vec![0, 0, 8]);
}

#[test]
fn incrementing_a_cell_at_255_wraps_to_zero() {
    let mut program = vec![b'+'; 256];
    program.push(b'.');
    assert_eq!(run_both(&program, b""), vec![0]);
}

#[test]
fn decrementing_a_cell_at_zero_wraps_to_255() {
    assert_eq!(run_both(b"-.", b""), vec![255]);
}

#[test]
fn move_left_at_cell_zero_is_a_no_op() {
    // After three moves left from cell zero the pointer still reads cell zero.
    assert_eq!(run_both(b"<<<.", b""), vec![0]);
    // A value written after the moves lands in cell zero.
    let mut plain = interpreter::Interpreter::default();
    let input: Vec<u8> = Vec::new();
    plain.run(b"<<+".to_vec(), &input, STEPS).unwrap();
    assert_eq!(plain.tape(), &vec![1u8]);
}

#[test]
fn a_loop_with_a_zero_guard_runs_its_body_zero_times() {
    assert_eq!(run_both(b"[.]", b""), Vec::<u8>::new());
}

#[test]
fn a_loop_runs_until_its_guard_reads_zero() {
    // The guard starts at 2; the body prints after each decrement.
    assert_eq!(run_both(b"++[-.]", b""), vec![1, 0]);
}

#[test]
fn merged_and_unmerged_runs_leave_the_same_tape() {
    // A program full of runs: the merged engine takes one step per run, the
    // baseline one per instruction, and both land on the same tape.
    assert_eq!(run_both(b">>>+++++<<---<++.", b""), vec![2]);
}

#[test]
fn reading_past_the_end_of_input_is_an_error() {
    let mut plain = interpreter::Interpreter::default();
    let mut it = interpreter_it::Interpreter::default();
    let input: Vec<u8> = Vec::new();
    assert_eq!(
        plain.run(b",".to_vec(), &input, STEPS).unwrap_err(),
        Error::InputExhausted
    );
    assert_eq!(
        it.run(b",".to_vec(), &input, STEPS).unwrap_err(),
        Error::InputExhausted
    );
    let one = vec![7u8];
    assert_eq!(
        plain.run(b",,".to_vec(), &one, STEPS).unwrap_err(),
        Error::InputExhausted
    );
}

#[test]
fn a_program_that_never_halts_exhausts_the_step_budget() {
    let mut plain = interpreter::Interpreter::default();
    let mut it = interpreter_it::Interpreter::default();
    let input: Vec<u8> = Vec::new();
    assert_eq!(
        plain.run(b"+[]".to_vec(), &input, 1000).unwrap_err(),
        Error::StepLimitExceeded
    );
    assert_eq!(
        it.run(b"+[]".to_vec(), &input, 1000).unwrap_err(),
        Error::StepLimitExceeded
    );
}

#[test]
fn the_tape_persists_between_runs() {
    let mut plain = interpreter::Interpreter::default();
    let input: Vec<u8> = Vec::new();
    plain.run(b"+++".to_vec(), &input, STEPS).unwrap();
    // A later run starts with a fresh pointer over the same tape.
    let out = plain.run(b".".to_vec(), &input, STEPS).unwrap();
    assert_eq!(out, vec![3]);
}

#[test]
fn output_is_produced_in_program_order() {
    assert_eq!(run_both(b"+.+.+.", b""), vec![1, 2, 3]);
}
