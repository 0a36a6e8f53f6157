use brainfuck_toy::jit::{Code, ItOpcode};
use brainfuck_toy::opcode::{is_instruction, opcode_dict};
use brainfuck_toy::Error;

const STEPS: u64 = 1_000_000;

#[test]
fn dict_holds_exactly_the_eight_instruction_bytes() {
    let dict = opcode_dict();
    assert_eq!(dict, vec![b'<', b'>', b'+', b'-', b'[', b']', b',', b'.']);
    for u in 0..=255u8 {
        assert_eq!(is_instruction(u), dict.contains(&u));
    }
}

#[test]
fn runs_of_identical_instructions_merge_into_one_counted_op() {
    let code = Code::from(b"+++".to_vec()).unwrap();
    assert_eq!(code.it_opcodes, vec![ItOpcode::ADD(3)]);

    let code = Code::from(b">>><<--".to_vec()).unwrap();
    assert_eq!(
        code.it_opcodes,
        vec![
            ItOpcode::SHR(3),
            ItOpcode::SHL(2),
            ItOpcode::SUB(2),
        ]
    );
}

#[test]
fn comments_are_dropped_before_merging() {
    let code = Code::from(b"+ hello + world +".to_vec()).unwrap();
    assert_eq!(code.it_opcodes, vec![ItOpcode::ADD(3)]);
}

#[test]
fn a_run_of_256_increments_wraps_to_a_zero_count() {
    let data = vec![b'+'; 256];
    let code = Code::from(data).unwrap();
    assert_eq!(code.it_opcodes, vec![ItOpcode::ADD(0)]);
}

#[test]
fn alternating_kinds_do_not_merge() {
    let code = Code::from(b"+-+".to_vec()).unwrap();
    assert_eq!(
        code.it_opcodes,
        vec![ItOpcode::ADD(1), ItOpcode::SUB(1), ItOpcode::ADD(1)]
    );
}

#[test]
fn loop_open_is_patched_with_the_position_before_its_close() {
    let code = Code::from(b"[-]".to_vec()).unwrap();
    assert_eq!(
        code.it_opcodes,
        vec![ItOpcode::LSB(1), ItOpcode::SUB(1), ItOpcode::RSB(0)]
    );
}

#[test]
fn nested_loops_pair_inside_out() {
    let code = Code::from(b"[[]]".to_vec()).unwrap();
    assert_eq!(
        code.it_opcodes,
        vec![
            ItOpcode::LSB(2),
            ItOpcode::LSB(1),
            ItOpcode::RSB(1),
            ItOpcode::RSB(0),
        ]
    );
}

#[test]
fn unmatched_close_is_a_malformed_program_error() {
    assert_eq!(
        Code::from(b"]".to_vec()).unwrap_err(),
        Error::UnmatchedLoopClose
    );
    assert_eq!(
        Code::from(b"+]+".to_vec()).unwrap_err(),
        Error::UnmatchedLoopClose
    );
    assert_eq!(
        Code::from(b"][".to_vec()).unwrap_err(),
        Error::UnmatchedLoopClose
    );
}

#[test]
fn unmatched_open_is_a_malformed_program_error() {
    assert_eq!(
        Code::from(b"[".to_vec()).unwrap_err(),
        Error::UnmatchedLoopOpen
    );
    assert_eq!(
        Code::from(b"+[+".to_vec()).unwrap_err(),
        Error::UnmatchedLoopOpen
    );
}

#[test]
fn empty_and_comment_only_programs_build_empty_code() {
    assert!(Code::from(Vec::new()).unwrap().it_opcodes.is_empty());
    assert!(Code::from(b"no instructions here?!".to_vec())
        .unwrap()
        .it_opcodes
        .is_empty());
}

#[test]
fn both_interpreters_accept_what_the_builder_accepts() {
    // The same malformed programs are rejected by every engine.
    let mut it = brainfuck_toy::interpreter_it::Interpreter::default();
    let mut plain = brainfuck_toy::interpreter::Interpreter::default();
    let input: Vec<u8> = Vec::new();
    for bad in [b"]".to_vec(), b"[".to_vec()] {
        let a = it.run(bad.clone(), &input, STEPS).unwrap_err();
        let b = plain.run(bad.clone(), &input, STEPS).unwrap_err();
        assert_eq!(a, b);
    }
}
