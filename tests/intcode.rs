use aoc2019::intcode::{
    decode, execute_program, find_inputs, parse_program, run_program, step, Asm, ExecError,
    ProgramParseError,
};

fn sample() -> Vec<u32> {
    vec![1, 9, 10, 3, 2, 3, 11, 0, 99, 30, 40, 50]
}

#[test]
fn run() {
    let mut ram = vec![1, 9, 10, 3, 2, 3, 11, 0, 99, 30, 40, 50];

    assert!(run_program(ram.as_mut_slice(), 0).is_ok());

    assert_eq!(ram, vec![3500, 9, 10, 70, 2, 3, 11, 0, 99, 30, 40, 50]);
}

#[test]
fn parse_halt() {
    assert_eq!(decode(&[99], 0), Asm::Halt);
    assert_eq!(decode(&[99], 0).len(), 1);
}

#[test]
fn parse_halt_ignores_trailing_cells() {
    assert_eq!(decode(&[99, 1, 2, 3, 4], 0), Asm::Halt);
    assert_eq!(decode(&[5, 99, 1], 1), Asm::Halt);
}

#[test]
fn parse_add() {
    assert_eq!(decode(&[1, 2, 3, 4], 0), Asm::Add(2, 3, 4));
    assert_eq!(decode(&[1, 2, 3, 4], 0).len(), 4);
}

#[test]
fn parse_mult() {
    assert_eq!(decode(&[2, 4, 3, 2], 0), Asm::Mult(4, 3, 2));
    assert_eq!(decode(&[2, 4, 3, 2], 0).len(), 4);
}

#[test]
fn parse_nop() {
    assert_eq!(decode(&[0], 0), Asm::Nop);
    assert_eq!(decode(&[0], 0).len(), 1);
}

#[test]
fn parse_error() {
    assert_eq!(decode(&[43], 0), Asm::Error(43));
    assert_eq!(decode(&[43], 0).len(), 1);
}

#[test]
fn decode_twice_gives_same_instruction() {
    let ram = sample();
    assert_eq!(decode(&ram, 4), decode(&ram, 4));
    assert_eq!(decode(&ram, 4), Asm::Mult(3, 11, 0));
}

#[test]
fn asm_len() {
    assert_eq!(Asm::Halt.len(), 1);
    assert_eq!(Asm::Add(2, 3, 4).len(), 4);
    assert_eq!(Asm::Mult(4, 3, 2).len(), 4);
    assert_eq!(Asm::Nop.len(), 1);
    assert_eq!(Asm::Error(43).len(), 1);
}

#[test]
fn single_step_add() {
    let mut ram = sample();
    let op = step(ram.as_mut_slice(), 0);
    assert_eq!(ram, vec![1, 9, 10, 70, 2, 3, 11, 0, 99, 30, 40, 50]);
    assert_eq!(op, Ok(Asm::Add(9, 10, 3)));
}

#[test]
fn single_step_mult() {
    let mut ram = vec![1, 9, 10, 70, 2, 3, 11, 0, 99, 30, 40, 50];
    let op = step(ram.as_mut_slice(), 4);
    assert_eq!(ram, vec![3500, 9, 10, 70, 2, 3, 11, 0, 99, 30, 40, 50]);
    assert_eq!(op, Ok(Asm::Mult(3, 11, 0)));
}

#[test]
fn single_step_halt() {
    let mut ram = vec![3500, 9, 10, 70, 2, 3, 11, 0, 99, 30, 40, 50];
    let op = step(ram.as_mut_slice(), 8);
    assert_eq!(ram, vec![3500, 9, 10, 70, 2, 3, 11, 0, 99, 30, 40, 50]);
    assert_eq!(op, Ok(Asm::Halt));
}

#[test]
fn single_step_nop() {
    let mut ram = vec![3500, 9, 10, 70, 2, 3, 11, 0, 99, 30, 40, 50];
    let op = step(ram.as_mut_slice(), 7);
    assert_eq!(ram, vec![3500, 9, 10, 70, 2, 3, 11, 0, 99, 30, 40, 50]);
    assert_eq!(op, Ok(Asm::Nop));
}

#[test]
fn single_step_error() {
    let mut ram = vec![3500, 9, 10, 70, 2, 3, 11, 0, 99, 30, 40, 50];
    let op = step(ram.as_mut_slice(), 1);
    assert_eq!(ram, vec![3500, 9, 10, 70, 2, 3, 11, 0, 99, 30, 40, 50]);
    assert_eq!(op, Ok(Asm::Error(9)));
}

#[test]
fn add_step_changes_only_destination() {
    let mut ram = vec![1, 4, 5, 6, 7, 8, 9];
    assert_eq!(step(ram.as_mut_slice(), 0), Ok(Asm::Add(4, 5, 6)));
    assert_eq!(ram, vec![1, 4, 5, 6, 7, 8, 15]);
}

#[test]
fn add_step_reads_operands_before_writing() {
    let mut ram = vec![1, 0, 0, 0];
    assert_eq!(step(ram.as_mut_slice(), 0), Ok(Asm::Add(0, 0, 0)));
    assert_eq!(ram, vec![2, 0, 0, 0]);
}

#[test]
fn step_past_end_is_out_of_bounds() {
    let mut ram = vec![99];
    assert_eq!(step(ram.as_mut_slice(), 1), Err(ExecError::OutOfBounds(1)));
}

#[test]
fn step_truncated_instruction_is_out_of_bounds() {
    let mut ram = vec![1, 0, 0];
    assert_eq!(step(ram.as_mut_slice(), 0), Err(ExecError::OutOfBounds(3)));
    assert_eq!(ram, vec![1, 0, 0]);
}

#[test]
fn step_operand_out_of_bounds() {
    let mut ram = vec![1, 0, 7, 0];
    assert_eq!(step(ram.as_mut_slice(), 0), Err(ExecError::OutOfBounds(7)));
    let mut ram = vec![2, 0, 0, 4];
    assert_eq!(step(ram.as_mut_slice(), 0), Err(ExecError::OutOfBounds(4)));
}

#[test]
fn step_overflow() {
    let mut ram = vec![2, 4, 4, 0, 4294967295];
    assert_eq!(step(ram.as_mut_slice(), 0), Err(ExecError::Overflow(0)));
    assert_eq!(ram, vec![2, 4, 4, 0, 4294967295]);
    let mut ram = vec![0, 1, 6, 6, 0, 0, 4294967295];
    assert_eq!(step(ram.as_mut_slice(), 1), Err(ExecError::Overflow(1)));
}

#[test]
fn run_from_later_position() {
    let mut ram = vec![1, 9, 10, 70, 2, 3, 11, 0, 99, 30, 40, 50];
    assert_eq!(run_program(ram.as_mut_slice(), 4), Ok(()));
    assert_eq!(ram, vec![3500, 9, 10, 70, 2, 3, 11, 0, 99, 30, 40, 50]);
}

#[test]
fn run_unknown_opcode() {
    let mut ram = vec![1, 0, 0, 0, 43];
    assert_eq!(run_program(ram.as_mut_slice(), 0), Err(ExecError::UnknownOpcode(43)));
    assert_eq!(ram, vec![2, 0, 0, 0, 43]);
}

#[test]
fn run_off_the_end() {
    let mut ram = vec![0, 0, 0];
    assert_eq!(run_program(ram.as_mut_slice(), 0), Err(ExecError::OutOfBounds(3)));
}

#[test]
fn execute_writes_inputs_before_running() {
    // With the inputs 0 and 0 the first instruction adds cell 0 to itself.
    assert_eq!(execute_program(&sample(), 0), Ok(100));
}

#[test]
fn execute_with_inputs_already_in_place() {
    assert_eq!(execute_program(&sample(), 910), Ok(3500));
}

#[test]
fn execute_splits_state_into_two_inputs() {
    // mem[0] = mem[n] + mem[v], with n the hundreds and v the remainder.
    let program = vec![1, 0, 0, 0, 99, 7, 20];
    assert_eq!(execute_program(&program, 506), Ok(27));
    assert_eq!(execute_program(&program, 502), Ok(9));
    assert_eq!(execute_program(&program, 1234), Err(ExecError::OutOfBounds(12)));
}

#[test]
fn execute_unknown_opcode() {
    assert_eq!(execute_program(&[43], 0), Err(ExecError::UnknownOpcode(43)));
    assert_eq!(execute_program(&[43], 1202), Err(ExecError::UnknownOpcode(43)));
}

#[test]
fn execute_short_program_that_halts() {
    assert_eq!(execute_program(&[99], 0), Err(ExecError::OutOfBounds(1)));
    assert_eq!(execute_program(&[99, 0], 0), Err(ExecError::OutOfBounds(2)));
    assert_eq!(execute_program(&[], 0), Err(ExecError::OutOfBounds(0)));
}

#[test]
fn execute_does_not_touch_the_program() {
    let program = sample();
    let _ = execute_program(&program, 1202);
    assert_eq!(program, sample());
}

#[test]
fn find_inputs_returns_first_match() {
    // mem[0] = mem[n] + mem[v]; 27 is reached by (5, 6) and (6, 5).
    let program = vec![1, 0, 0, 0, 99, 7, 20];
    assert_eq!(find_inputs(&program, 27), Some(506));
    assert_eq!(execute_program(&program, 605), Ok(27));
}

#[test]
fn find_inputs_not_found() {
    let program = vec![1, 0, 0, 0, 99, 7, 20];
    assert_eq!(find_inputs(&program, 1000), None);
}

#[test]
fn find_inputs_skips_failing_candidates() {
    // Every state fails but those whose inputs are both below 5.
    let program = vec![1, 0, 0, 0, 99];
    assert_eq!(find_inputs(&program, 198), Some(404));
    assert_eq!(find_inputs(&[43, 0, 0], 0), None);
}

#[test]
fn find_inputs_on_sample() {
    assert_eq!(find_inputs(&sample(), 100), Some(0));
}

#[test]
fn parse_program_text() {
    assert_eq!(parse_program("1,9,10,3,2,3,11,0,99,30,40,50"), Ok(sample()));
    assert_eq!(parse_program("7"), Ok(vec![7]));
    assert_eq!(parse_program("+5,4294967295"), Ok(vec![5, 4294967295]));
}

#[test]
fn parse_program_rejects_bad_fields() {
    assert_eq!(parse_program(""), Err(ProgramParseError { index: 0, token: vec![] }));
    assert_eq!(parse_program("1,,2"), Err(ProgramParseError { index: 1, token: vec![] }));
    assert_eq!(parse_program("1,2,x9"), Err(ProgramParseError { index: 2, token: b"x9".to_vec() }));
    assert_eq!(parse_program("4294967296"), Err(ProgramParseError { index: 0, token: b"4294967296".to_vec() }));
    assert_eq!(parse_program("1,-2"), Err(ProgramParseError { index: 1, token: b"-2".to_vec() }));
    assert_eq!(parse_program("1, 2"), Err(ProgramParseError { index: 1, token: b" 2".to_vec() }));
    assert_eq!(parse_program("1,2,"), Err(ProgramParseError { index: 2, token: vec![] }));
}
