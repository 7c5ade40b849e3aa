//! The Intcode machine: a flat memory of `u32` cells that holds both the
//! program and its data, a decoder, a single-step executor, the
//! interpreter loop and a search over the two-input convention.
use vstd::prelude::*;
use vstd::slice::{slice_subrange, slice_to_vec};
use vstd::string::StringSliceAdditionalSpecFns;
use crate::text::{field_end, fields, fields_from, parse_unsigned, unsigned_value};

verus! {

/// One decoded instruction. Operands are memory indices.
#[derive(Debug, Clone, Copy, PartialEq, Eq, Structural)]
pub enum Asm {
    Nop,
    Halt,
    Add(usize, usize, usize),
    Mult(usize, usize, usize),
    Error(u32),
}

/// Why a run did not halt.
#[derive(Debug, Clone, Copy, PartialEq, Eq, Structural)]
pub enum ExecError {
    /// The tag read at the program counter is not an instruction.
    UnknownOpcode(u32),
    /// A cell that the run needed lies past the end of memory; carries its index.
    OutOfBounds(usize),
    /// The result of the instruction at this position does not fit in a cell.
    Overflow(usize),
}

impl Asm {
    /// Number of cells the instruction occupies, tag included.
    pub open spec fn width(self) -> nat {
        match self {
            Asm::Add(_, _, _) | Asm::Mult(_, _, _) => 4,
            _ => 1,
        }
    }

    /// Number of cells the instruction occupies; the counter moves on by it.
    pub fn len(&self) -> (r: usize)
        ensures
            r == self.width(),
    {
        match self {
            Asm::Add(_, _, _) | Asm::Mult(_, _, _) => 4,
            _ => 1,
        }
    }
}

/// The tag names an instruction with three operand cells.
pub open spec fn has_operands(tag: u32) -> bool {
    tag == 1 || tag == 2
}

/// All the cells that decoding at `pos` reads lie inside memory.
pub open spec fn decodable(mem: Seq<u32>, pos: int) -> bool {
    &&& 0 <= pos < mem.len()
    &&& has_operands(mem[pos]) ==> pos + 3 < mem.len()
}

/// The instruction that starts at `pos`.
pub open spec fn decode_spec(mem: Seq<u32>, pos: int) -> Asm {
    let tag = mem[pos];
    if tag == 0 {
        Asm::Nop
    } else if tag == 1 {
        Asm::Add(mem[pos + 1] as usize, mem[pos + 2] as usize, mem[pos + 3] as usize)
    } else if tag == 2 {
        Asm::Mult(mem[pos + 1] as usize, mem[pos + 2] as usize, mem[pos + 3] as usize)
    } else if tag == 99 {
        Asm::Halt
    } else {
        Asm::Error(tag)
    }
}

/// Memory after an arithmetic instruction writes `value` (if it fits) to `d`,
/// having checked that `a`, `b` and `d` are inside memory.
pub open spec fn arith_spec(mem: Seq<u32>, pc: int, a: usize, b: usize, d: usize, value: int) -> Result<Seq<u32>, ExecError> {
    if a >= mem.len() {
        Err(ExecError::OutOfBounds(a))
    } else if b >= mem.len() {
        Err(ExecError::OutOfBounds(b))
    } else if d >= mem.len() {
        Err(ExecError::OutOfBounds(d))
    } else if value > u32::MAX {
        Err(ExecError::Overflow(pc as usize))
    } else {
        Ok(mem.update(d as int, value as u32))
    }
}

/// One step at `pc`: the instruction executed and the memory after it.
pub open spec fn step_spec(mem: Seq<u32>, pc: int) -> Result<(Asm, Seq<u32>), ExecError> {
    if pc < 0 || pc >= mem.len() {
        Err(ExecError::OutOfBounds(pc as usize))
    } else if !decodable(mem, pc) {
        Err(ExecError::OutOfBounds(mem.len() as usize))
    } else {
        let op = decode_spec(mem, pc);
        match op {
            Asm::Add(a, b, d) => match arith_spec(mem, pc, a, b, d, mem[a as int] + mem[b as int]) {
                Ok(m) => Ok((op, m)),
                Err(e) => Err(e),
            },
            Asm::Mult(a, b, d) => match arith_spec(mem, pc, a, b, d, mem[a as int] * mem[b as int]) {
                Ok(m) => Ok((op, m)),
                Err(e) => Err(e),
            },
            _ => Ok((op, mem)),
        }
    }
}

/// The outcome of running from `pc` until a halt or a failure, with the
/// memory at that point.
pub open spec fn run_spec(mem: Seq<u32>, pc: int) -> (Result<(), ExecError>, Seq<u32>)
    decreases mem.len() - pc,
{
    if pc < 0 || pc >= mem.len() {
        (Err(ExecError::OutOfBounds(pc as usize)), mem)
    } else {
        match step_spec(mem, pc) {
            Err(e) => (Err(e), mem),
            Ok((op, m)) => match op {
                Asm::Halt => (Ok(()), m),
                Asm::Error(k) => (Err(ExecError::UnknownOpcode(k)), m),
                _ => run_spec(m, pc + op.width()),
            },
        }
    }
}

/// A step keeps the length of memory.
pub proof fn lemma_step_keeps_len(mem: Seq<u32>, pc: int)
    ensures
        step_spec(mem, pc) matches Ok((_, m)) ==> m.len() == mem.len(),
{
}

/// A run keeps the length of memory.
pub proof fn lemma_run_keeps_len(mem: Seq<u32>, pc: int)
    ensures
        run_spec(mem, pc).1.len() == mem.len(),
    decreases mem.len() - pc,
{
    lemma_step_keeps_len(mem, pc);
    if 0 <= pc < mem.len() {
        if let Ok((op, m)) = step_spec(mem, pc) {
            lemma_run_keeps_len(m, pc + op.width());
        }
    }
}

/// Reads the instruction that starts at `pos`.
pub fn decode(memory: &[u32], pos: usize) -> (op: Asm)
    requires
        decodable(memory@, pos as int),
    ensures
        op == decode_spec(memory@, pos as int),
{
    let tag = memory[pos];
    if tag == 0 {
        Asm::Nop
    } else if tag == 1 {
        Asm::Add(memory[pos + 1] as usize, memory[pos + 2] as usize, memory[pos + 3] as usize)
    } else if tag == 2 {
        Asm::Mult(memory[pos + 1] as usize, memory[pos + 2] as usize, memory[pos + 3] as usize)
    } else if tag == 99 {
        Asm::Halt
    } else {
        Asm::Error(tag)
    }
}

/// Executes the instruction at `pc`, writing its result into `ram`.
/// On failure `ram` is left as it was.
pub fn step(ram: &mut [u32], pc: usize) -> (r: Result<Asm, ExecError>)
    ensures
        match step_spec(old(ram)@, pc as int) {
            Ok((op, m)) => r == Ok::<Asm, ExecError>(op) && final(ram)@ == m,
            Err(e) => r == Err::<Asm, ExecError>(e) && final(ram)@ == old(ram)@,
        },
{
    if pc >= ram.len() {
        return Err(ExecError::OutOfBounds(pc));
    }
    if (ram[pc] == 1 || ram[pc] == 2) && ram.len() - pc <= 3 {
        return Err(ExecError::OutOfBounds(ram.len()));
    }
    let op = decode(ram, pc);
    match op {
        Asm::Add(a, b, d) | Asm::Mult(a, b, d) => {
            if a >= ram.len() {
                return Err(ExecError::OutOfBounds(a));
            }
            if b >= ram.len() {
                return Err(ExecError::OutOfBounds(b));
            }
            if d >= ram.len() {
                return Err(ExecError::OutOfBounds(d));
            }
            let x = ram[a];
            let y = ram[b];
            let value = match op {
                Asm::Add(_, _, _) => x.checked_add(y),
                _ => x.checked_mul(y),
            };
            match value {
                Some(v) => {
                    ram[d] = v;
                },
                None => {
                    return Err(ExecError::Overflow(pc));
                },
            }
        },
        _ => {},
    }
    Ok(op)
}

/// Runs the program in `ram` from `start_pc` until it halts or fails,
/// mutating `ram` in place. Every run ends: no instruction moves the counter
/// backwards, so a program that neither halts nor fails runs off the end of
/// memory, which is an out-of-bounds failure.
pub fn run_program(ram: &mut [u32], start_pc: usize) -> (r: Result<(), ExecError>)
    ensures
        (r, final(ram)@) == run_spec(old(ram)@, start_pc as int),
{
    let mut pc = start_pc;
    loop
        invariant
            run_spec(ram@, pc as int) == run_spec(old(ram)@, start_pc as int),
        decreases ram@.len() - pc,
    {
        if pc >= ram.len() {
            return Err(ExecError::OutOfBounds(pc));
        }
        match step(ram, pc) {
            Err(e) => {
                return Err(e);
            },
            Ok(Asm::Halt) => {
                return Ok(());
            },
            Ok(Asm::Error(k)) => {
                return Err(ExecError::UnknownOpcode(k));
            },
            Ok(op) => {
                pc = pc + op.len();
            },
        }
    }
}

/// Number of input pairs the search tries: every state from 0 through 9999.
pub const STATE_COUNT: u32 = 10000;

/// Memory ready to run: the program with the two inputs packed in `state`
/// (its hundreds and its remainder) written to positions 1 and 2, where the
/// program has them.
pub open spec fn load_spec(program: Seq<u32>, state: u32) -> Seq<u32> {
    let with_first = if program.len() > 1 {
        program.update(1, state / 100)
    } else {
        program
    };
    if program.len() > 2 {
        with_first.update(2, state % 100)
    } else {
        with_first
    }
}

/// The value at position 0 after running the loaded program from position 0.
/// A program without positions 1 and 2 cannot take its inputs: if it halts
/// anyway, that is an out-of-bounds failure at its first missing position.
pub open spec fn execute_spec(program: Seq<u32>, state: u32) -> Result<u32, ExecError> {
    let run = run_spec(load_spec(program, state), 0);
    match run.0 {
        Err(e) => Err(e),
        Ok(()) => if program.len() < 3 {
            Err(ExecError::OutOfBounds(program.len() as usize))
        } else {
            Ok(run.1[0])
        },
    }
}

/// Runs a fresh copy of `program` with the inputs packed in `initial_state`
/// and returns the value left at position 0.
pub fn execute_program(program: &[u32], initial_state: u32) -> (r: Result<u32, ExecError>)
    ensures
        r == execute_spec(program@, initial_state),
{
    let mut ram = slice_to_vec(program);
    if ram.len() > 1 {
        ram.set(1, initial_state / 100);
    }
    if ram.len() > 2 {
        ram.set(2, initial_state % 100);
    }
    assert(ram@ == load_spec(program@, initial_state));
    let ghost loaded = ram@;
    let outcome = run_program(ram.as_mut_slice(), 0);
    proof {
        lemma_run_keeps_len(loaded, 0);
    }
    match outcome {
        Err(e) => Err(e),
        Ok(()) => if ram.len() < 3 {
            Err(ExecError::OutOfBounds(ram.len()))
        } else {
            Ok(ram[0])
        },
    }
}

/// Whether the program, given the inputs packed in `state`, halts with
/// `target` at position 0.
pub open spec fn yields(program: Seq<u32>, state: u32, target: u32) -> bool {
    execute_spec(program, state) == Ok::<u32, ExecError>(target)
}

/// Tries the states 0 through 9999 in increasing order and returns the
/// first one with which the program yields `target`.
pub fn find_inputs(program: &[u32], target: u32) -> (r: Option<u32>)
    ensures
        match r {
            Some(s) => s < STATE_COUNT && yields(program@, s, target) && forall|t: u32|
                t < s ==> !#[trigger] yields(program@, t, target),
            None => forall|t: u32| t < STATE_COUNT ==> !#[trigger] yields(program@, t, target),
        },
{
    let mut state: u32 = 0;
    while state < STATE_COUNT
        invariant
            state <= STATE_COUNT,
            forall|t: u32| t < state ==> !#[trigger] yields(program@, t, target),
        decreases STATE_COUNT - state,
    {
        match execute_program(program, state) {
            Ok(v) => {
                if v == target {
                    return Some(state);
                }
            },
            Err(_) => {},
        }
        state = state + 1;
    }
    None
}

/// Decoding reads only the cells of its instruction: two memories that agree
/// on the tag at `pos` and, for an instruction with operands, on the three
/// cells after it decode to the same instruction there.
pub proof fn lemma_decode_reads_only_its_cells(m1: Seq<u32>, m2: Seq<u32>, pos: int)
    requires
        decodable(m1, pos),
        pos < m2.len(),
        m1[pos] == m2[pos],
        has_operands(m1[pos]) ==> pos + 3 < m2.len() && m1[pos + 1] == m2[pos + 1] && m1[pos + 2]
            == m2[pos + 2] && m1[pos + 3] == m2[pos + 3],
    ensures
        decodable(m2, pos),
        decode_spec(m1, pos) == decode_spec(m2, pos),
{
}

/// Tag 99 decodes to a one-cell halt, whatever follows it.
pub proof fn lemma_decode_halt(mem: Seq<u32>, pos: int)
    requires
        0 <= pos < mem.len(),
        mem[pos] == 99,
    ensures
        decodable(mem, pos),
        decode_spec(mem, pos) == Asm::Halt,
        decode_spec(mem, pos).width() == 1,
{
}

/// Tags 1 and 2 decode to a four-cell addition or multiplication whose
/// operands are the next three cells.
pub proof fn lemma_decode_arith(mem: Seq<u32>, pos: int)
    requires
        0 <= pos,
        pos + 3 < mem.len(),
        has_operands(mem[pos]),
    ensures
        decodable(mem, pos),
        mem[pos] == 1 ==> decode_spec(mem, pos) == Asm::Add(
            mem[pos + 1] as usize,
            mem[pos + 2] as usize,
            mem[pos + 3] as usize,
        ),
        mem[pos] == 2 ==> decode_spec(mem, pos) == Asm::Mult(
            mem[pos + 1] as usize,
            mem[pos + 2] as usize,
            mem[pos + 3] as usize,
        ),
        decode_spec(mem, pos).width() == 4,
{
}

/// Tag 0 decodes to a one-cell no-op; a tag outside 0, 1, 2 and 99 decodes to
/// a one-cell error that carries the tag.
pub proof fn lemma_decode_nop_and_unknown(mem: Seq<u32>, pos: int)
    requires
        0 <= pos < mem.len(),
        !has_operands(mem[pos]),
        mem[pos] != 99,
    ensures
        decodable(mem, pos),
        mem[pos] == 0 ==> decode_spec(mem, pos) == Asm::Nop,
        mem[pos] != 0 ==> decode_spec(mem, pos) == Asm::Error(mem[pos]),
        decode_spec(mem, pos).width() == 1,
{
}

/// An addition step writes the sum of the two operand cells, read before the
/// step, into its destination and leaves every other cell as it was.
pub proof fn lemma_add_step_writes_only_dest(
    mem: Seq<u32>,
    pc: int,
    a: usize,
    b: usize,
    d: usize,
    after: Seq<u32>,
)
    requires
        step_spec(mem, pc) == Ok::<(Asm, Seq<u32>), ExecError>((Asm::Add(a, b, d), after)),
    ensures
        after.len() == mem.len(),
        d < mem.len(),
        after[d as int] == mem[a as int] + mem[b as int],
        forall|i: int| 0 <= i < mem.len() && i != d ==> after[i] == mem[i],
{
}

/// A multiplication step writes the product of the two operand cells, read
/// before the step, into its destination and leaves every other cell as it was.
pub proof fn lemma_mult_step_writes_only_dest(
    mem: Seq<u32>,
    pc: int,
    a: usize,
    b: usize,
    d: usize,
    after: Seq<u32>,
)
    requires
        step_spec(mem, pc) == Ok::<(Asm, Seq<u32>), ExecError>((Asm::Mult(a, b, d), after)),
    ensures
        after.len() == mem.len(),
        d < mem.len(),
        after[d as int] == mem[a as int] * mem[b as int],
        forall|i: int| 0 <= i < mem.len() && i != d ==> after[i] == mem[i],
{
}

/// Loading a program of at least three cells writes the hundreds of `state`
/// to position 1, its remainder to position 2, and keeps every other cell.
pub proof fn lemma_load_writes_inputs(program: Seq<u32>, state: u32)
    requires
        program.len() >= 3,
    ensures
        load_spec(program, state).len() == program.len(),
        load_spec(program, state)[1] == state / 100,
        load_spec(program, state)[2] == state % 100,
        forall|i: int| 0 <= i < program.len() && i != 1 && i != 2 ==> load_spec(program, state)[i] == program[i],
{
}

/// When positions 1 and 2 already hold the inputs packed in `state`,
/// executing with `state` is running the program as it stands from position 0.
pub proof fn lemma_execute_with_inputs_in_place(program: Seq<u32>, state: u32)
    requires
        program.len() >= 3,
        program[1] == state / 100,
        program[2] == state % 100,
    ensures
        execute_spec(program, state) == match run_spec(program, 0).0 {
            Ok(()) => Ok(run_spec(program, 0).1[0]),
            Err(e) => Err::<u32, ExecError>(e),
        },
{
    assert(load_spec(program, state) =~= program);
}

/// A field of a program's text that is not an unsigned 32-bit number.
#[derive(Debug, PartialEq, Eq)]
pub struct ProgramParseError {
    /// Which field, counting from 0.
    pub index: usize,
    /// The field's bytes.
    pub token: Vec<u8>,
}

/// Reads a program written as unsigned decimal numbers separated by commas,
/// failing at the first field that is not one.
pub fn parse_program(text: &str) -> (r: Result<Vec<u32>, ProgramParseError>)
    ensures
        match r {
            Ok(v) => v@.len() == fields(text.spec_bytes()).len() && forall|i: int|
                0 <= i < v@.len() ==> unsigned_value(#[trigger] fields(text.spec_bytes())[i], u32::MAX as int)
                    == Some(v@[i] as int),
            Err(e) => {
                &&& e.index < fields(text.spec_bytes()).len()
                &&& e.token@ == fields(text.spec_bytes())[e.index as int]
                &&& unsigned_value(fields(text.spec_bytes())[e.index as int], u32::MAX as int) is None
                &&& forall|j: int|
                    0 <= j < e.index ==> unsigned_value(
                        #[trigger] fields(text.spec_bytes())[j],
                        u32::MAX as int,
                    ) is Some
            },
        },
{
    let s = text.as_bytes();
    let ghost all = fields(s@);
    let mut values: Vec<u32> = Vec::new();
    let ghost mut done: Seq<Seq<u8>> = Seq::empty();
    let mut start: usize = 0;
    assert(all == done + fields_from(s@, 0));
    loop
        invariant
            start <= s@.len(),
            s@ == text.spec_bytes(),
            all == fields(s@),
            all == done + fields_from(s@, start as int),
            values@.len() == done.len(),
            forall|i: int|
                0 <= i < done.len() ==> unsigned_value(#[trigger] done[i], u32::MAX as int) == Some(
                    values@[i] as int,
                ),
        decreases s@.len() - start,
    {
        let end = field_end(s, start);
        let ghost field = s@.subrange(start as int, end as int);
        assert(fields_from(s@, start as int)[0] == field);
        assert(all[done.len() as int] == field);
        let parsed = parse_unsigned(s, start, end);
        let value: u32 = match parsed {
            Some(v) if v <= u32::MAX as usize => v as u32,
            _ => {
                assert(unsigned_value(field, u32::MAX as int) is None);
                assert forall|j: int| 0 <= j < done.len() implies unsigned_value(
                    #[trigger] all[j],
                    u32::MAX as int,
                ) is Some by {
                    assert(all[j] == done[j]);
                }
                let token = slice_to_vec(slice_subrange(s, start, end));
                return Err(ProgramParseError { index: values.len(), token });
            },
        };
        assert(unsigned_value(field, u32::MAX as int) == Some(value as int));
        values.push(value);
        proof {
            done = done.push(field);
        }
        if end == s.len() {
            assert(fields_from(s@, start as int) =~= seq![field]);
            assert(all =~= done);
            assert forall|i: int| 0 <= i < values@.len() implies unsigned_value(
                #[trigger] all[i],
                u32::MAX as int,
            ) == Some(values@[i] as int) by {
                assert(all[i] == done[i]);
            }
            return Ok(values);
        }
        assert(fields_from(s@, start as int) =~= seq![field] + fields_from(s@, end + 1));
        assert(all =~= done + fields_from(s@, end + 1));
        start = end + 1;
    }
}

} // verus!
