//! Runs a function of a program.

use vstd::prelude::*;
use crate::error::Error;
use crate::ir::{decode, ops_of, Number, Register, Step};
use crate::model::{BinaryOp, Condition};
use crate::program::Program;
use crate::semantics::{
    apply, assign, assign_all, holds, lemma_run_function_never_faults, lemma_skip, run_block,
    run_function, value_at, values_at,
};

verus! {

/// The value of a register.
fn fetch(registers: &Vec<Number>, register: Register) -> (value: Number)
    ensures
        value == value_at(registers@, register),
{
    if register.0 < registers.len() {
        registers[register.0]
    } else {
        0
    }
}

/// Writes a register, growing the file with zeros as far as its index.
fn store(registers: &mut Vec<Number>, register: Register, value: Number)
    requires
        register.0 < usize::MAX,
    ensures
        final(registers)@ == assign(old(registers)@, register, value),
{
    let ghost before = registers@;
    while registers.len() <= register.0
        invariant
            before.len() <= registers@.len(),
            registers@.len() > before.len() ==> registers@.len() <= register.0 + 1 && !(register.0
                < before.len()),
            registers@ =~= before + Seq::new(
                (registers@.len() - before.len()) as nat,
                |i: int| 0isize,
            ),
        decreases register.0 + 1 - registers.len(),
    {
        registers.push(0);
    }
    registers.set(register.0, value);
    assert(registers@ =~= assign(before, register, value));
}

/// The values of several registers, in order.
fn fetch_all(registers: &Vec<Number>, sources: &Vec<Register>) -> (values: Vec<Number>)
    ensures
        values@ == values_at(registers@, sources@),
{
    let mut values: Vec<Number> = Vec::new();
    let mut i: usize = 0;
    while i < sources.len()
        invariant
            i <= sources.len(),
            values@.len() == i,
            forall|j: int| 0 <= j < i ==> values@[j] == value_at(registers@, sources@[j]),
        decreases sources.len() - i,
    {
        values.push(fetch(registers, sources[i]));
        i += 1;
    }
    assert(values@ =~= values_at(registers@, sources@));
    values
}

/// Writes `values` to `targets`, position by position, from left to right.
fn store_all(registers: &mut Vec<Number>, targets: &Vec<Register>, values: &[Number])
    requires
        targets@.len() == values@.len(),
        forall|i: int| 0 <= i < targets@.len() ==> targets@[i].0 < usize::MAX,
    ensures
        final(registers)@ == assign_all(old(registers)@, targets@, values@, targets@.len()),
{
    let mut i: usize = 0;
    while i < targets.len()
        invariant
            i <= targets.len(),
            targets@.len() == values@.len(),
            forall|j: int| 0 <= j < targets@.len() ==> targets@[j].0 < usize::MAX,
            registers@ == assign_all(old(registers)@, targets@, values@, i as nat),
        decreases targets.len() - i,
    {
        store(registers, targets[i], values[i]);
        i += 1;
    }
}

/// The result of a binary operation, `None` for a zero divisor.
fn compute(operation: BinaryOp, lhs: Number, rhs: Number) -> (value: Option<Number>)
    ensures
        value == apply(operation, lhs, rhs),
{
    match operation {
        BinaryOp::Add => Some(lhs.wrapping_add(rhs)),
        BinaryOp::Subtract => Some(lhs.wrapping_sub(rhs)),
        BinaryOp::Multiply => Some(lhs.wrapping_mul(rhs)),
        BinaryOp::Divide => if rhs == 0 {
            None
        } else {
            match lhs.checked_div(rhs) {
                Some(quotient) => Some(quotient),
                None => Some(isize::MIN),
            }
        },
        BinaryOp::Modulo => if rhs == 0 {
            None
        } else {
            match lhs.checked_rem(rhs) {
                Some(remainder) => Some(remainder),
                None => Some(0),
            }
        },
        BinaryOp::BitOr => Some(lhs | rhs),
        BinaryOp::BitXor => Some(lhs ^ rhs),
        BinaryOp::BitAnd => Some(lhs & rhs),
        BinaryOp::ShiftLeft => Some(lhs.wrapping_shl(#[verifier::truncate] (rhs as u32))),
        BinaryOp::ShiftRight => Some(lhs.wrapping_shr(#[verifier::truncate] (rhs as u32))),
    }
}

/// Applies a binary operation to two registers and stores the result in a
/// third; fails, leaving the file as it was, on a zero divisor.
fn binary(
    registers: &mut Vec<Number>,
    operation: BinaryOp,
    lhs: Register,
    rhs: Register,
    out: Register,
) -> (done: Result<(), Error>)
    requires
        out.0 < usize::MAX,
    ensures
        match apply(operation, value_at(old(registers)@, lhs), value_at(old(registers)@, rhs)) {
            Some(value) => done is Ok && final(registers)@ == assign(old(registers)@, out, value),
            None => done == Err::<(), Error>(Error::Arithmetic) && final(registers)@ == old(
                registers,
            )@,
        },
{
    match compute(operation, fetch(registers, lhs), fetch(registers, rhs)) {
        Some(value) => {
            store(registers, out, value);
            Ok(())
        },
        None => Err(Error::Arithmetic),
    }
}

/// Whether a jump with this condition is taken.
fn test(condition: Condition, registers: &Vec<Number>) -> (taken: bool)
    ensures
        taken == holds(condition, registers@),
{
    match condition {
        Condition::Always => true,
        Condition::Equal(lhs, rhs) => fetch(registers, lhs) == fetch(registers, rhs),
        Condition::NotEqual(lhs, rhs) => fetch(registers, lhs) != fetch(registers, rhs),
        Condition::NonZero(check) => fetch(registers, check) != 0,
        Condition::Zero(check) => fetch(registers, check) == 0,
    }
}

/// Runs an invocation that enters at `block`, on a fresh register file, with
/// calls nested at most `depth` deep.
///
/// Jumps within the invocation replace the current block in a loop; only a
/// call recurses.
fn interpret_block<ProgramT: Program>(
    block: ProgramT::BlockPointer,
    program: &ProgramT,
    arguments: &[Number],
    depth: usize,
) -> (result: Result<Number, Error>)
    requires
        program.wf(),
        program.model().blocks.contains_key(block@ as int),
    ensures
        result == run_block(
            program.model(),
            block@ as int,
            program.model().blocks[block@ as int],
            Seq::empty(),
            arguments@,
            depth as nat,
        ).result,
    decreases depth,
{
    let ghost model = program.model();
    let ghost goal = run_block(
        model,
        block@ as int,
        model.blocks[block@ as int],
        Seq::empty(),
        arguments@,
        depth as nat,
    ).result;
    let mut registers: Vec<Number> = Vec::new();
    let mut current = block;
    let mut code = program.get_ir(&current);
    let mut pc: usize = 0;
    proof {
        program.lemma_wf();
        assert(model.block_wf(current@ as int));
        assert(ops_of(code@).skip(0) =~= ops_of(code@));
    }
    loop
        invariant
            program.wf(),
            model == program.model(),
            model.wf(),
            model.blocks.contains_key(block@ as int),
            model.blocks.contains_key(current@ as int),
            ops_of(code@) == model.blocks[current@ as int],
            pc < code@.len(),
            goal == run_block(
                model,
                block@ as int,
                model.blocks[block@ as int],
                Seq::empty(),
                arguments@,
                depth as nat,
            ).result,
            run_block(
                model,
                current@ as int,
                ops_of(code@).skip(pc as int),
                registers@,
                arguments@,
                depth as nat,
            ).result == goal,
        decreases current@, code@.len() - pc,
    {
        let ghost ops = ops_of(code@);
        let ghost op = ops[pc as int];
        proof {
            lemma_skip(ops, pc as int);
            assert(model.block_wf(current@ as int));
            assert(model.admits(current@ as int, op));
            assert(op == code@[pc as int]@);
            assert(!op.is_terminal() ==> pc + 1 < code@.len());
        }
        match decode(&code[pc]) {
            Step::Load(value, dst) => {
                assert(op.writes(dst));
                store(&mut registers, dst, value);
                pc += 1;
            },
            Step::Binary(operation, lhs, rhs, dst) => {
                assert(op.writes(dst));
                match binary(&mut registers, operation, lhs, rhs, dst) {
                    Ok(_) => {
                        pc += 1;
                    },
                    Err(error) => {
                        return Err(error);
                    },
                }
            },
            Step::Call(function, sources, dst) => {
                assert(op.writes(dst));
                let values = fetch_all(&registers, sources);
                match program.get_function_entry(function) {
                    None => {
                        return Err(Error::Lookup);
                    },
                    Some(entry) => {
                        if depth == 0 {
                            return Err(Error::CallDepthExceeded);
                        }
                        match interpret_block(entry, program, values.as_slice(), depth - 1) {
                            Ok(value) => {
                                store(&mut registers, dst, value);
                                pc += 1;
                            },
                            Err(error) => {
                                return Err(error);
                            },
                        }
                    },
                }
            },
            Step::LoadArgs(targets) => {
                if targets.len() != arguments.len() {
                    return Err(Error::ArgumentArity);
                }
                assert forall|i: int| 0 <= i < targets@.len() implies targets@[i].0
                    < usize::MAX by {
                    assert(op.writes(targets@[i]));
                }
                store_all(&mut registers, targets, arguments);
                pc += 1;
            },
            Step::Jump(condition, to) => {
                if test(condition, &registers) {
                    current = to;
                    code = program.get_ir(&current);
                    pc = 0;
                    proof {
                        assert(model.block_wf(current@ as int));
                        assert(ops_of(code@).skip(0) =~= ops_of(code@));
                    }
                } else {
                    pc += 1;
                }
            },
            Step::Ret(src) => {
                return Ok(fetch(&registers, src));
            },
            Step::Invalid => {
                return Err(Error::InvalidOpcode);
            },
        }
    }
}

/// Invokes a function of a program on the given arguments, with calls nested
/// at most `depth` deep below it.
///
/// Fails with `Lookup` when the name, or the name in a call that is reached,
/// was never registered, and with `CallDepthExceeded` when a call would nest
/// deeper than `depth`. It never fails with `MalformedProgram` or
/// `InvalidOpcode`.
pub fn interpret_function_within<ProgramT: Program>(
    function: &ProgramT::FunctionPointer,
    program: &ProgramT,
    arguments: &[Number],
    depth: usize,
) -> (result: Result<Number, Error>)
    requires
        program.wf(),
    ensures
        result == run_function(program.model(), function@, arguments@, depth as nat).result,
        !program.model().entries.contains_key(function@) ==> result == Err::<Number, Error>(
            Error::Lookup,
        ),
        result != Err::<Number, Error>(Error::MalformedProgram),
        result != Err::<Number, Error>(Error::InvalidOpcode),
{
    proof {
        program.lemma_wf();
        lemma_run_function_never_faults(
            program.model(),
            function@,
            arguments@,
            depth as nat,
        );
    }
    match program.get_function_entry(function) {
        Some(entry) => interpret_block(entry, program, arguments, depth),
        None => Err(Error::Lookup),
    }
}

/// Invokes a function of a program on the given arguments. Calls may nest as
/// deep as a `usize` can count.
pub fn interpret_function<ProgramT: Program>(
    function: &ProgramT::FunctionPointer,
    program: &ProgramT,
    arguments: &[Number],
) -> (result: Result<Number, Error>)
    requires
        program.wf(),
    ensures
        result == run_function(program.model(), function@, arguments@, usize::MAX as nat).result,
        !program.model().entries.contains_key(function@) ==> result == Err::<Number, Error>(
            Error::Lookup,
        ),
        result != Err::<Number, Error>(Error::MalformedProgram),
        result != Err::<Number, Error>(Error::InvalidOpcode),
{
    interpret_function_within(function, program, arguments, usize::MAX)
}

} // verus!
