//! The instruction set.

use vstd::prelude::*;
use crate::model::{BinaryOp, Condition, Op};

verus! {

/// The only kind of value: a signed integer of the machine's width.
pub type Number = isize;

/// A slot of a function's register file, named by its index.
///
/// A program that the builders hand out assigns to each register at most once
/// in a function. A slot that was never written holds zero.
#[derive(Debug, PartialEq, Eq, PartialOrd, Ord, Clone, Copy)]
pub struct Register(pub usize);

/// One instruction. `BlockId` names the blocks that jumps lead to and
/// `FunctionId` the functions that calls invoke.
#[derive(Debug, PartialEq, Eq)]
pub enum Instruction<BlockId, FunctionId> {
    /// Store a constant in a register.
    LoadImmediate(Number, Register),
    /// Invoke a function on the values of `arguments`, read from left to
    /// right, and store what it returns in `out`.
    Call { function_id: FunctionId, arguments: Vec<Register>, out: Register },
    /// End the current invocation with the value of a register.
    Ret(Register),
    /// Store the arguments of the current invocation in the given registers,
    /// position by position.
    LoadArgs(Vec<Register>),
    /// Continue with another block, on the same register file.
    Jump(BlockId),
    /// Jump if two registers hold the same value.
    JEqual { lhs: Register, rhs: Register, to: BlockId },
    /// Jump if two registers hold different values.
    JNotEqual { lhs: Register, rhs: Register, to: BlockId },
    /// Jump if a register holds a value other than zero.
    JNonZero { check: Register, to: BlockId },
    /// Jump if a register holds zero.
    JZero { check: Register, to: BlockId },
    /// Wrapping sum.
    Add { lhs: Register, rhs: Register, out: Register },
    /// Wrapping difference.
    Subtract { lhs: Register, rhs: Register, out: Register },
    /// Wrapping product.
    Multiply { lhs: Register, rhs: Register, out: Register },
    /// Wrapping quotient, rounded towards zero; fails on a zero divisor.
    Divide { lhs: Register, rhs: Register, out: Register },
    /// Wrapping remainder, with the sign of `lhs`; fails on a zero divisor.
    Modulo { lhs: Register, rhs: Register, out: Register },
    /// Bitwise or.
    BitOr { lhs: Register, rhs: Register, out: Register },
    /// Bitwise exclusive or.
    BitXor { lhs: Register, rhs: Register, out: Register },
    /// Bitwise and.
    BitAnd { lhs: Register, rhs: Register, out: Register },
    /// Shift left, by `rhs` modulo the width of a number.
    ShiftL { lhs: Register, rhs: Register, out: Register },
    /// Arithmetic shift right, by `rhs` modulo the width of a number.
    ShiftR { lhs: Register, rhs: Register, out: Register },
    /// Marks a slot that must never be executed.
    Invalid,
}

impl<BlockId: View<V = usize>, FunctionId: View<V = Seq<char>>> View for Instruction<
    BlockId,
    FunctionId,
> {
    type V = Op;

    /// What the instruction does, with block handles read as indices and
    /// function handles as names.
    open spec fn view(&self) -> Op {
        match *self {
            Instruction::LoadImmediate(value, dst) => Op::Load { value, dst },
            Instruction::Call { function_id, arguments, out } => Op::Call {
                function: function_id@,
                arguments: arguments@,
                dst: out,
            },
            Instruction::Ret(src) => Op::Ret { src },
            Instruction::LoadArgs(registers) => Op::LoadArgs { registers: registers@ },
            Instruction::Jump(to) => Op::Jump { condition: Condition::Always, target: to@ as int },
            Instruction::JEqual { lhs, rhs, to } => Op::Jump {
                condition: Condition::Equal(lhs, rhs),
                target: to@ as int,
            },
            Instruction::JNotEqual { lhs, rhs, to } => Op::Jump {
                condition: Condition::NotEqual(lhs, rhs),
                target: to@ as int,
            },
            Instruction::JNonZero { check, to } => Op::Jump {
                condition: Condition::NonZero(check),
                target: to@ as int,
            },
            Instruction::JZero { check, to } => Op::Jump {
                condition: Condition::Zero(check),
                target: to@ as int,
            },
            Instruction::Add { lhs, rhs, out } => Op::Binary {
                operation: BinaryOp::Add,
                lhs,
                rhs,
                dst: out,
            },
            Instruction::Subtract { lhs, rhs, out } => Op::Binary {
                operation: BinaryOp::Subtract,
                lhs,
                rhs,
                dst: out,
            },
            Instruction::Multiply { lhs, rhs, out } => Op::Binary {
                operation: BinaryOp::Multiply,
                lhs,
                rhs,
                dst: out,
            },
            Instruction::Divide { lhs, rhs, out } => Op::Binary {
                operation: BinaryOp::Divide,
                lhs,
                rhs,
                dst: out,
            },
            Instruction::Modulo { lhs, rhs, out } => Op::Binary {
                operation: BinaryOp::Modulo,
                lhs,
                rhs,
                dst: out,
            },
            Instruction::BitOr { lhs, rhs, out } => Op::Binary {
                operation: BinaryOp::BitOr,
                lhs,
                rhs,
                dst: out,
            },
            Instruction::BitXor { lhs, rhs, out } => Op::Binary {
                operation: BinaryOp::BitXor,
                lhs,
                rhs,
                dst: out,
            },
            Instruction::BitAnd { lhs, rhs, out } => Op::Binary {
                operation: BinaryOp::BitAnd,
                lhs,
                rhs,
                dst: out,
            },
            Instruction::ShiftL { lhs, rhs, out } => Op::Binary {
                operation: BinaryOp::ShiftLeft,
                lhs,
                rhs,
                dst: out,
            },
            Instruction::ShiftR { lhs, rhs, out } => Op::Binary {
                operation: BinaryOp::ShiftRight,
                lhs,
                rhs,
                dst: out,
            },
            Instruction::Invalid => Op::Invalid,
        }
    }
}

/// The meaning of each instruction of a block, in order.
pub open spec fn ops_of<BlockId: View<V = usize>, FunctionId: View<V = Seq<char>>>(
    code: Seq<Instruction<BlockId, FunctionId>>,
) -> Seq<Op> {
    Seq::new(code.len(), |i: int| code[i]@)
}

/// An instruction sorted by the kind of thing it does, with the parts that this
/// kind has.
pub enum Step<'a, BlockId, FunctionId> {
    Load(Number, Register),
    Binary(BinaryOp, Register, Register, Register),
    Call(&'a FunctionId, &'a Vec<Register>, Register),
    LoadArgs(&'a Vec<Register>),
    Jump(Condition, BlockId),
    Ret(Register),
    Invalid,
}

impl<'a, BlockId: View<V = usize>, FunctionId: View<V = Seq<char>>> Step<
    'a,
    BlockId,
    FunctionId,
> {
    /// What the instruction does.
    pub open spec fn op(self) -> Op {
        match self {
            Step::Load(value, dst) => Op::Load { value, dst },
            Step::Binary(operation, lhs, rhs, dst) => Op::Binary { operation, lhs, rhs, dst },
            Step::Call(function, arguments, dst) => Op::Call {
                function: function@,
                arguments: arguments@,
                dst,
            },
            Step::LoadArgs(registers) => Op::LoadArgs { registers: registers@ },
            Step::Jump(condition, to) => Op::Jump { condition, target: to@ as int },
            Step::Ret(src) => Op::Ret { src },
            Step::Invalid => Op::Invalid,
        }
    }
}

/// Sorts an instruction by its kind.
pub fn decode<'a, BlockId: Copy + View<V = usize>, FunctionId: View<V = Seq<char>>>(
    instruction: &'a Instruction<BlockId, FunctionId>,
) -> (step: Step<'a, BlockId, FunctionId>)
    ensures
        step.op() == instruction@,
{
    match instruction {
        Instruction::LoadImmediate(value, dst) => Step::Load(*value, *dst),
        Instruction::Call { function_id, arguments, out } => Step::Call(
            function_id,
            arguments,
            *out,
        ),
        Instruction::Ret(src) => Step::Ret(*src),
        Instruction::LoadArgs(registers) => Step::LoadArgs(registers),
        Instruction::Jump(to) => Step::Jump(Condition::Always, *to),
        Instruction::JEqual { lhs, rhs, to } => Step::Jump(Condition::Equal(*lhs, *rhs), *to),
        Instruction::JNotEqual { lhs, rhs, to } => Step::Jump(
            Condition::NotEqual(*lhs, *rhs),
            *to,
        ),
        Instruction::JNonZero { check, to } => Step::Jump(Condition::NonZero(*check), *to),
        Instruction::JZero { check, to } => Step::Jump(Condition::Zero(*check), *to),
        Instruction::Add { lhs, rhs, out } => Step::Binary(BinaryOp::Add, *lhs, *rhs, *out),
        Instruction::Subtract { lhs, rhs, out } => Step::Binary(
            BinaryOp::Subtract,
            *lhs,
            *rhs,
            *out,
        ),
        Instruction::Multiply { lhs, rhs, out } => Step::Binary(
            BinaryOp::Multiply,
            *lhs,
            *rhs,
            *out,
        ),
        Instruction::Divide { lhs, rhs, out } => Step::Binary(BinaryOp::Divide, *lhs, *rhs, *out),
        Instruction::Modulo { lhs, rhs, out } => Step::Binary(BinaryOp::Modulo, *lhs, *rhs, *out),
        Instruction::BitOr { lhs, rhs, out } => Step::Binary(BinaryOp::BitOr, *lhs, *rhs, *out),
        Instruction::BitXor { lhs, rhs, out } => Step::Binary(BinaryOp::BitXor, *lhs, *rhs, *out),
        Instruction::BitAnd { lhs, rhs, out } => Step::Binary(BinaryOp::BitAnd, *lhs, *rhs, *out),
        Instruction::ShiftL { lhs, rhs, out } => Step::Binary(
            BinaryOp::ShiftLeft,
            *lhs,
            *rhs,
            *out,
        ),
        Instruction::ShiftR { lhs, rhs, out } => Step::Binary(
            BinaryOp::ShiftRight,
            *lhs,
            *rhs,
            *out,
        ),
        Instruction::Invalid => Step::Invalid,
    }
}

/// A copy of a list of registers.
pub fn copy_registers(registers: &Vec<Register>) -> (copy: Vec<Register>)
    ensures
        copy@ == registers@,
{
    let mut copy: Vec<Register> = Vec::new();
    let mut i: usize = 0;
    while i < registers.len()
        invariant
            i <= registers.len(),
            copy@ == registers@.take(i as int),
        decreases registers.len() - i,
    {
        copy.push(registers[i]);
        assert(registers@.take(i + 1) =~= registers@.take(i as int).push(registers@[i as int]));
        i += 1;
    }
    assert(registers@.take(registers@.len() as int) =~= registers@);
    copy
}

impl<BlockId: View<V = usize>, FunctionId: View<V = Seq<char>>> Instruction<BlockId, FunctionId> {
    /// The instruction that applies `operation` to `lhs` and `rhs` and stores
    /// the result in `out`.
    pub fn binary(operation: BinaryOp, lhs: Register, rhs: Register, out: Register) -> (instruction:
        Self)
        ensures
            instruction@ == (Op::Binary { operation, lhs, rhs, dst: out }),
    {
        match operation {
            BinaryOp::Add => Instruction::Add { lhs, rhs, out },
            BinaryOp::Subtract => Instruction::Subtract { lhs, rhs, out },
            BinaryOp::Multiply => Instruction::Multiply { lhs, rhs, out },
            BinaryOp::Divide => Instruction::Divide { lhs, rhs, out },
            BinaryOp::Modulo => Instruction::Modulo { lhs, rhs, out },
            BinaryOp::BitOr => Instruction::BitOr { lhs, rhs, out },
            BinaryOp::BitXor => Instruction::BitXor { lhs, rhs, out },
            BinaryOp::BitAnd => Instruction::BitAnd { lhs, rhs, out },
            BinaryOp::ShiftLeft => Instruction::ShiftL { lhs, rhs, out },
            BinaryOp::ShiftRight => Instruction::ShiftR { lhs, rhs, out },
        }
    }

    /// The instruction that jumps to `to` under `condition`.
    pub fn jump(condition: Condition, to: BlockId) -> (instruction: Self)
        ensures
            instruction@ == (Op::Jump { condition, target: to@ as int }),
    {
        match condition {
            Condition::Always => Instruction::Jump(to),
            Condition::Equal(lhs, rhs) => Instruction::JEqual { lhs, rhs, to },
            Condition::NotEqual(lhs, rhs) => Instruction::JNotEqual { lhs, rhs, to },
            Condition::NonZero(check) => Instruction::JNonZero { check, to },
            Condition::Zero(check) => Instruction::JZero { check, to },
        }
    }
}

/// What an operation becomes when its jump, if it is one, is led to `target`.
pub open spec fn retargeted(op: Op, target: int) -> Op {
    match op {
        Op::Jump { condition, .. } => Op::Jump { condition, target },
        _ => op,
    }
}

/// A copy of an instruction for a program that names its blocks by number; a
/// jump is led to `target`.
pub fn with_target<BlockId: Copy + View<V = usize>>(
    instruction: &Instruction<BlockId, String>,
    target: usize,
) -> (copy: Instruction<usize, String>)
    ensures
        copy@ == retargeted(instruction@, target as int),
{
    match decode(instruction) {
        Step::Load(value, dst) => Instruction::LoadImmediate(value, dst),
        Step::Binary(operation, lhs, rhs, dst) => Instruction::binary(operation, lhs, rhs, dst),
        Step::Call(function, arguments, dst) => Instruction::Call {
            function_id: function.clone(),
            arguments: copy_registers(arguments),
            out: dst,
        },
        Step::LoadArgs(registers) => Instruction::LoadArgs(copy_registers(registers)),
        Step::Jump(condition, _) => Instruction::jump(condition, target),
        Step::Ret(src) => Instruction::Ret(src),
        Step::Invalid => Instruction::Invalid,
    }
}

/// The block that an instruction jumps to, if it is a jump.
pub fn jump_target<BlockId: Copy + View<V = usize>, FunctionId: View<V = Seq<char>>>(
    instruction: &Instruction<BlockId, FunctionId>,
) -> (target: Option<BlockId>)
    ensures
        target is Some <==> instruction@ is Jump,
        target is Some ==> target->0@ as int == instruction@->target,
{
    match decode(instruction) {
        Step::Jump(_, to) => Some(to),
        _ => None,
    }
}

} // verus!
