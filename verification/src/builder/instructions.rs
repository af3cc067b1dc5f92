//! The choices that the builders' `add_*` functions take.

use vstd::prelude::*;
use crate::ir::{Instruction, Register};
use crate::model::{BinaryOp, Condition, Op};
use crate::program::BlockID;

verus! {

/// An arithmetic operation on two numbers.
#[derive(Debug, Clone, Copy, PartialEq, Eq)]
pub enum Arithmetic {
    Add,
    Subtract,
    Multiply,
    Divide,
    Mod,
}

/// A bitwise operation on two numbers.
#[derive(Debug, Clone, Copy, PartialEq, Eq)]
pub enum BitWise {
    Or,
    Xor,
    And,
    ShiftLeft,
    ShiftRight,
}

/// When a jump is taken, with the registers that decide it.
#[derive(Debug, Clone, Copy, PartialEq, Eq)]
pub enum Jump {
    Unconditional,
    Equal(Register, Register),
    NotEqual(Register, Register),
    NonZero(Register),
    Zero(Register),
}

impl Arithmetic {
    /// The operation that the choice stands for.
    pub open spec fn operation(self) -> BinaryOp {
        match self {
            Arithmetic::Add => BinaryOp::Add,
            Arithmetic::Subtract => BinaryOp::Subtract,
            Arithmetic::Multiply => BinaryOp::Multiply,
            Arithmetic::Divide => BinaryOp::Divide,
            Arithmetic::Mod => BinaryOp::Modulo,
        }
    }

    /// The instruction that applies the operation to `lhs` and `rhs` and stores
    /// the result in `out`.
    pub fn instruction(self, lhs: Register, rhs: Register, out: Register) -> (instruction:
        Instruction<BlockID, String>)
        ensures
            instruction@ == (Op::Binary { operation: self.operation(), lhs, rhs, dst: out }),
    {
        match self {
            Arithmetic::Add => Instruction::Add { lhs, rhs, out },
            Arithmetic::Subtract => Instruction::Subtract { lhs, rhs, out },
            Arithmetic::Multiply => Instruction::Multiply { lhs, rhs, out },
            Arithmetic::Divide => Instruction::Divide { lhs, rhs, out },
            Arithmetic::Mod => Instruction::Modulo { lhs, rhs, out },
        }
    }
}

impl BitWise {
    /// The operation that the choice stands for.
    pub open spec fn operation(self) -> BinaryOp {
        match self {
            BitWise::Or => BinaryOp::BitOr,
            BitWise::Xor => BinaryOp::BitXor,
            BitWise::And => BinaryOp::BitAnd,
            BitWise::ShiftLeft => BinaryOp::ShiftLeft,
            BitWise::ShiftRight => BinaryOp::ShiftRight,
        }
    }

    /// The instruction that applies the operation to `lhs` and `rhs` and stores
    /// the result in `out`.
    pub fn instruction(self, lhs: Register, rhs: Register, out: Register) -> (instruction:
        Instruction<BlockID, String>)
        ensures
            instruction@ == (Op::Binary { operation: self.operation(), lhs, rhs, dst: out }),
    {
        match self {
            BitWise::Or => Instruction::BitOr { lhs, rhs, out },
            BitWise::Xor => Instruction::BitXor { lhs, rhs, out },
            BitWise::And => Instruction::BitAnd { lhs, rhs, out },
            BitWise::ShiftLeft => Instruction::ShiftL { lhs, rhs, out },
            BitWise::ShiftRight => Instruction::ShiftR { lhs, rhs, out },
        }
    }
}

impl Jump {
    /// The condition that the choice stands for.
    pub open spec fn condition(self) -> Condition {
        match self {
            Jump::Unconditional => Condition::Always,
            Jump::Equal(lhs, rhs) => Condition::Equal(lhs, rhs),
            Jump::NotEqual(lhs, rhs) => Condition::NotEqual(lhs, rhs),
            Jump::NonZero(check) => Condition::NonZero(check),
            Jump::Zero(check) => Condition::Zero(check),
        }
    }

    /// The instruction that jumps to `to` under the condition.
    pub fn instruction(self, to: BlockID) -> (instruction: Instruction<BlockID, String>)
        ensures
            instruction@ == (Op::Jump { condition: self.condition(), target: to@ as int }),
    {
        match self {
            Jump::Unconditional => Instruction::Jump(to),
            Jump::Equal(lhs, rhs) => Instruction::JEqual { lhs, rhs, to },
            Jump::NotEqual(lhs, rhs) => Instruction::JNotEqual { lhs, rhs, to },
            Jump::NonZero(check) => Instruction::JNonZero { check, to },
            Jump::Zero(check) => Instruction::JZero { check, to },
        }
    }
}

} // verus!
