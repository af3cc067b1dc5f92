//! The mathematical model of a program: what its instructions do, which blocks
//! and functions it holds, and when it is well formed.

use vstd::prelude::*;
use crate::ir::Register;

verus! {

/// An operation on two numbers.
#[derive(Debug, Clone, Copy, PartialEq, Eq, Structural)]
pub enum BinaryOp {
    Add,
    Subtract,
    Multiply,
    Divide,
    Modulo,
    BitOr,
    BitXor,
    BitAnd,
    ShiftLeft,
    ShiftRight,
}

/// When a jump is taken.
#[derive(Debug, Clone, Copy)]
pub enum Condition {
    Always,
    Equal(Register, Register),
    NotEqual(Register, Register),
    NonZero(Register),
    Zero(Register),
}

/// What one instruction does. Blocks are named by their index, functions by
/// their name.
pub enum Op {
    Load { value: isize, dst: Register },
    Binary { operation: BinaryOp, lhs: Register, rhs: Register, dst: Register },
    Call { function: Seq<char>, arguments: Seq<Register>, dst: Register },
    LoadArgs { registers: Seq<Register> },
    Jump { condition: Condition, target: int },
    Ret { src: Register },
    Invalid,
}

impl Condition {
    /// Whether the condition reads `register`.
    pub open spec fn reads(self, register: Register) -> bool {
        match self {
            Condition::Always => false,
            Condition::Equal(lhs, rhs) => lhs == register || rhs == register,
            Condition::NotEqual(lhs, rhs) => lhs == register || rhs == register,
            Condition::NonZero(check) => check == register,
            Condition::Zero(check) => check == register,
        }
    }
}

impl Op {
    /// Whether the operation uses the value of `register`.
    pub open spec fn reads(self, register: Register) -> bool {
        match self {
            Op::Load { .. } => false,
            Op::Binary { lhs, rhs, .. } => lhs == register || rhs == register,
            Op::Call { arguments, .. } => arguments.contains(register),
            Op::LoadArgs { .. } => false,
            Op::Jump { condition, .. } => condition.reads(register),
            Op::Ret { src } => src == register,
            Op::Invalid => false,
        }
    }

    /// Whether the operation assigns to `register`.
    pub open spec fn writes(self, register: Register) -> bool {
        match self {
            Op::Load { dst, .. } => dst == register,
            Op::Binary { dst, .. } => dst == register,
            Op::Call { dst, .. } => dst == register,
            Op::LoadArgs { registers } => registers.contains(register),
            Op::Jump { .. } => false,
            Op::Ret { .. } => false,
            Op::Invalid => false,
        }
    }

    /// The registers that the operation assigns to, in the order in which it
    /// does.
    pub open spec fn written(self) -> Seq<Register> {
        match self {
            Op::Load { dst, .. } => seq![dst],
            Op::Binary { dst, .. } => seq![dst],
            Op::Call { dst, .. } => seq![dst],
            Op::LoadArgs { registers } => registers,
            Op::Jump { .. } => Seq::empty(),
            Op::Ret { .. } => Seq::empty(),
            Op::Invalid => Seq::empty(),
        }
    }

    /// The registers that the operation assigns to are those that it writes.
    pub proof fn lemma_written(self, register: Register)
        ensures
            self.written().contains(register) == self.writes(register),
    {
        match self {
            Op::Load { dst, .. } => {
                assert(seq![dst][0] == dst);
            },
            Op::Binary { dst, .. } => {
                assert(seq![dst][0] == dst);
            },
            Op::Call { dst, .. } => {
                assert(seq![dst][0] == dst);
            },
            _ => {},
        }
    }

    /// Every register that the operation reads or writes has an index below
    /// `limit`.
    pub open spec fn within(self, limit: int) -> bool {
        forall|register: Register|
            self.reads(register) || self.writes(register) ==> register.0 < limit
    }

    /// The registers of the operation, kind by kind: what `within` asks of each.
    pub open spec fn registers_below(self, limit: int) -> bool {
        match self {
            Op::Load { dst, .. } => dst.0 < limit,
            Op::Binary { lhs, rhs, dst, .. } => lhs.0 < limit && rhs.0 < limit && dst.0 < limit,
            Op::Call { arguments, dst, .. } => dst.0 < limit && forall|i: int|
                0 <= i < arguments.len() ==> (#[trigger] arguments[i]).0 < limit,
            Op::LoadArgs { registers } => forall|i: int|
                0 <= i < registers.len() ==> (#[trigger] registers[i]).0 < limit,
            Op::Jump { condition, .. } => match condition {
                Condition::Always => true,
                Condition::Equal(lhs, rhs) => lhs.0 < limit && rhs.0 < limit,
                Condition::NotEqual(lhs, rhs) => lhs.0 < limit && rhs.0 < limit,
                Condition::NonZero(check) => check.0 < limit,
                Condition::Zero(check) => check.0 < limit,
            },
            Op::Ret { src } => src.0 < limit,
            Op::Invalid => true,
        }
    }

    /// `within` holds exactly when each register of the operation is below the
    /// limit.
    pub proof fn lemma_within(self, limit: int)
        ensures
            self.within(limit) <==> self.registers_below(limit),
    {
        match self {
            Op::Load { dst, .. } => {
                assert(self.writes(dst));
            },
            Op::Binary { lhs, rhs, dst, .. } => {
                assert(self.reads(lhs));
                assert(self.reads(rhs));
                assert(self.writes(dst));
            },
            Op::Call { arguments, dst, .. } => {
                assert(self.writes(dst));
                if self.within(limit) {
                    assert forall|i: int| 0 <= i < arguments.len() implies (#[trigger] arguments[i]).0
                        < limit by {
                        assert(self.reads(arguments[i]));
                    }
                }
            },
            Op::LoadArgs { registers } => {
                if self.within(limit) {
                    assert forall|i: int| 0 <= i < registers.len() implies (#[trigger] registers[i]).0
                        < limit by {
                        assert(self.writes(registers[i]));
                    }
                }
            },
            Op::Jump { condition, .. } => {
                match condition {
                    Condition::Always => {},
                    Condition::Equal(lhs, rhs) => {
                        assert(self.reads(lhs));
                        assert(self.reads(rhs));
                    },
                    Condition::NotEqual(lhs, rhs) => {
                        assert(self.reads(lhs));
                        assert(self.reads(rhs));
                    },
                    Condition::NonZero(check) => {
                        assert(self.reads(check));
                    },
                    Condition::Zero(check) => {
                        assert(self.reads(check));
                    },
                }
            },
            Op::Ret { src } => {
                assert(self.reads(src));
            },
            Op::Invalid => {},
        }
    }

    /// An operation that always leaves its block: a return or an unconditional
    /// jump.
    pub open spec fn is_terminal(self) -> bool {
        match self {
            Op::Ret { .. } => true,
            Op::Jump { condition: Condition::Always, .. } => true,
            _ => false,
        }
    }

    /// An operation whose only effect is the value it stores in one register:
    /// a constant load, arithmetic, a bitwise operation.
    pub open spec fn is_pure(self) -> bool {
        self is Load || self is Binary
    }
}

/// A block that cannot run off its end: it has a last operation, and that one
/// is terminal.
pub open spec fn closed(block: Seq<Op>) -> bool {
    block.len() > 0 && block.last().is_terminal()
}

/// A program: the entry block of each function, and the operations of each
/// block.
pub ghost struct ProgramModel {
    pub entries: Map<Seq<char>, int>,
    pub blocks: Map<int, Seq<Op>>,
}

impl ProgramModel {
    /// What the program admits at block `block`: no `Invalid`, register
    /// indices that leave room for a register file of their size, and jumps
    /// that lead to an earlier block of the program.
    pub open spec fn admits(self, block: int, op: Op) -> bool {
        &&& !(op is Invalid)
        &&& op.within(usize::MAX as int)
        &&& op is Jump ==> 0 <= op->target < block && self.blocks.contains_key(op->target)
    }

    /// Block `block` is closed and the program admits each of its operations.
    pub open spec fn block_wf(self, block: int) -> bool {
        &&& 0 <= block
        &&& closed(self.blocks[block])
        &&& forall|i: int|
            0 <= i < self.blocks[block].len() ==> self.admits(block, #[trigger] self.blocks[block][i])
    }

    /// The program is well formed: every function enters at a block of the
    /// program, and every block is well formed.
    pub open spec fn wf(self) -> bool {
        &&& forall|name: Seq<char>| #[trigger]
            self.entries.contains_key(name) ==> self.blocks.contains_key(self.entries[name])
        &&& forall|block: int| #[trigger] self.blocks.contains_key(block) ==> self.block_wf(block)
    }
}

} // verus!
