//! A builder without function scopes: one counter of registers for all the
//! blocks that it builds, and functions registered by name at any time.

use vstd::prelude::*;
use crate::builder::instructions::{Arithmetic, BitWise};
use crate::builder::{Draft, Program};
use crate::ir::{ops_of, Instruction, Number, Register};
use crate::model::Op;
use crate::program::BlockID;

verus! {

/// A builder at work, as its contracts see it.
pub ghost struct BuilderDraft {
    /// The number that the next register will have.
    pub used_registers: int,
    /// The builder's build session.
    pub session: int,
    /// The program that is being built.
    pub program: Draft,
}

/// Builds a program out of blocks that share one counter of registers.
pub struct Builder {
    used_registers: usize,
    program: Program,
    session: usize,
}

impl View for Builder {
    type V = BuilderDraft;

    closed spec fn view(&self) -> BuilderDraft {
        BuilderDraft {
            used_registers: self.used_registers as int,
            session: self.session as int,
            program: self.program@,
        }
    }
}

impl Builder {
    /// Takes up a program again, in its latest build session, with registers
    /// numbered from `previous_used_registers` on: the number that
    /// `used_registers` gave before the program was handed out. A program
    /// without a session gets its first.
    pub fn from_program(program: Program, previous_used_registers: usize) -> (builder: Builder)
        ensures
            builder@ == (BuilderDraft {
                used_registers: previous_used_registers as int,
                session: if program@.limits.len() > 0 {
                    program@.limits.len() - 1
                } else {
                    0
                },
                program: if program@.limits.len() > 0 {
                    program@
                } else {
                    program@.open_session()
                },
            }),
    {
        let mut program = program;
        let session = program.latest_session();
        Builder { used_registers: previous_used_registers, program, session }
    }

    /// The number that the next register will have.
    pub fn used_registers(&self) -> (used: usize)
        ensures
            used == self@.used_registers,
    {
        self.used_registers
    }

    /// Registers a function: pairs a name with an entry block.
    pub fn register_function(&mut self, block: BlockID, name: String)
        ensures
            final(self)@ == (BuilderDraft {
                program: old(self)@.program.with_function(name@, block@ as int),
                ..old(self)@
            }),
    {
        self.program.register_function(name, block);
    }

    /// Hands out the program as built so far.
    pub fn finalize(self) -> (program: Program)
        ensures
            program@ == self@.program,
    {
        self.program
    }

    /// A builder of a new program, in the program's first build session, with
    /// registers numbered from 0 on.
    pub fn new() -> (builder: Builder)
        ensures
            builder@ == (BuilderDraft {
                used_registers: 0,
                session: 0,
                program: Draft::empty().open_session(),
            }),
    {
        Builder::from_program(Program::new(), 0)
    }

    /// Adds a block to the program's arena and hands out its handle.
    pub(crate) fn add_block(&mut self, block: Vec<Instruction<BlockID, String>>) -> (id: BlockID)
        ensures
            id@ == old(self)@.program.blocks.len(),
            final(self)@ == (BuilderDraft {
                program: old(self)@.program.with_block(
                    ops_of(block@),
                    old(self)@.session,
                    old(self)@.used_registers,
                ),
                ..old(self)@
            }),
    {
        self.program.register_block(block, self.session, self.used_registers)
    }

    /// Allocates the next register: each has the number after the one before.
    #[must_use]
    pub fn allocate_register(&mut self) -> (register: Register)
        requires
            old(self)@.used_registers < usize::MAX,
        ensures
            register.0 == old(self)@.used_registers,
            final(self)@ == (BuilderDraft {
                used_registers: old(self)@.used_registers + 1,
                ..old(self)@
            }),
    {
        let register = Register(self.used_registers);
        self.used_registers += 1;
        register
    }

    /// Starts an empty block.
    pub fn build_block(self) -> (block: BlockBuilder)
        ensures
            block@ == (BlockBuilderDraft { code: Seq::empty(), builder: self@ }),
    {
        let block = BlockBuilder { instructions: Vec::new(), builder: self };
        assert(block@.code =~= Seq::empty());
        block
    }
}

impl Default for Builder {
    fn default() -> (builder: Builder)
        ensures
            builder@ == (BuilderDraft {
                used_registers: 0,
                session: 0,
                program: Draft::empty().open_session(),
            }),
    {
        Builder::new()
    }
}

/// A block that a [`Builder`] is building, as its contracts see it.
pub ghost struct BlockBuilderDraft {
    /// The operations added so far.
    pub code: Seq<Op>,
    /// The builder that the block belongs to.
    pub builder: BuilderDraft,
}

impl BlockBuilderDraft {
    /// The draft after `op` was added at the end.
    pub open spec fn with(self, op: Op) -> BlockBuilderDraft {
        BlockBuilderDraft { code: self.code.push(op), ..self }
    }

    /// The draft after a register was allocated.
    pub open spec fn allocating(self) -> BlockBuilderDraft {
        BlockBuilderDraft {
            builder: BuilderDraft {
                used_registers: self.builder.used_registers + 1,
                ..self.builder
            },
            ..self
        }
    }
}

/// A block under construction, with the builder that it belongs to.
pub struct BlockBuilder {
    instructions: Vec<Instruction<BlockID, String>>,
    builder: Builder,
}

impl View for BlockBuilder {
    type V = BlockBuilderDraft;

    closed spec fn view(&self) -> BlockBuilderDraft {
        BlockBuilderDraft { code: ops_of(self.instructions@), builder: self.builder@ }
    }
}

impl BlockBuilder {
    /// Adds an instruction at the end.
    fn add(&mut self, instruction: Instruction<BlockID, String>)
        ensures
            final(self)@ == old(self)@.with(instruction@),
    {
        self.instructions.push(instruction);
        assert(self@.code =~= old(self)@.code.push(instruction@));
    }

    /// Allocates the next register of the block's builder.
    fn allocate(&mut self) -> (register: Register)
        requires
            old(self)@.builder.used_registers < usize::MAX,
        ensures
            register.0 == old(self)@.builder.used_registers,
            final(self)@ == old(self)@.allocating(),
    {
        self.builder.allocate_register()
    }

    /// Adds the block to the program's arena and hands out its handle, with
    /// the builder that owns the block.
    pub fn finalize(self) -> (finalized: (BlockID, Builder))
        ensures
            finalized.0@ == self@.builder.program.blocks.len(),
            finalized.1@ == (BuilderDraft {
                program: self@.builder.program.with_block(
                    self@.code,
                    self@.builder.session,
                    self@.builder.used_registers,
                ),
                ..self@.builder
            }),
    {
        let BlockBuilder { instructions, mut builder } = self;
        let id = builder.add_block(instructions);
        (id, builder)
    }

    /// Adds a load of the constant `imm` into a new register, and returns that
    /// register.
    pub fn add_immediate(&mut self, imm: Number) -> (register: Register)
        requires
            old(self)@.builder.used_registers < usize::MAX,
        ensures
            register.0 == old(self)@.builder.used_registers,
            final(self)@ == old(self)@.allocating().with(Op::Load { value: imm, dst: register }),
    {
        let register = self.allocate();
        self.add(Instruction::LoadImmediate(imm, register));
        register
    }

    /// Adds a return of the value of `reg`.
    pub fn add_ret(&mut self, reg: Register)
        ensures
            final(self)@ == old(self)@.with(Op::Ret { src: reg }),
    {
        self.add(Instruction::Ret(reg));
    }

    /// Adds an arithmetic operation on `lhs` and `rhs` into a new register, and
    /// returns that register.
    pub fn add_arithmetic(&mut self, operation: Arithmetic, lhs: Register, rhs: Register) -> (out:
        Register)
        requires
            old(self)@.builder.used_registers < usize::MAX,
        ensures
            out.0 == old(self)@.builder.used_registers,
            final(self)@ == old(self)@.allocating().with(
                Op::Binary { operation: operation.operation(), lhs, rhs, dst: out },
            ),
    {
        let out = self.allocate();
        self.add(operation.instruction(lhs, rhs, out));
        out
    }

    /// Adds a bitwise operation on `lhs` and `rhs` into a new register, and
    /// returns that register.
    pub fn add_bitwise(&mut self, operation: BitWise, lhs: Register, rhs: Register) -> (out:
        Register)
        requires
            old(self)@.builder.used_registers < usize::MAX,
        ensures
            out.0 == old(self)@.builder.used_registers,
            final(self)@ == old(self)@.allocating().with(
                Op::Binary { operation: operation.operation(), lhs, rhs, dst: out },
            ),
    {
        let out = self.allocate();
        self.add(operation.instruction(lhs, rhs, out));
        out
    }

    /// Adds a call of the function `name` on the values of `arguments`, into a
    /// new register, and returns that register.
    pub fn add_fn_call(&mut self, name: String, arguments: Vec<Register>) -> (register: Register)
        requires
            old(self)@.builder.used_registers < usize::MAX,
        ensures
            register.0 == old(self)@.builder.used_registers,
            final(self)@ == old(self)@.allocating().with(
                Op::Call { function: name@, arguments: arguments@, dst: register },
            ),
    {
        let register = self.allocate();
        self.add(Instruction::Call { function_id: name, arguments, out: register });
        register
    }
}

} // verus!
