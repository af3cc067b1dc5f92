//! Builders that assemble a program block by block.
//!
//! A [`Program`] under construction hands itself to a [`Function`], which
//! hands itself to a [`Block`]; finalizing each hands its owner back. Blocks
//! are built bottom up: a jump can only lead to a block that was finalized
//! before, in the same function. Registers are assigned to once: every
//! instruction that stores a result allocates the register that it stores it
//! in. Nothing is refused while building; [`Program::finalize`] checks the
//! whole program and rejects what breaks a rule.

pub mod instructions;
pub mod plain;

use vstd::prelude::*;
use crate::error::Error;
use crate::ir::{copy_registers, decode, ops_of, Instruction, Number, Register, Step};
use crate::model::{closed, Condition, Op, ProgramModel};
use crate::program::{BasicProgram, BlockID, Program as Runnable};
use crate::table::{entries_of, FunctionTable};
use self::instructions::{Arithmetic, BitWise, Jump};

pub use self::plain::{BlockBuilder, Builder};

verus! {

/// The registers that the first `count` operations of a block assign to, in
/// order.
pub open spec fn block_writes(ops: Seq<Op>, count: int) -> Seq<Register>
    decreases count,
{
    if count <= 0 {
        Seq::empty()
    } else {
        block_writes(ops, count - 1) + ops[count - 1].written()
    }
}

/// A sequence with one more element has no duplicates if and only if it had
/// none and did not hold the element.
pub proof fn lemma_push_no_duplicates(registers: Seq<Register>, register: Register)
    ensures
        registers.push(register).no_duplicates() == (registers.no_duplicates()
            && !registers.contains(register)),
{
    let longer = registers.push(register);
    if registers.no_duplicates() && !registers.contains(register) {
        assert forall|i: int, j: int|
            0 <= i < longer.len() && 0 <= j < longer.len() && i != j implies longer[i]
            != longer[j] by {
            if i < registers.len() && j < registers.len() {
                assert(registers[i] != registers[j]);
            } else if i < registers.len() {
                assert(registers.contains(registers[i]));
            } else {
                assert(registers.contains(registers[j]));
            }
        }
    }
    if longer.no_duplicates() {
        assert forall|i: int, j: int|
            0 <= i < registers.len() && 0 <= j < registers.len() && i != j implies registers[i]
            != registers[j] by {
            assert(longer[i] != longer[j]);
        }
        if registers.contains(register) {
            let i = choose|i: int| 0 <= i < registers.len() && registers[i] == register;
            assert(longer[i] == longer[registers.len() as int]);
        }
    }
}

/// A program under construction, as the builders' contracts see it.
pub ghost struct Draft {
    /// The operations of each finalized block.
    pub blocks: Seq<Seq<Op>>,
    /// The build session that finalized each block.
    pub sessions: Seq<int>,
    /// The number of registers that each build session has allocated.
    pub limits: Seq<int>,
    /// The functions registered so far, each with its entry block.
    pub registrations: Seq<(Seq<char>, int)>,
}

impl Draft {
    /// The draft of a program that nothing was added to.
    pub open spec fn empty() -> Draft {
        Draft {
            blocks: Seq::empty(),
            sessions: Seq::empty(),
            limits: Seq::empty(),
            registrations: Seq::empty(),
        }
    }

    /// The number of registers allocated by the session that built `block`.
    pub open spec fn limit_of(self, block: int) -> int {
        self.limits[self.sessions[block]]
    }

    /// What a valid program admits at block `block`: no `Invalid`, only
    /// registers that the block's session allocated, and jumps that lead to an
    /// earlier block of the same session.
    pub open spec fn admits(self, block: int, op: Op) -> bool {
        &&& !(op is Invalid)
        &&& op.within(self.limit_of(block))
        &&& op is Jump ==> 0 <= op->target < block && self.sessions[op->target]
            == self.sessions[block]
    }

    /// Block `block` was built by a session of the program, cannot run off its
    /// end, and holds only operations that the program admits.
    pub open spec fn block_valid(self, block: int) -> bool {
        &&& 0 <= self.sessions[block] < self.limits.len()
        &&& closed(self.blocks[block])
        &&& forall|i: int|
            0 <= i < self.blocks[block].len() ==> self.admits(block, #[trigger] self.blocks[block][i])
    }

    /// The registers that the first `count` blocks assign to in build session
    /// `session`, in the order of the blocks and of their operations.
    pub open spec fn session_writes(self, session: int, count: int) -> Seq<Register>
        decreases count,
    {
        if count <= 0 {
            Seq::empty()
        } else if self.sessions[count - 1] == session {
            self.session_writes(session, count - 1) + block_writes(
                self.blocks[count - 1],
                self.blocks[count - 1].len() as int,
            )
        } else {
            self.session_writes(session, count - 1)
        }
    }

    /// No register is assigned to twice in one build session.
    pub open spec fn single_assignment(self) -> bool {
        forall|session: int|
            0 <= session < self.limits.len() ==> (#[trigger] self.session_writes(
                session,
                self.blocks.len() as int,
            )).no_duplicates()
    }

    /// Every block has a session and is valid, no register is assigned to
    /// twice in one session, and every registration names a block.
    pub open spec fn valid(self) -> bool {
        &&& self.sessions.len() == self.blocks.len()
        &&& forall|block: int| 0 <= block < self.blocks.len() ==> #[trigger] self.block_valid(block)
        &&& self.single_assignment()
        &&& forall|i: int|
            0 <= i < self.registrations.len() ==> 0 <= (#[trigger] self.registrations[i]).1
                < self.blocks.len()
    }

    /// The program that the draft stands for.
    pub open spec fn model(self) -> ProgramModel {
        ProgramModel {
            entries: entries_of(self.registrations),
            blocks: Map::new(
                |block: int| 0 <= block < self.blocks.len(),
                |block: int| self.blocks[block],
            ),
        }
    }

    /// The draft after a session was opened: no register allocated in it yet.
    pub open spec fn open_session(self) -> Draft {
        Draft { limits: self.limits.push(0), ..self }
    }

    /// The draft after session `session`, whose next register has the number
    /// `used`, finalized a block: the session has allocated `used` registers,
    /// if it had not allocated more before.
    pub open spec fn with_block(self, code: Seq<Op>, session: int, used: int) -> Draft {
        Draft {
            blocks: self.blocks.push(code),
            sessions: self.sessions.push(session),
            limits: if 0 <= session < self.limits.len() && self.limits[session] < used {
                self.limits.update(session, used)
            } else {
                self.limits
            },
            ..self
        }
    }

    /// The draft after a function was registered.
    pub open spec fn with_function(self, name: Seq<char>, entry: int) -> Draft {
        Draft { registrations: self.registrations.push((name, entry)), ..self }
    }

    /// A valid draft stands for a well-formed program, if its limits are
    /// numbers that a register index can have.
    pub proof fn lemma_valid_is_wf(self)
        requires
            self.valid(),
            forall|session: int|
                0 <= session < self.limits.len() ==> (#[trigger] self.limits[session])
                    <= usize::MAX,
        ensures
            self.model().wf(),
    {
        let model = self.model();
        assert forall|name: Seq<char>| #[trigger]
            model.entries.contains_key(name) implies model.blocks.contains_key(
            model.entries[name],
        ) by {
            crate::table::lemma_entry_map(self.registrations, self.registrations.len(), name);
            crate::table::lemma_entry_values(self.registrations, self.registrations.len(), name);
        }
        assert forall|block: int| #[trigger] model.blocks.contains_key(block) implies model.block_wf(
            block,
        ) by {
            assert(self.block_valid(block));
            assert forall|i: int| 0 <= i < model.blocks[block].len() implies model.admits(
                block,
                #[trigger] model.blocks[block][i],
            ) by {
                assert(self.admits(block, self.blocks[block][i]));
            }
        }
    }
}

/// Whether every register of the list has an index below `limit`.
fn registers_below(registers: &Vec<Register>, limit: usize) -> (all: bool)
    ensures
        all <==> forall|i: int| 0 <= i < registers@.len() ==> (#[trigger] registers@[i]).0 < limit,
{
    let mut i: usize = 0;
    while i < registers.len()
        invariant
            i <= registers.len(),
            forall|j: int| 0 <= j < i ==> (#[trigger] registers@[j]).0 < limit,
        decreases registers.len() - i,
    {
        if registers[i].0 >= limit {
            return false;
        }
        i += 1;
    }
    true
}

/// The registers that an instruction assigns to, in the order in which it
/// does.
fn written_registers(instruction: &Instruction<BlockID, String>) -> (registers: Vec<Register>)
    ensures
        registers@ == instruction@.written(),
{
    let mut registers: Vec<Register> = Vec::new();
    match decode(instruction) {
        Step::Load(_, dst) => {
            registers.push(dst);
        },
        Step::Binary(_, _, _, dst) => {
            registers.push(dst);
        },
        Step::Call(_, _, dst) => {
            registers.push(dst);
        },
        Step::LoadArgs(targets) => {
            registers = copy_registers(targets);
        },
        _ => {},
    }
    assert(registers@ =~= instruction@.written());
    registers
}

/// Whether every register of the condition has an index below `limit`.
fn condition_below(condition: Condition, limit: usize) -> (all: bool)
    ensures
        all <==> (Op::Jump { condition, target: 0 }).registers_below(limit as int),
{
    match condition {
        Condition::Always => true,
        Condition::Equal(lhs, rhs) => lhs.0 < limit && rhs.0 < limit,
        Condition::NotEqual(lhs, rhs) => lhs.0 < limit && rhs.0 < limit,
        Condition::NonZero(check) => check.0 < limit,
        Condition::Zero(check) => check.0 < limit,
    }
}

/// A program under construction: the arena of finalized blocks, the build
/// session of each, the registers that each session allocated, and the
/// functions registered so far.
pub struct Program {
    blocks: Vec<Vec<Instruction<BlockID, String>>>,
    sessions: Vec<usize>,
    limits: Vec<usize>,
    functions: FunctionTable,
}

impl View for Program {
    type V = Draft;

    closed spec fn view(&self) -> Draft {
        Draft {
            blocks: Seq::new(self.blocks@.len(), |block: int| ops_of(self.blocks@[block]@)),
            sessions: Seq::new(self.sessions@.len(), |block: int| self.sessions@[block] as int),
            limits: Seq::new(self.limits@.len(), |session: int| self.limits@[session] as int),
            registrations: self.functions@,
        }
    }
}

impl Program {
    /// A program with no block and no function.
    pub fn new() -> (program: Program)
        ensures
            program@ == Draft::empty(),
    {
        let program = Program {
            blocks: Vec::new(),
            sessions: Vec::new(),
            limits: Vec::new(),
            functions: FunctionTable::new(),
        };
        assert(program@.blocks =~= Seq::empty());
        assert(program@.sessions =~= Seq::empty());
        assert(program@.limits =~= Seq::empty());
        program
    }

    /// Opens a build session and hands out its number.
    pub(crate) fn open_session(&mut self) -> (session: usize)
        ensures
            session == old(self)@.limits.len(),
            final(self)@ == old(self)@.open_session(),
    {
        let session = self.limits.len();
        self.limits.push(0);
        assert(self@.limits =~= old(self)@.limits.push(0));
        session
    }

    /// The number of the latest build session; opens one if there is none.
    pub(crate) fn latest_session(&mut self) -> (session: usize)
        ensures
            old(self)@.limits.len() > 0 ==> session == old(self)@.limits.len() - 1 && final(self)@
                == old(self)@,
            old(self)@.limits.len() == 0 ==> session == 0 && final(self)@
                == old(self)@.open_session(),
    {
        if self.limits.len() == 0 {
            self.open_session()
        } else {
            self.limits.len() - 1
        }
    }

    /// Opens a build session for a function of the given name.
    pub fn make_fn(self, function_name: String) -> (function: Function)
        ensures
            function@ == (FunctionDraft {
                name: function_name@,
                used_registers: 0,
                session: self@.limits.len() as int,
                program: self@.open_session(),
            }),
    {
        let mut program = self;
        let session = program.open_session();
        Function { used_registers: 0, program, name: function_name, session }
    }

    /// Adds a block that session `session` built when it had allocated `used`
    /// registers, and hands out the block's handle.
    pub(crate) fn register_block(
        &mut self,
        block: Vec<Instruction<BlockID, String>>,
        session: usize,
        used: usize,
    ) -> (id: BlockID)
        ensures
            id@ == old(self)@.blocks.len(),
            final(self)@ == old(self)@.with_block(ops_of(block@), session as int, used as int),
    {
        let id = BlockID::new(self.blocks.len());
        self.blocks.push(block);
        self.sessions.push(session);
        if session < self.limits.len() && self.limits[session] < used {
            self.limits.set(session, used);
        }
        proof {
            let after = old(self)@.with_block(ops_of(block@), session as int, used as int);
            assert(self@.blocks =~= after.blocks);
            assert(self@.sessions =~= after.sessions);
            assert(self@.limits =~= after.limits);
        }
        id
    }

    /// Registers a function: pairs a name with an entry block.
    pub(crate) fn register_function(&mut self, name: String, entry: BlockID)
        ensures
            final(self)@ == old(self)@.with_function(name@, entry@ as int),
    {
        self.functions.register(name, entry.index());
    }

    /// The entry block registered for `name`, if any.
    pub fn lookup_function(&self, name: &str) -> (found: Option<BlockID>)
        ensures
            found is Some <==> entries_of(self@.registrations).contains_key(name@),
            found is Some ==> found->0@ as int == entries_of(self@.registrations)[name@],
    {
        match self.functions.lookup(&name.to_owned()) {
            Some(index) => Some(BlockID::new(index)),
            None => None,
        }
    }

    /// The instructions of a finalized block.
    pub fn get_block(&self, block: BlockID) -> (code: &Vec<Instruction<BlockID, String>>)
        requires
            block@ < self@.blocks.len(),
        ensures
            ops_of(code@) == self@.blocks[block@ as int],
    {
        &self.blocks[block.index()]
    }

    /// Whether the program admits an instruction at block `block`, whose
    /// session has allocated `limit` registers.
    fn admits(&self, block: usize, limit: usize, instruction: &Instruction<BlockID, String>) -> (ok:
        bool)
        requires
            block < self@.blocks.len(),
            self@.sessions.len() == self@.blocks.len(),
            limit == self@.limit_of(block as int),
        ensures
            ok == self@.admits(block as int, instruction@),
    {
        proof {
            instruction@.lemma_within(limit as int);
        }
        match decode(instruction) {
            Step::Load(_, dst) => dst.0 < limit,
            Step::Binary(_, lhs, rhs, dst) => lhs.0 < limit && rhs.0 < limit && dst.0 < limit,
            Step::Call(_, arguments, dst) => {
                let below = registers_below(arguments, limit);
                assert(instruction@->Call_arguments == arguments@);
                assert(instruction@.registers_below(limit as int) == (dst.0 < limit && below));
                dst.0 < limit && below
            },
            Step::LoadArgs(registers) => {
                let below = registers_below(registers, limit);
                assert(instruction@->LoadArgs_registers == registers@);
                assert(instruction@.registers_below(limit as int) == below);
                below
            },
            Step::Jump(condition, to) => {
                let target = to.index();
                assert(instruction@.registers_below(limit as int) == (Op::Jump {
                    condition,
                    target: 0,
                }).registers_below(limit as int));
                condition_below(condition, limit) && target < block && self.sessions[target]
                    == self.sessions[block]
            },
            Step::Ret(src) => src.0 < limit,
            Step::Invalid => false,
        }
    }

    /// Whether no register is assigned to twice in build session `session`.
    fn session_assigns_once(&self, session: usize) -> (ok: bool)
        requires
            session < self@.limits.len(),
            self@.sessions.len() == self@.blocks.len(),
            forall|block: int| 0 <= block < self@.blocks.len() ==> #[trigger] self@.block_valid(block),
        ensures
            ok == self@.session_writes(session as int, self@.blocks.len() as int).no_duplicates(),
    {
        let limit = self.limits[session];
        let mut seen: Vec<bool> = Vec::new();
        let mut filled: usize = 0;
        while filled < limit
            invariant
                filled <= limit,
                seen@.len() == filled,
                forall|r: int| 0 <= r < filled ==> !seen@[r],
            decreases limit - filled,
        {
            seen.push(false);
            filled += 1;
        }
        let mut ok = true;
        let ghost mut writes: Seq<Register> = Seq::empty();
        let mut block: usize = 0;
        while block < self.blocks.len()
            invariant
                block <= self.blocks.len(),
                session < self@.limits.len(),
                limit == self@.limits[session as int],
                self@.sessions.len() == self@.blocks.len(),
                self@.blocks.len() == self.blocks.len(),
                forall|b: int| 0 <= b < self@.blocks.len() ==> #[trigger] self@.block_valid(b),
                seen@.len() == limit,
                writes == self@.session_writes(session as int, block as int),
                ok == writes.no_duplicates(),
                forall|r: int| 0 <= r < limit ==> seen@[r] == writes.contains(Register(r as usize)),
            decreases self.blocks.len() - block,
        {
            if self.sessions[block] == session {
                let code = &self.blocks[block];
                let ghost ops = self@.blocks[block as int];
                let ghost earlier = writes;
                let mut i: usize = 0;
                proof {
                    assert(writes =~= earlier + block_writes(ops, 0));
                }
                while i < code.len()
                    invariant
                        i <= code.len(),
                        block < self@.blocks.len(),
                        self@.sessions[block as int] == session,
                        limit == self@.limit_of(block as int),
                        self@.block_valid(block as int),
                        ops == self@.blocks[block as int],
                        ops == ops_of(code@),
                        seen@.len() == limit,
                        writes == earlier + block_writes(ops, i as int),
                        ok == writes.no_duplicates(),
                        forall|r: int|
                            0 <= r < limit ==> seen@[r] == writes.contains(Register(r as usize)),
                    decreases code.len() - i,
                {
                    let registers = written_registers(&code[i]);
                    let ghost before = writes;
                    let mut k: usize = 0;
                    proof {
                        assert(ops[i as int] == code@[i as int]@);
                        assert(self@.admits(block as int, ops[i as int]));
                        assert(registers@.take(0) =~= Seq::<Register>::empty());
                        assert(writes =~= before + registers@.take(0));
                    }
                    while k < registers.len()
                        invariant
                            k <= registers.len(),
                            registers@ == ops[i as int].written(),
                            ops[i as int].within(limit as int),
                            seen@.len() == limit,
                            writes == before + registers@.take(k as int),
                            ok == writes.no_duplicates(),
                            forall|r: int|
                                0 <= r < limit ==> seen@[r] == writes.contains(
                                    Register(r as usize),
                                ),
                        decreases registers.len() - k,
                    {
                        let register = registers[k];
                        proof {
                            assert(registers@.contains(register));
                            ops[i as int].lemma_written(register);
                            lemma_push_no_duplicates(writes, register);
                            assert(before + registers@.take(k + 1) =~= writes.push(register));
                            assert(Register(register.0) == register);
                        }
                        let ghost shorter = writes;
                        if seen[register.0] {
                            ok = false;
                        }
                        seen.set(register.0, true);
                        proof {
                            writes = writes.push(register);
                            assert forall|r: int| 0 <= r < limit implies seen@[r] == writes.contains(
                                Register(r as usize),
                            ) by {
                                let other = Register(r as usize);
                                if shorter.contains(other) {
                                    let j = choose|j: int|
                                        0 <= j < shorter.len() && shorter[j] == other;
                                    assert(writes[j] == other);
                                }
                                if other == register {
                                    assert(writes[writes.len() - 1] == other);
                                }
                            }
                        }
                        k += 1;
                    }
                    proof {
                        assert(registers@.take(registers@.len() as int) =~= registers@);
                        assert(writes =~= earlier + block_writes(ops, i + 1));
                    }
                    i += 1;
                }
            }
            block += 1;
        }
        ok
    }

    /// Whether block `block` is valid.
    fn block_valid(&self, block: usize) -> (ok: bool)
        requires
            block < self@.blocks.len(),
            self@.sessions.len() == self@.blocks.len(),
        ensures
            ok == self@.block_valid(block as int),
    {
        let session = self.sessions[block];
        if session >= self.limits.len() {
            return false;
        }
        let limit = self.limits[session];
        let code = &self.blocks[block];
        if code.len() == 0 {
            return false;
        }
        let terminal = match decode(&code[code.len() - 1]) {
            Step::Ret(_) => true,
            Step::Jump(Condition::Always, _) => true,
            _ => false,
        };
        if !terminal {
            return false;
        }
        let mut i: usize = 0;
        while i < code.len()
            invariant
                i <= code.len(),
                block < self@.blocks.len(),
                self@.sessions.len() == self@.blocks.len(),
                limit == self@.limit_of(block as int),
                ops_of(code@) == self@.blocks[block as int],
                forall|j: int|
                    0 <= j < i ==> self@.admits(block as int, #[trigger] self@.blocks[block as int][j]),
            decreases code.len() - i,
        {
            if !self.admits(block, limit, &code[i]) {
                assert(self@.blocks[block as int][i as int] == code@[i as int]@);
                return false;
            }
            assert(self@.blocks[block as int][i as int] == code@[i as int]@);
            i += 1;
        }
        true
    }

    /// Checks the program against the rules of [`Draft::valid`].
    pub fn validate(&self) -> (result: Result<(), Error>)
        ensures
            result is Ok <==> self@.valid(),
            result is Err ==> result == Err::<(), Error>(Error::MalformedProgram),
    {
        if self.sessions.len() != self.blocks.len() {
            return Err(Error::MalformedProgram);
        }
        let mut block: usize = 0;
        while block < self.blocks.len()
            invariant
                block <= self.blocks.len(),
                self@.sessions.len() == self@.blocks.len(),
                self@.blocks.len() == self.blocks.len(),
                forall|b: int| 0 <= b < block ==> #[trigger] self@.block_valid(b),
            decreases self.blocks.len() - block,
        {
            if !self.block_valid(block) {
                return Err(Error::MalformedProgram);
            }
            block += 1;
        }
        let mut session: usize = 0;
        while session < self.limits.len()
            invariant
                session <= self.limits.len(),
                self@.limits.len() == self.limits.len(),
                self@.sessions.len() == self@.blocks.len(),
                forall|b: int| 0 <= b < self@.blocks.len() ==> #[trigger] self@.block_valid(b),
                forall|s: int|
                    0 <= s < session ==> (#[trigger] self@.session_writes(
                        s,
                        self@.blocks.len() as int,
                    )).no_duplicates(),
            decreases self.limits.len() - session,
        {
            if !self.session_assigns_once(session) {
                return Err(Error::MalformedProgram);
            }
            session += 1;
        }
        assert(self@.registrations == self.functions@);
        if !self.functions.all_below(self.blocks.len()) {
            return Err(Error::MalformedProgram);
        }
        Ok(())
    }

    /// Checks the program and, if it is valid, hands it out in the form that
    /// can be run. Any breach of a rule is `MalformedProgram`.
    pub fn finalize(self) -> (result: Result<BasicProgram, Error>)
        ensures
            result is Ok <==> self@.valid(),
            result is Ok ==> result->Ok_0.wf() && result->Ok_0.model() == self@.model()
                && result->Ok_0.registrations() == self@.registrations
                && result->Ok_0.arena().len() == self@.blocks.len(),
            result is Err ==> result->Err_0 == Error::MalformedProgram,
    {
        match self.validate() {
            Ok(_) => {
                let ghost draft = self@;
                let Program { blocks, sessions: _, limits: _, functions } = self;
                let program = BasicProgram::assemble(functions, blocks);
                proof {
                    program.lemma_model();
                    assert(program.model().blocks =~= draft.model().blocks);
                    draft.lemma_valid_is_wf();
                }
                Ok(program)
            },
            Err(error) => Err(error),
        }
    }
}

/// A function under construction, as the builders' contracts see it.
pub ghost struct FunctionDraft {
    /// The name that the function will be registered under.
    pub name: Seq<char>,
    /// The number of registers allocated so far.
    pub used_registers: int,
    /// The function's build session.
    pub session: int,
    /// The program that the function is built into.
    pub program: Draft,
}

/// A function under construction, with the program that it is built into. All
/// blocks of the function draw their registers from one counter.
pub struct Function {
    used_registers: usize,
    program: Program,
    name: String,
    session: usize,
}

impl View for Function {
    type V = FunctionDraft;

    closed spec fn view(&self) -> FunctionDraft {
        FunctionDraft {
            name: self.name@,
            used_registers: self.used_registers as int,
            session: self.session as int,
            program: self.program@,
        }
    }
}

impl Function {
    /// Allocates the next register: the first has index 0, and each further
    /// one the index after the one before.
    fn allocate_register(&mut self) -> (register: Register)
        requires
            old(self)@.used_registers < usize::MAX,
        ensures
            register.0 == old(self)@.used_registers,
            final(self)@ == (FunctionDraft {
                used_registers: old(self)@.used_registers + 1,
                ..old(self)@
            }),
    {
        let register = Register(self.used_registers);
        self.used_registers += 1;
        register
    }

    /// Starts an empty block of this function.
    pub fn build_block(self) -> (block: Block)
        ensures
            block@ == (BlockDraft { code: Seq::empty(), function: self@ }),
    {
        let block = Block { instructions: Vec::new(), function: self };
        assert(block@.code =~= Seq::empty());
        block
    }

    /// Registers the function under its name, entering at `entry_block`, and
    /// hands the program back.
    pub fn finalize(self, entry_block: BlockID) -> (program: Program)
        ensures
            program@ == self@.program.with_function(self@.name, entry_block@ as int),
    {
        let Function { used_registers: _, mut program, name, session: _ } = self;
        program.register_function(name, entry_block);
        program
    }
}

/// A block under construction, as the builders' contracts see it.
pub ghost struct BlockDraft {
    /// The operations added so far.
    pub code: Seq<Op>,
    /// The function that the block belongs to.
    pub function: FunctionDraft,
}

impl BlockDraft {
    /// The draft after `op` was added at the end.
    pub open spec fn with(self, op: Op) -> BlockDraft {
        BlockDraft { code: self.code.push(op), ..self }
    }

    /// The draft after `count` more registers were allocated.
    pub open spec fn allocating(self, count: int) -> BlockDraft {
        BlockDraft {
            function: FunctionDraft {
                used_registers: self.function.used_registers + count,
                ..self.function
            },
            ..self
        }
    }
}

/// A block under construction, with the function that it belongs to.
pub struct Block {
    instructions: Vec<Instruction<BlockID, String>>,
    function: Function,
}

impl View for Block {
    type V = BlockDraft;

    closed spec fn view(&self) -> BlockDraft {
        BlockDraft { code: ops_of(self.instructions@), function: self.function@ }
    }
}

impl Block {
    /// Adds an instruction at the end.
    fn add(&mut self, instruction: Instruction<BlockID, String>)
        ensures
            final(self)@ == old(self)@.with(instruction@),
    {
        self.instructions.push(instruction);
        assert(self@.code =~= old(self)@.code.push(instruction@));
    }

    /// Allocates the next register of the block's function.
    fn allocate(&mut self) -> (register: Register)
        requires
            old(self)@.function.used_registers < usize::MAX,
        ensures
            register.0 == old(self)@.function.used_registers,
            final(self)@ == old(self)@.allocating(1),
    {
        self.function.allocate_register()
    }

    /// Adds the block to the program's arena and hands out its handle, with
    /// the function that owns the block.
    pub fn finalize(self) -> (finalized: (BlockID, Function))
        ensures
            finalized.0@ == self@.function.program.blocks.len(),
            finalized.1@ == (FunctionDraft {
                program: self@.function.program.with_block(
                    self@.code,
                    self@.function.session,
                    self@.function.used_registers,
                ),
                ..self@.function
            }),
    {
        let Block { instructions, function } = self;
        let Function { used_registers, mut program, name, session } = function;
        let id = program.register_block(instructions, session, used_registers);
        (id, Function { used_registers, program, name, session })
    }

    /// Adds a load of the constant `imm` into a new register, and returns that
    /// register.
    pub fn add_immediate(&mut self, imm: Number) -> (register: Register)
        requires
            old(self)@.function.used_registers < usize::MAX,
        ensures
            register.0 == old(self)@.function.used_registers,
            final(self)@ == old(self)@.allocating(1).with(Op::Load { value: imm, dst: register }),
    {
        let register = self.allocate();
        self.add(Instruction::LoadImmediate(imm, register));
        register
    }

    /// Adds a return of the value of `reg`.
    pub fn add_ret(&mut self, reg: Register)
        ensures
            final(self)@ == old(self)@.with(Op::Ret { src: reg }),
    {
        self.add(Instruction::Ret(reg));
    }

    /// Adds a call of the function `name` on the values of `arguments`, into a
    /// new register, and returns that register.
    pub fn add_fn_call(&mut self, name: String, arguments: Vec<Register>) -> (register: Register)
        requires
            old(self)@.function.used_registers < usize::MAX,
        ensures
            register.0 == old(self)@.function.used_registers,
            final(self)@ == old(self)@.allocating(1).with(
                Op::Call { function: name@, arguments: arguments@, dst: register },
            ),
    {
        let register = self.allocate();
        self.add(Instruction::Call { function_id: name, arguments, out: register });
        register
    }

    /// Adds a load of the invocation's arguments into `count` new registers,
    /// and returns those registers, in the order of the arguments.
    pub fn add_load_args(&mut self, count: usize) -> (registers: Vec<Register>)
        requires
            old(self)@.function.used_registers + count <= usize::MAX,
        ensures
            registers@.len() == count,
            forall|i: int|
                0 <= i < count ==> (#[trigger] registers@[i]).0 == old(self)@.function.used_registers
                    + i,
            final(self)@ == old(self)@.allocating(count as int).with(
                Op::LoadArgs { registers: registers@ },
            ),
    {
        let mut registers: Vec<Register> = Vec::new();
        let mut copy: Vec<Register> = Vec::new();
        let mut i: usize = 0;
        while i < count
            invariant
                i <= count,
                old(self)@.function.used_registers + count <= usize::MAX,
                registers@.len() == i,
                copy@ == registers@,
                forall|j: int|
                    0 <= j < i ==> (#[trigger] registers@[j]).0
                        == old(self)@.function.used_registers + j,
                self@ == old(self)@.allocating(i as int),
            decreases count - i,
        {
            let register = self.allocate();
            registers.push(register);
            copy.push(register);
            i += 1;
        }
        self.add(Instruction::LoadArgs(copy));
        registers
    }

    /// Adds a jump to `to`, a block finalized before, under the condition of
    /// `jump_type`.
    pub fn add_cond_jump(&mut self, jump_type: Jump, to: BlockID)
        ensures
            final(self)@ == old(self)@.with(
                Op::Jump { condition: jump_type.condition(), target: to@ as int },
            ),
    {
        self.add(jump_type.instruction(to));
    }

    /// Adds an arithmetic operation on `lhs` and `rhs` into a new register, and
    /// returns that register.
    pub fn add_arithmetic(&mut self, operation: Arithmetic, lhs: Register, rhs: Register) -> (out:
        Register)
        requires
            old(self)@.function.used_registers < usize::MAX,
        ensures
            out.0 == old(self)@.function.used_registers,
            final(self)@ == old(self)@.allocating(1).with(
                Op::Binary { operation: operation.operation(), lhs, rhs, dst: out },
            ),
    {
        let out = self.allocate();
        self.add(operation.instruction(lhs, rhs, out));
        out
    }

    /// Adds a bitwise operation on `lhs` and `rhs` into a new register, and
    /// returns that register.
    pub fn add_bitwise(&mut self, operation: BitWise, lhs: Register, rhs: Register) -> (out:
        Register)
        requires
            old(self)@.function.used_registers < usize::MAX,
        ensures
            out.0 == old(self)@.function.used_registers,
            final(self)@ == old(self)@.allocating(1).with(
                Op::Binary { operation: operation.operation(), lhs, rhs, dst: out },
            ),
    {
        let out = self.allocate();
        self.add(operation.instruction(lhs, rhs, out));
        out
    }
}

} // verus!
