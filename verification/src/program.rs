//! What a program offers to those that run or rewrite it, and the program that
//! the builders produce.

use vstd::prelude::*;
use crate::ir::{ops_of, Instruction};
use crate::model::{Op, ProgramModel};
use crate::table::{entries_of, FunctionTable};

verus! {

/// A program: functions that resolve to entry blocks, and blocks that resolve
/// to instructions.
///
/// Handles are read through their views: a block handle as the index of its
/// block, a function handle as the function's name. Two handles with the same
/// view resolve to the same content.
pub trait Program {
    /// Names a block of the program.
    type BlockPointer: Copy + View<V = usize>;

    /// Names a function of the program.
    type FunctionPointer: View<V = Seq<char>>;

    /// The program's entries and blocks.
    spec fn model(&self) -> ProgramModel;

    /// What holds of every program of this kind that can be run.
    spec fn wf(&self) -> bool;

    /// A program that can be run has a well-formed model.
    proof fn lemma_wf(&self)
        requires
            self.wf(),
        ensures
            self.model().wf(),
    ;

    /// The entry block of a function; `None` exactly for a function that was
    /// never registered.
    fn get_function_entry(&self, function_id: &Self::FunctionPointer) -> (entry: Option<
        Self::BlockPointer,
    >)
        requires
            self.wf(),
        ensures
            entry is Some <==> self.model().entries.contains_key(function_id@),
            entry is Some ==> entry->0@ as int == self.model().entries[function_id@],
    ;

    /// The instructions of a block of the program, the first one first.
    fn get_ir(&self, block_id: &Self::BlockPointer) -> (code: &[Instruction<
        Self::BlockPointer,
        Self::FunctionPointer,
    >])
        requires
            self.wf(),
            self.model().blocks.contains_key(block_id@ as int),
        ensures
            ops_of(code@) == self.model().blocks[block_id@ as int],
    ;
}

/// A block handle that can tell the number it stands for.
pub trait BlockHandle: Copy + View<V = usize> {
    /// The number of the block.
    fn number(&self) -> (number: usize)
        ensures
            number == self@,
    ;
}

impl BlockHandle for usize {
    fn number(&self) -> (number: usize) {
        *self
    }
}

/// The blocks of an arena: each index below its length with the operations of
/// the block stored there.
pub open spec fn arena_blocks<BlockId: View<V = usize>, FunctionId: View<V = Seq<char>>>(
    arena: Seq<Vec<Instruction<BlockId, FunctionId>>>,
) -> Map<int, Seq<Op>> {
    Map::new(|block: int| 0 <= block < arena.len(), |block: int| ops_of(arena[block]@))
}

/// Names a block of a [`BasicProgram`] by its index in the arena.
#[derive(Clone, Copy, Debug, PartialEq, Eq)]
pub struct BlockID(pub(crate) usize);

impl View for BlockID {
    type V = usize;

    closed spec fn view(&self) -> usize {
        self.0
    }
}

impl BlockID {
    pub(crate) fn new(index: usize) -> (block: BlockID)
        ensures
            block@ == index,
    {
        BlockID(index)
    }

    /// The index of the block in its program's arena.
    pub fn index(&self) -> (index: usize)
        ensures
            index == self@,
    {
        self.0
    }
}

/// A program held as an arena of blocks, which a block handle indexes, and a
/// table of functions.
pub struct BasicProgram {
    pub(crate) function_list: FunctionTable,
    pub(crate) blocks: Vec<Vec<Instruction<BlockID, String>>>,
}

impl BlockHandle for BlockID {
    fn number(&self) -> (number: usize) {
        self.0
    }
}

impl BasicProgram {
    /// The registrations of the program's functions, in order.
    pub closed spec fn registrations(&self) -> Seq<(Seq<char>, int)> {
        self.function_list@
    }

    /// The program's arena.
    pub closed spec fn arena(&self) -> Seq<Vec<Instruction<BlockID, String>>> {
        self.blocks@
    }

    pub(crate) fn assemble(
        function_list: FunctionTable,
        blocks: Vec<Vec<Instruction<BlockID, String>>>,
    ) -> (program: BasicProgram)
        ensures
            program.registrations() == function_list@,
            program.arena() == blocks@,
    {
        BasicProgram { function_list, blocks }
    }

    /// A program's model is made of its registrations and its arena.
    pub proof fn lemma_model(&self)
        ensures
            self.model().entries == entries_of(self.registrations()),
            self.model().blocks == arena_blocks(self.arena()),
    {
    }

    /// The instructions of the block at an index of the arena.
    pub fn block(&self, index: usize) -> (code: &Vec<Instruction<BlockID, String>>)
        requires
            index < self.arena().len(),
        ensures
            *code == self.arena()[index as int],
    {
        &self.blocks[index]
    }

    /// The table of the program's functions.
    pub fn function_table(&self) -> (table: &FunctionTable)
        ensures
            table@ == self.registrations(),
    {
        &self.function_list
    }

    /// The number of blocks in the arena.
    pub fn block_count(&self) -> (count: usize)
        ensures
            count == self.arena().len(),
    {
        self.blocks.len()
    }
}

impl Program for BasicProgram {
    type BlockPointer = BlockID;

    type FunctionPointer = String;

    closed spec fn model(&self) -> ProgramModel {
        ProgramModel {
            entries: entries_of(self.function_list@),
            blocks: arena_blocks(self.blocks@),
        }
    }

    open spec fn wf(&self) -> bool {
        &&& self.model().wf()
        &&& forall|i: int|
            0 <= i < self.registrations().len() ==> 0 <= (#[trigger] self.registrations()[i]).1
                < self.arena().len()
    }

    proof fn lemma_wf(&self) {
    }

    fn get_function_entry(&self, function_id: &String) -> (entry: Option<BlockID>) {
        match self.function_list.lookup(function_id) {
            Some(index) => Some(BlockID(index)),
            None => None,
        }
    }

    fn get_ir(&self, block_id: &BlockID) -> (code: &[Instruction<BlockID, String>]) {
        self.blocks[block_id.0].as_slice()
    }
}

} // verus!
