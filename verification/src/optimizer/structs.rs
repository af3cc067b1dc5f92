//! The program that the optimizer hands out: all blocks in one sequence of
//! instructions, each named by the offset at which it starts.

use vstd::prelude::*;
use crate::ir::{ops_of, Instruction};
use crate::model::{Op, ProgramModel};
use crate::optimizer::graph::{renumber_block, total_len, Graph};
use crate::optimizer::liveness::pruned;
use crate::optimizer::renaming::{
    lemma_rename_ops_agree, lemma_renumbered_behaviour, lemma_renumbered_settled,
    lemma_renumbered_wf, rename_ops, renumbered,
};
use crate::program::{arena_blocks, Program};
use crate::semantics::same_behaviour;
use crate::table::{entries_of, lemma_entry_map_renamed, lemma_entry_values, FunctionTable};

verus! {

/// Whether a block starts at `offset`.
pub open spec fn is_start(starts: Seq<usize>, offset: int) -> bool {
    exists|index: int| 0 <= index < starts.len() && #[trigger] starts[index] == offset
}

/// The position, in the list of starts, of the block that starts at `offset`.
pub open spec fn start_index(starts: Seq<usize>, offset: int) -> int {
    choose|index: int| 0 <= index < starts.len() && #[trigger] starts[index] == offset
}

/// Where the block at position `index` ends: at the start of the next block,
/// or at the end of all instructions for the last block.
pub open spec fn end_of(starts: Seq<usize>, total: int, index: int) -> int {
    if index + 1 < starts.len() {
        starts[index + 1] as int
    } else {
        total
    }
}

/// Starts in increasing order, each before the end of the instructions: no
/// block is empty and none overlaps another.
pub open spec fn layout_wf(starts: Seq<usize>, total: int) -> bool {
    &&& forall|low: int, high: int|
        0 <= low < high < starts.len() ==> (#[trigger] starts[low]) < (#[trigger] starts[high])
    &&& forall|index: int| 0 <= index < starts.len() ==> (#[trigger] starts[index]) < total
}

/// The blocks of a flat program: each start with the operations from there to
/// the end of its block.
pub open spec fn flat_blocks(code: Seq<Op>, starts: Seq<usize>) -> Map<int, Seq<Op>> {
    Map::new(
        |offset: int| is_start(starts, offset),
        |offset: int|
            code.subrange(offset, end_of(starts, code.len() as int, start_index(starts, offset))),
    )
}

/// The offset at which a block starts when the blocks of a program are laid
/// out one after the other in the order of their numbers: the number of
/// operations in the blocks before it.
pub open spec fn offset_of(program: ProgramModel, block: int) -> int
    decreases block,
{
    if block <= 0 {
        0
    } else {
        offset_of(program, block - 1) + program.blocks[block - 1].len()
    }
}

/// The offset of each block of a program.
pub open spec fn offsets(program: ProgramModel) -> spec_fn(int) -> int {
    |block: int| offset_of(program, block)
}

/// The offset of a node is the number of instructions before it.
pub proof fn lemma_offset_of(
    arena: Seq<Vec<Instruction<usize, String>>>,
    program: ProgramModel,
    node: int,
)
    requires
        program.blocks == arena_blocks(arena),
        0 <= node <= arena.len(),
    ensures
        offset_of(program, node) == total_len(arena, node),
    decreases node,
{
    if node > 0 {
        lemma_offset_of(arena, program, node - 1);
        assert(program.blocks.contains_key(node - 1));
        assert(program.blocks[node - 1].len() == arena[node - 1]@.len());
    }
}

/// A block with each jump led to the start of its target.
pub open spec fn flat_ops(ops: Seq<Op>, starts: Seq<usize>) -> Seq<Op> {
    rename_ops(ops, |block: int| starts[block] as int)
}

/// In a well-formed layout, a start is found at one position only.
pub proof fn lemma_start_index(starts: Seq<usize>, total: int, index: int)
    requires
        layout_wf(starts, total),
        0 <= index < starts.len(),
    ensures
        is_start(starts, starts[index] as int),
        start_index(starts, starts[index] as int) == index,
{
    let found = start_index(starts, starts[index] as int);
    if found < index {
        assert(starts[found] < starts[index]);
    }
    if index < found {
        assert(starts[index] < starts[found]);
    }
}

/// Where a block's jumps are led depends only on the starts of their targets.
pub proof fn lemma_flat_ops(ops: Seq<Op>, first: Seq<usize>, second: Seq<usize>, bound: int)
    requires
        forall|i: int| 0 <= i < ops.len() && (#[trigger] ops[i]) is Jump ==> 0 <= ops[i]->target < bound,
        forall|block: int| 0 <= block < bound ==> first[block] == second[block],
    ensures
        flat_ops(ops, first) == flat_ops(ops, second),
{
    lemma_rename_ops_agree(
        ops,
        |block: int| first[block] as int,
        |block: int| second[block] as int,
    );
}

/// The position of `offset` in a list of starts that holds it.
fn find_start(starts: &Vec<usize>, offset: usize) -> (index: usize)
    requires
        forall|low: int, high: int|
            0 <= low < high < starts@.len() ==> (#[trigger] starts@[low]) < (#[trigger] starts@[high]),
        is_start(starts@, offset as int),
    ensures
        index < starts@.len(),
        starts@[index as int] == offset,
{
    let mut low: usize = 0;
    let mut high: usize = starts.len();
    let ghost at = start_index(starts@, offset as int);
    while high - low > 1
        invariant
            forall|a: int, b: int|
                0 <= a < b < starts@.len() ==> (#[trigger] starts@[a]) < (#[trigger] starts@[b]),
            0 <= at < starts@.len(),
            starts@[at] == offset,
            low <= at < high <= starts@.len(),
        decreases high - low,
    {
        let middle = low + (high - low) / 2;
        if starts[middle] <= offset {
            proof {
                if middle > at {
                    assert(starts@[at] < starts@[middle as int]);
                }
            }
            low = middle;
        } else {
            proof {
                if middle < at {
                    assert(starts@[middle as int] < starts@[at]);
                }
            }
            high = middle;
        }
    }
    low
}

/// A program held as one sequence of instructions. A block handle is the
/// offset at which the block starts; the block reaches from there to the start
/// of the next block, or to the end of the sequence.
pub struct FlatProgram {
    function_pointer_map: FunctionTable,
    all_instructions: Vec<Instruction<usize, String>>,
    block_starts: Vec<usize>,
}

impl FlatProgram {
    /// The registrations of the program's functions, in order.
    pub closed spec fn registrations(&self) -> Seq<(Seq<char>, int)> {
        self.function_pointer_map@
    }

    /// All instructions of the program, block after block.
    pub closed spec fn instructions(&self) -> Seq<Instruction<usize, String>> {
        self.all_instructions@
    }

    /// The offsets at which the blocks start, in order.
    pub closed spec fn starts(&self) -> Seq<usize> {
        self.block_starts@
    }

    /// Where the block that starts at `offset` ends.
    pub open spec fn block_end(&self, offset: int) -> int {
        end_of(
            self.starts(),
            self.instructions().len() as int,
            start_index(self.starts(), offset),
        )
    }

    /// The number of instructions in the program.
    pub fn len(&self) -> (len: usize)
        ensures
            len == self.instructions().len(),
    {
        self.all_instructions.len()
    }

    /// The number of blocks in the program.
    pub fn block_count(&self) -> (count: usize)
        ensures
            count == self.starts().len(),
    {
        self.block_starts.len()
    }

    /// The offset at which a block starts, by its position among the blocks.
    pub fn block_start(&self, index: usize) -> (offset: usize)
        requires
            index < self.starts().len(),
        ensures
            offset == self.starts()[index as int],
    {
        self.block_starts[index]
    }

    /// The end of a block is no later than the start of any later block, and
    /// no later than the end of the program.
    pub proof fn lemma_blocks_apart(&self, offset: int, other: int)
        requires
            self.wf(),
            is_start(self.starts(), offset),
        ensures
            offset < self.block_end(offset) <= self.instructions().len(),
            is_start(self.starts(), other) && offset < other ==> self.block_end(offset) <= other,
    {
        let starts = self.starts();
        let index = start_index(starts, offset);
        if is_start(starts, other) && offset < other {
            let later = start_index(starts, other);
            if later <= index {
                if later < index {
                    assert(starts[later] < starts[index]);
                }
            } else if later > index + 1 {
                assert(starts[index + 1] < starts[later]);
            }
        }
        if index + 1 < starts.len() {
            assert(starts[index] < starts[index + 1]);
        }
    }

    /// Lowers a graph: lays its nodes out one after the other, in order, and
    /// renumbers them by their offsets: every jump and every function is led to
    /// the offset at which its target starts. The program behaves like the
    /// graph.
    pub fn from_graph(graph: Graph) -> (program: FlatProgram)
        requires
            graph.wf(),
        ensures
            program.wf(),
            renumbered(
                graph.model(),
                program.model(),
                graph.model().blocks.dom(),
                offsets(graph.model()),
            ),
            program.starts().len() == graph.arena().len(),
            forall|node: int|
                0 <= node < graph.arena().len() ==> (#[trigger] program.starts()[node])
                    == total_len(graph.arena(), node),
            program.instructions().len() == graph.size(),
            same_behaviour(graph.model(), program.model()),
            pruned(graph.model()) == graph.model() ==> pruned(program.model()) == program.model(),
    {
        let ghost before = graph.model();
        let ghost arena = graph.arena();
        let count = graph.node_count();
        let mut all: Vec<Instruction<usize, String>> = Vec::new();
        let mut starts: Vec<usize> = Vec::new();
        let mut node: usize = 0;
        while node < count
            invariant
                graph.wf(),
                before == graph.model(),
                arena == graph.arena(),
                count == arena.len(),
                node <= count,
                starts@.len() == node,
                layout_wf(starts@, all@.len() as int),
                all@.len() == total_len(arena, node as int),
                forall|c: int| 0 <= c < node ==> (#[trigger] starts@[c]) == total_len(arena, c),
                forall|c: int|
                    0 <= c < node ==> end_of(starts@, all@.len() as int, c) == (
                    #[trigger] starts@[c]) + arena[c]@.len(),
                forall|c: int|
                    0 <= c < node ==> ops_of(all@).subrange(
                        (#[trigger] starts@[c]) as int,
                        starts@[c] + arena[c]@.len(),
                    ) == flat_ops(ops_of(arena[c]@), starts@),
            decreases count - node,
        {
            let code = graph.node(node);
            let ghost old_all = all@;
            let ghost old_starts = starts@;
            proof {
                assert(before.blocks.contains_key(node as int));
                assert(before.block_wf(node as int));
                assert forall|i: int|
                    0 <= i < code@.len() && (#[trigger] code@[i])@ is Jump implies 0
                    <= code@[i]@->target < node by {
                    assert(before.blocks[node as int][i] == code@[i]@);
                    assert(before.admits(node as int, before.blocks[node as int][i]));
                }
            }
            starts.push(all.len());
            let mut copy = renumber_block(code, &starts);
            let ghost copied = copy@;
            all.append(&mut copy);
            proof {
                assert(ops_of(copied).len() == code@.len());
                assert(code@.len() > 0);
                assert forall|c: int| 0 <= c < node + 1 implies end_of(
                    starts@,
                    all@.len() as int,
                    c,
                ) == (#[trigger] starts@[c]) + arena[c]@.len() by {
                    if c < node {
                        assert(starts@[c] == old_starts[c]);
                        assert(end_of(old_starts, old_all.len() as int, c) == old_starts[c]
                            + arena[c]@.len());
                        if c + 1 < node {
                            assert(starts@[c + 1] == old_starts[c + 1]);
                        }
                    }
                }
                assert forall|c: int| 0 <= c < node + 1 implies ops_of(all@).subrange(
                    (#[trigger] starts@[c]) as int,
                    starts@[c] + arena[c]@.len(),
                ) == flat_ops(ops_of(arena[c]@), starts@) by {
                    if c < node {
                        assert(starts@[c] == old_starts[c]);
                        assert(end_of(old_starts, old_all.len() as int, c) == old_starts[c]
                            + arena[c]@.len());
                        assert(ops_of(all@).subrange(
                            starts@[c] as int,
                            starts@[c] + arena[c]@.len(),
                        ) =~= ops_of(old_all).subrange(
                            old_starts[c] as int,
                            old_starts[c] + arena[c]@.len(),
                        ));
                        assert(before.blocks.contains_key(c));
                        assert(before.block_wf(c));
                        assert forall|i: int|
                            0 <= i < ops_of(arena[c]@).len() && (#[trigger] ops_of(
                                arena[c]@,
                            )[i]) is Jump implies 0 <= ops_of(arena[c]@)[i]->target < node by {
                            assert(before.admits(c, before.blocks[c][i]));
                        }
                        lemma_flat_ops(ops_of(arena[c]@), old_starts, starts@, node as int);
                    } else {
                        assert(ops_of(all@).subrange(
                            starts@[c] as int,
                            starts@[c] + arena[c]@.len(),
                        ) =~= ops_of(copied));
                    }
                }
                assert forall|low: int, high: int| 0 <= low < high < starts@.len() implies (
                #[trigger] starts@[low]) < (#[trigger] starts@[high]) by {
                    assert(starts@[low] == old_starts[low]);
                    if high < node {
                        assert(starts@[high] == old_starts[high]);
                    }
                }
            }
            node += 1;
        }
        let (functions, _) = graph.into_parts();
        let table = functions.renumbered(&starts);
        let program = FlatProgram {
            function_pointer_map: table,
            all_instructions: all,
            block_starts: starts,
        };
        proof {
            let after = program.model();
            let rename = offsets(before);
            let kept = before.blocks.dom();
            assert forall|block: int| 0 <= block <= count implies #[trigger] rename(block)
                == total_len(arena, block) by {
                lemma_offset_of(arena, before, block);
            }
            lemma_entry_map_renamed(functions@, table@, rename, functions@.len());
            assert forall|name: Seq<char>| #[trigger]
                before.entries.contains_key(name) implies kept.contains(before.entries[name])
                && after.entries[name] == rename(before.entries[name]) by {
                lemma_entry_values(functions@, functions@.len(), name);
            }
            assert forall|block: int| #[trigger] kept.contains(block) implies before.blocks.contains_key(
                block,
            ) && 0 <= rename(block) && after.blocks.contains_key(rename(block))
                && after.blocks[rename(block)] == rename_ops(before.blocks[block], rename) by {
                lemma_start_index(starts@, all@.len() as int, block);
                assert(end_of(starts@, all@.len() as int, block) == starts@[block]
                    + arena[block]@.len());
                assert(before.blocks.contains_key(block));
                assert(before.block_wf(block));
                assert(rename(block) == starts@[block]);
                assert forall|i: int|
                    0 <= i < before.blocks[block].len() && (#[trigger] before.blocks[block][i]) is Jump implies (
                |target: int| starts@[target] as int)(before.blocks[block][i]->target) == rename(
                    before.blocks[block][i]->target,
                ) by {
                    assert(before.admits(block, before.blocks[block][i]));
                }
                lemma_rename_ops_agree(
                    before.blocks[block],
                    |target: int| starts@[target] as int,
                    rename,
                );
            }
            assert forall|block: int, i: int|
                kept.contains(block) && 0 <= i < before.blocks[block].len()
                    && #[trigger] before.blocks[block][i] is Jump implies kept.contains(
                before.blocks[block][i]->target,
            ) by {
                assert(before.block_wf(block));
                assert(before.admits(block, before.blocks[block][i]));
            }
            assert forall|block: int| #[trigger] after.blocks.contains_key(block) implies exists|
                origin: int,
            | #[trigger] kept.contains(origin) && rename(origin) == block by {
                let index = start_index(starts@, block);
                assert(starts@[index] == total_len(arena, index));
                assert(kept.contains(index) && rename(index) == block);
            }
            assert forall|earlier: int, later: int|
                #![trigger kept.contains(earlier), kept.contains(later)]
                kept.contains(earlier) && kept.contains(later) && earlier < later implies rename(
                earlier,
            ) < rename(later) by {
                assert(starts@[earlier] < starts@[later]);
            }
            assert(after.entries.dom() == before.entries.dom());
            assert(renumbered(before, after, kept, rename));
            lemma_renumbered_behaviour(before, after, kept, rename);
            lemma_renumbered_wf(before, after, kept, rename);
            if pruned(before) == before {
                lemma_renumbered_settled(before, after, kept, rename);
            }
        }
        program
    }
}

impl Program for FlatProgram {
    type BlockPointer = usize;

    type FunctionPointer = String;

    open spec fn model(&self) -> ProgramModel {
        ProgramModel {
            entries: entries_of(self.registrations()),
            blocks: flat_blocks(ops_of(self.instructions()), self.starts()),
        }
    }

    open spec fn wf(&self) -> bool {
        &&& layout_wf(self.starts(), self.instructions().len() as int)
        &&& self.model().wf()
    }

    proof fn lemma_wf(&self) {
    }

    fn get_function_entry(&self, function_id: &String) -> (entry: Option<usize>) {
        self.function_pointer_map.lookup(function_id)
    }

    /// The instructions of the block that starts at `block_id`: from there to
    /// the end of that block, and nothing of any other block.
    fn get_ir(&self, block_id: &usize) -> (code: &[Instruction<usize, String>])
        ensures
            code@ == self.instructions().subrange(
                *block_id as int,
                self.block_end(*block_id as int),
            ),
    {
        let count = self.block_starts.len();
        let index = find_start(&self.block_starts, *block_id);
        let end = if index + 1 < count {
            self.block_starts[index + 1]
        } else {
            self.all_instructions.len()
        };
        proof {
            lemma_start_index(self.starts(), self.instructions().len() as int, index as int);
            if index + 1 < self.starts().len() {
                assert(self.starts()[index as int] < self.starts()[index + 1]);
            }
        }
        let code = vstd::slice::slice_subrange(self.all_instructions.as_slice(), *block_id, end);
        proof {
            assert(ops_of(code@) =~= self.model().blocks[*block_id as int]);
        }
        code
    }
}

} // verus!
