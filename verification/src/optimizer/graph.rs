//! The control-flow graph that the passes rewrite.

use vstd::prelude::*;
use crate::ir::{jump_target, ops_of, with_target, Instruction};
use crate::model::{Op, ProgramModel};
use crate::optimizer::renaming::{
    lemma_rename_ops_agree, lemma_renumbered_behaviour, lemma_renumbered_wf, rename_op,
    rename_ops, renumbered,
};
use crate::program::{arena_blocks, BasicProgram, BlockHandle, Program};
use crate::semantics::same_behaviour;
use crate::table::{
    entries_of, lemma_entry_map_renamed, lemma_entry_values, FunctionTable,
};

verus! {

/// The number of instructions in the first `count` nodes of an arena.
pub open spec fn total_len(arena: Seq<Vec<Instruction<usize, String>>>, count: int) -> int
    decreases count,
{
    if count <= 0 {
        0
    } else {
        total_len(arena, count - 1) + arena[count - 1]@.len()
    }
}

/// A count of instructions is not negative.
pub proof fn lemma_total_len_bounds(arena: Seq<Vec<Instruction<usize, String>>>, count: int)
    ensures
        0 <= total_len(arena, count),
    decreases count,
{
    if count > 0 {
        lemma_total_len_bounds(arena, count - 1);
    }
}

/// The targets of the jumps among the first `count` operations of a block, in
/// order.
pub open spec fn jump_targets(ops: Seq<Op>, count: int) -> Seq<int>
    decreases count,
{
    if count <= 0 {
        Seq::empty()
    } else if ops[count - 1] is Jump {
        jump_targets(ops, count - 1).push(ops[count - 1]->target)
    } else {
        jump_targets(ops, count - 1)
    }
}

/// The edges that leave a node: the targets of its jumps, in order.
pub open spec fn edges(ops: Seq<Op>) -> Seq<int> {
    jump_targets(ops, ops.len() as int)
}

/// The number of marks among the first `count`.
pub open spec fn count_marked(marks: Seq<bool>, count: int) -> int
    decreases count,
{
    if count <= 0 {
        0
    } else {
        count_marked(marks, count - 1) + if marks[count - 1] {
            1int
        } else {
            0int
        }
    }
}

/// The count of marks grows with the range counted, by at most the growth of
/// the range.
pub proof fn lemma_count_marked(marks: Seq<bool>, low: int, high: int)
    requires
        0 <= low <= high,
    ensures
        count_marked(marks, low) <= count_marked(marks, high) <= count_marked(marks, low) + high
            - low,
        0 <= count_marked(marks, low) <= low,
    decreases high - low + low,
{
    if low > 0 {
        lemma_count_marked(marks, low - 1, low - 1);
    }
    if high > low {
        lemma_count_marked(marks, low, high - 1);
    }
}

/// Whether some registration names `block` as its entry.
pub open spec fn is_entry(registrations: Seq<(Seq<char>, int)>, block: int) -> bool {
    exists|i: int| 0 <= i < registrations.len() && (#[trigger] registrations[i]).1 == block
}

/// Whether some jump of a block leads to `target`.
pub open spec fn jumps_to(ops: Seq<Op>, target: int) -> bool {
    exists|i: int| 0 <= i < ops.len() && (#[trigger] ops[i]) is Jump && ops[i]->target == target
}

/// Whether, among the first `count` blocks of a program, `block` can be
/// reached: a function enters at it, or a jump leads to it from a later block
/// that can be reached.
pub open spec fn reachable(
    program: ProgramModel,
    registrations: Seq<(Seq<char>, int)>,
    count: int,
    block: int,
) -> bool
    decreases count - block,
{
    &&& 0 <= block < count
    &&& is_entry(registrations, block) || exists|source: int|
        block < source < count && reachable(program, registrations, count, source)
            && #[trigger] jumps_to(program.blocks[source], block)
}

/// Whether a function enters at `block`, or a jump leads to it from a block
/// from `from` on that can be reached.
pub open spec fn fed(
    program: ProgramModel,
    registrations: Seq<(Seq<char>, int)>,
    count: int,
    from: int,
    block: int,
) -> bool {
    is_entry(registrations, block) || exists|source: int|
        from <= source < count && reachable(program, registrations, count, source)
            && #[trigger] jumps_to(program.blocks[source], block)
}

/// For each of the first `count` blocks, whether it can be reached.
pub open spec fn reachable_marks(
    program: ProgramModel,
    registrations: Seq<(Seq<char>, int)>,
    count: int,
) -> Seq<bool> {
    Seq::new(count as nat, |block: int| reachable(program, registrations, count, block))
}

/// Whether `node` is the number of a marked block below `bound`.
pub open spec fn numbers_block(marks: Seq<bool>, numbers: Seq<usize>, bound: int, node: int) -> bool {
    exists|block: int| 0 <= block < bound && marks[block] && #[trigger] numbers[block] == node
}

/// The blocks of a program that can be reached.
pub open spec fn reachable_blocks(
    program: ProgramModel,
    registrations: Seq<(Seq<char>, int)>,
    count: int,
) -> Set<int> {
    Set::new(|block: int| reachable(program, registrations, count, block))
}

/// The number that each block gets in the graph: the number of blocks before it
/// that can be reached.
pub open spec fn numbering(
    program: ProgramModel,
    registrations: Seq<(Seq<char>, int)>,
    count: int,
) -> spec_fn(int) -> int {
    |block: int| count_marked(reachable_marks(program, registrations, count), block)
}

/// A block is fed from one block on if it is fed from the next block on, or
/// the one block can be reached and jumps to it.
proof fn lemma_fed_step(
    program: ProgramModel,
    registrations: Seq<(Seq<char>, int)>,
    count: int,
    from: int,
    block: int,
)
    requires
        0 <= from < count,
    ensures
        fed(program, registrations, count, from, block) == (fed(
            program,
            registrations,
            count,
            from + 1,
            block,
        ) || (reachable(program, registrations, count, from) && jumps_to(
            program.blocks[from],
            block,
        ))),
{
    if fed(program, registrations, count, from, block) && !is_entry(registrations, block) {
        let source = choose|source: int|
            from <= source < count && reachable(program, registrations, count, source)
                && #[trigger] jumps_to(program.blocks[source], block);
        if source != from {
            assert(from + 1 <= source < count && reachable(program, registrations, count, source)
                && jumps_to(program.blocks[source], block));
        }
    }
}

/// A block can be reached if and only if it is fed from the next block on.
proof fn lemma_reachable_fed(
    program: ProgramModel,
    registrations: Seq<(Seq<char>, int)>,
    count: int,
    block: int,
)
    requires
        0 <= block < count,
    ensures
        reachable(program, registrations, count, block) == fed(
            program,
            registrations,
            count,
            block + 1,
            block,
        ),
{
    assert(reachable(program, registrations, count, block) == (is_entry(registrations, block)
        || exists|source: int|
        block < source < count && reachable(program, registrations, count, source)
            && #[trigger] jumps_to(program.blocks[source], block)));
    if reachable(program, registrations, count, block) && !is_entry(registrations, block) {
        let source = choose|source: int|
            block < source < count && reachable(program, registrations, count, source)
                && #[trigger] jumps_to(program.blocks[source], block);
        assert(block + 1 <= source < count && reachable(program, registrations, count, source)
            && jumps_to(program.blocks[source], block));
    }
    if fed(program, registrations, count, block + 1, block) && !is_entry(registrations, block) {
        let source = choose|source: int|
            block + 1 <= source < count && reachable(
                program,
                registrations,
                count,
                source,
            ) && #[trigger] jumps_to(program.blocks[source], block);
        assert(block < source < count && reachable(program, registrations, count, source)
            && jumps_to(program.blocks[source], block));
    }
}

/// One more registration makes its entry block an entry, and no other block.
proof fn lemma_is_entry_step(registrations: Seq<(Seq<char>, int)>, count: int, block: int)
    requires
        0 <= count < registrations.len(),
    ensures
        is_entry(registrations.take(count + 1), block) == (is_entry(
            registrations.take(count),
            block,
        ) || registrations[count].1 == block),
{
    let shorter = registrations.take(count);
    let longer = registrations.take(count + 1);
    if is_entry(shorter, block) {
        let i = choose|i: int| 0 <= i < shorter.len() && (#[trigger] shorter[i]).1 == block;
        assert(longer[i].1 == block);
    }
    if registrations[count].1 == block {
        assert(longer[count].1 == block);
    }
    if is_entry(longer, block) {
        let i = choose|i: int| 0 <= i < longer.len() && (#[trigger] longer[i]).1 == block;
        if i < count {
            assert(shorter[i].1 == block);
        }
    }
}

/// One more operation adds the target of its jump, if it is one, to the blocks
/// that the operations jump to.
proof fn lemma_jumps_to_step(ops: Seq<Op>, count: int, target: int)
    requires
        0 <= count < ops.len(),
    ensures
        jumps_to(ops.take(count + 1), target) == (jumps_to(ops.take(count), target) || (
        ops[count] is Jump && ops[count]->target == target)),
{
    let shorter = ops.take(count);
    let longer = ops.take(count + 1);
    if jumps_to(shorter, target) {
        let i = choose|i: int|
            0 <= i < shorter.len() && (#[trigger] shorter[i]) is Jump && shorter[i]->target
                == target;
        assert(longer[i] is Jump && longer[i]->target == target);
    }
    if ops[count] is Jump && ops[count]->target == target {
        assert(longer[count] is Jump && longer[count]->target == target);
    }
    if jumps_to(longer, target) {
        let i = choose|i: int|
            0 <= i < longer.len() && (#[trigger] longer[i]) is Jump && longer[i]->target == target;
        if i < count {
            assert(shorter[i] is Jump && shorter[i]->target == target);
        }
    }
}

/// A mark at every block that a registration names as its entry.
fn mark_entries(functions: &FunctionTable, count: usize) -> (marks: Vec<bool>)
    requires
        forall|i: int| 0 <= i < functions@.len() ==> 0 <= (#[trigger] functions@[i]).1 < count,
    ensures
        marks@.len() == count,
        forall|block: int| 0 <= block < count ==> marks@[block] == is_entry(functions@, block),
{
    let mut marks: Vec<bool> = Vec::new();
    let mut b: usize = 0;
    while b < count
        invariant
            b <= count,
            marks@.len() == b,
            forall|c: int| 0 <= c < b ==> !marks@[c],
        decreases count - b,
    {
        marks.push(false);
        b += 1;
    }
    let mut i: usize = 0;
    while i < functions.registrations.len()
        invariant
            i <= functions.registrations.len(),
            functions.registrations@.len() == functions@.len(),
            marks@.len() == count,
            forall|j: int| 0 <= j < functions@.len() ==> 0 <= (#[trigger] functions@[j]).1 < count,
            forall|block: int|
                0 <= block < count ==> marks@[block] == is_entry(functions@.take(i as int), block),
        decreases functions.registrations.len() - i,
    {
        assert(functions@[i as int].1 == functions.registrations@[i as int].block);
        marks.set(functions.registrations[i].block, true);
        proof {
            assert forall|block: int| 0 <= block < count implies marks@[block] == is_entry(
                functions@.take(i + 1),
                block,
            ) by {
                lemma_is_entry_step(functions@, i as int, block);
            }
        }
        i += 1;
    }
    assert(functions@.take(functions@.len() as int) =~= functions@);
    marks
}

/// Marks the target of every jump of a block.
fn mark_targets<BlockId: BlockHandle>(
    code: &Vec<Instruction<BlockId, String>>,
    marks: &mut Vec<bool>,
)
    requires
        forall|i: int|
            0 <= i < code@.len() && (#[trigger] code@[i])@ is Jump ==> 0 <= code@[i]@->target
                < old(marks)@.len(),
    ensures
        final(marks)@.len() == old(marks)@.len(),
        forall|t: int|
            0 <= t < old(marks)@.len() ==> final(marks)@[t] == (old(marks)@[t] || jumps_to(
                ops_of(code@),
                t,
            )),
{
    let ghost ops = ops_of(code@);
    let mut i: usize = 0;
    while i < code.len()
        invariant
            i <= code.len(),
            ops == ops_of(code@),
            marks@.len() == old(marks)@.len(),
            forall|j: int|
                0 <= j < code@.len() && (#[trigger] code@[j])@ is Jump ==> 0 <= code@[j]@->target
                    < marks@.len(),
            forall|t: int|
                0 <= t < marks@.len() ==> marks@[t] == (old(marks)@[t] || jumps_to(
                    ops.take(i as int),
                    t,
                )),
        decreases code.len() - i,
    {
        match jump_target(&code[i]) {
            Some(target) => {
                marks.set(target.number(), true);
            },
            None => {},
        }
        proof {
            assert(ops[i as int] == code@[i as int]@);
            assert forall|t: int| 0 <= t < marks@.len() implies marks@[t] == (old(marks)@[t]
                || jumps_to(ops.take(i + 1), t)) by {
                lemma_jumps_to_step(ops, i as int, t);
            }
        }
        i += 1;
    }
    assert(ops.take(ops.len() as int) =~= ops);
}

/// Marks every block that can be reached, given marks at the entries.
fn mark_reachable(from: &BasicProgram, marks: &mut Vec<bool>)
    requires
        from.wf(),
        old(marks)@.len() == from.arena().len(),
        forall|block: int|
            0 <= block < old(marks)@.len() ==> old(marks)@[block] == is_entry(
                from.registrations(),
                block,
            ),
    ensures
        final(marks)@ == reachable_marks(
            from.model(),
            from.registrations(),
            from.arena().len() as int,
        ),
{
    proof {
        from.lemma_model();
    }
    let ghost model = from.model();
    let ghost registrations = from.registrations();
    let ghost count = from.arena().len() as int;
    let mut b: usize = from.block_count();
    while b > 0
        invariant
            from.wf(),
            model == from.model(),
            registrations == from.registrations(),
            count == from.arena().len(),
            model.blocks == arena_blocks(from.arena()),
            b <= count,
            marks@.len() == count,
            forall|c: int|
                b <= c < count ==> marks@[c] == reachable(model, registrations, count, c),
            forall|t: int|
                0 <= t < b ==> marks@[t] == fed(model, registrations, count, b as int, t),
        decreases b,
    {
        b -= 1;
        let code = from.block(b);
        let ghost earlier = marks@;
        proof {
            assert(model.blocks.contains_key(b as int));
            assert(model.block_wf(b as int));
            assert forall|i: int|
                0 <= i < code@.len() && (#[trigger] code@[i])@ is Jump implies 0
                <= code@[i]@->target < b by {
                assert(model.blocks[b as int][i] == code@[i]@);
                assert(model.admits(b as int, model.blocks[b as int][i]));
            }
            lemma_reachable_fed(model, registrations, count, b as int);
            assert(earlier[b as int] == reachable(model, registrations, count, b as int));
            assert forall|t: int| b <= t < count implies !jumps_to(ops_of(code@), t) by {
                if jumps_to(ops_of(code@), t) {
                    let i = choose|i: int|
                        0 <= i < ops_of(code@).len() && (#[trigger] ops_of(code@)[i]) is Jump
                            && ops_of(code@)[i]->target == t;
                    assert(code@[i]@ is Jump);
                }
            }
        }
        if marks[b] {
            mark_targets(code, marks);
        }
        proof {
            assert forall|t: int| 0 <= t < b implies marks@[t] == fed(
                model,
                registrations,
                count,
                b as int,
                t,
            ) by {
                lemma_fed_step(model, registrations, count, b as int, t);
                assert(earlier[t] == fed(model, registrations, count, b + 1, t));
            }
        }
    }
    assert(marks@ =~= reachable_marks(model, registrations, count));
}

/// For each index, the number of marks below it.
fn number_marked(marks: &Vec<bool>) -> (numbers: Vec<usize>)
    ensures
        numbers@.len() == marks@.len(),
        forall|b: int| 0 <= b < marks@.len() ==> (#[trigger] numbers@[b]) == count_marked(marks@, b),
{
    let mut numbers: Vec<usize> = Vec::new();
    let mut seen: usize = 0;
    let mut b: usize = 0;
    while b < marks.len()
        invariant
            b <= marks.len(),
            numbers@.len() == b,
            seen == count_marked(marks@, b as int),
            seen <= b,
            forall|c: int| 0 <= c < b ==> (#[trigger] numbers@[c]) == count_marked(marks@, c),
        decreases marks.len() - b,
    {
        numbers.push(seen);
        if marks[b] {
            seen += 1;
        }
        b += 1;
    }
    numbers
}

/// A copy of a block for a program that names its blocks by number, each jump
/// led to the number that `numbers` holds for its target.
pub fn renumber_block<BlockId: BlockHandle>(
    code: &Vec<Instruction<BlockId, String>>,
    numbers: &Vec<usize>,
) -> (copy: Vec<Instruction<usize, String>>)
    requires
        forall|i: int|
            0 <= i < code@.len() && (#[trigger] code@[i])@ is Jump ==> 0 <= code@[i]@->target
                < numbers@.len(),
    ensures
        ops_of(copy@) == rename_ops(ops_of(code@), |block: int| numbers@[block] as int),
{
    let ghost rename = |block: int| numbers@[block] as int;
    let mut copy: Vec<Instruction<usize, String>> = Vec::new();
    let mut i: usize = 0;
    while i < code.len()
        invariant
            i <= code.len(),
            copy@.len() == i,
            rename == (|block: int| numbers@[block] as int),
            forall|j: int|
                0 <= j < code@.len() && (#[trigger] code@[j])@ is Jump ==> 0 <= code@[j]@->target
                    < numbers@.len(),
            forall|j: int| 0 <= j < i ==> (#[trigger] copy@[j])@ == rename_op(code@[j]@, rename),
        decreases code.len() - i,
    {
        let target = match jump_target(&code[i]) {
            Some(target) => numbers[target.number()],
            None => 0,
        };
        copy.push(with_target(&code[i], target));
        i += 1;
    }
    assert(ops_of(copy@) =~= rename_ops(ops_of(code@), rename));
    copy
}

/// The program of a graph: a node for each block that can be reached, named by
/// its number, with an edge for each jump; and the functions, each with its
/// entry node.
pub struct Graph {
    functions: FunctionTable,
    nodes: Vec<Vec<Instruction<usize, String>>>,
}

impl Graph {
    /// The registrations of the graph's functions, in order.
    pub closed spec fn registrations(&self) -> Seq<(Seq<char>, int)> {
        self.functions@
    }

    /// The graph's nodes.
    pub closed spec fn arena(&self) -> Seq<Vec<Instruction<usize, String>>> {
        self.nodes@
    }

    /// The program that the graph stands for.
    pub open spec fn model(&self) -> ProgramModel {
        ProgramModel {
            entries: entries_of(self.registrations()),
            blocks: arena_blocks(self.arena()),
        }
    }

    /// The graph stands for a well-formed program, and every registration
    /// names a node.
    pub open spec fn wf(&self) -> bool {
        &&& self.model().wf()
        &&& forall|i: int|
            0 <= i < self.registrations().len() ==> 0 <= (#[trigger] self.registrations()[i]).1
                < self.arena().len()
    }

    /// The number of instructions in the graph.
    pub open spec fn size(&self) -> int {
        total_len(self.arena(), self.arena().len() as int)
    }

    /// The number of nodes.
    pub fn node_count(&self) -> (count: usize)
        ensures
            count == self.arena().len(),
    {
        self.nodes.len()
    }

    /// The instructions of a node.
    pub fn node(&self, node: usize) -> (code: &Vec<Instruction<usize, String>>)
        requires
            node < self.arena().len(),
        ensures
            *code == self.arena()[node as int],
    {
        &self.nodes[node]
    }

    /// The nodes that a node has an edge to: the target of each of its jumps,
    /// in the order of the jumps.
    pub fn successors(&self, node: usize) -> (targets: Vec<usize>)
        requires
            node < self.arena().len(),
        ensures
            targets@.len() == edges(ops_of(self.arena()[node as int]@)).len(),
            forall|k: int|
                0 <= k < targets@.len() ==> (#[trigger] targets@[k]) as int == edges(
                    ops_of(self.arena()[node as int]@),
                )[k],
    {
        let code = &self.nodes[node];
        let ghost ops = ops_of(code@);
        let mut targets: Vec<usize> = Vec::new();
        let mut i: usize = 0;
        while i < code.len()
            invariant
                i <= code.len(),
                ops == ops_of(code@),
                targets@.len() == jump_targets(ops, i as int).len(),
                forall|k: int|
                    0 <= k < targets@.len() ==> (#[trigger] targets@[k]) as int == jump_targets(
                        ops,
                        i as int,
                    )[k],
            decreases code.len() - i,
        {
            match jump_target(&code[i]) {
                Some(target) => {
                    targets.push(target);
                },
                None => {},
            }
            i += 1;
        }
        targets
    }

    /// Builds the graph of a program: a node for every block that can be
    /// reached, in the order of the blocks, numbered from 0, with each jump led
    /// to the number of its target; and every function with the number of its
    /// entry block. The graph behaves like the program.
    pub fn from_program(from: &BasicProgram) -> (graph: Graph)
        requires
            from.wf(),
        ensures
            graph.wf(),
            renumbered(
                from.model(),
                graph.model(),
                reachable_blocks(from.model(), from.registrations(), from.arena().len() as int),
                numbering(from.model(), from.registrations(), from.arena().len() as int),
            ),
            graph.arena().len() == numbering(
                from.model(),
                from.registrations(),
                from.arena().len() as int,
            )(from.arena().len() as int),
            same_behaviour(from.model(), graph.model()),
    {
        let count = from.block_count();
        let functions = from.function_table();
        let ghost before = from.model();
        let ghost registrations = from.registrations();
        let ghost rename = numbering(before, registrations, count as int);
        let ghost kept = reachable_blocks(before, registrations, count as int);
        proof {
            from.lemma_model();
        }
        let mut marks = mark_entries(functions, count);
        mark_reachable(from, &mut marks);
        let numbers = number_marked(&marks);
        let mut nodes: Vec<Vec<Instruction<usize, String>>> = Vec::new();
        let mut b: usize = 0;
        while b < count
            invariant
                from.wf(),
                before == from.model(),
                before.blocks == arena_blocks(from.arena()),
                b <= count,
                count == from.arena().len(),
                marks@.len() == count,
                numbers@.len() == count,
                marks@ == reachable_marks(before, registrations, count as int),
                rename == numbering(before, registrations, count as int),
                forall|c: int|
                    0 <= c < count ==> (#[trigger] numbers@[c]) == count_marked(marks@, c),
                nodes@.len() == count_marked(marks@, b as int),
                forall|c: int|
                    0 <= c < b && marks@[c] ==> ops_of((#[trigger] nodes@[numbers@[c] as int])@)
                        == rename_ops(ops_of(from.arena()[c]@), rename),
                forall|node: int|
                    0 <= node < nodes@.len() ==> #[trigger] numbers_block(
                        marks@,
                        numbers@,
                        b as int,
                        node,
                    ),
            decreases count - b,
        {
            proof {
                assert forall|node: int| 0 <= node < nodes@.len() implies #[trigger] numbers_block(
                    marks@,
                    numbers@,
                    b + 1,
                    node,
                ) by {
                    assert(numbers_block(marks@, numbers@, b as int, node));
                    let c = choose|c: int|
                        0 <= c < b && marks@[c] && #[trigger] numbers@[c] == node;
                    assert(0 <= c < b + 1 && marks@[c] && numbers@[c] == node);
                }
                assert forall|c: int| 0 <= c < b && marks@[c] implies 0 <= numbers@[c]
                    < nodes@.len() by {
                    lemma_count_marked(marks@, c + 1, b as int);
                    lemma_count_marked(marks@, c, c);
                }
            }
            if marks[b] {
                let code = from.block(b);
                let ghost earlier = nodes@;
                proof {
                    assert(before.blocks.contains_key(b as int));
                    assert(before.block_wf(b as int));
                    assert forall|i: int|
                        0 <= i < code@.len() && (#[trigger] code@[i])@ is Jump implies 0
                        <= code@[i]@->target < numbers@.len() by {
                        assert(before.blocks[b as int][i] == code@[i]@);
                        assert(before.admits(b as int, before.blocks[b as int][i]));
                    }
                }
                nodes.push(renumber_block(code, &numbers));
                proof {
                    assert forall|i: int|
                        0 <= i < ops_of(code@).len() && (#[trigger] ops_of(code@)[i]) is Jump implies (
                    |block: int| numbers@[block] as int)(ops_of(code@)[i]->target) == rename(
                        ops_of(code@)[i]->target,
                    ) by {
                        assert(before.admits(b as int, before.blocks[b as int][i]));
                    }
                    lemma_rename_ops_agree(
                        ops_of(code@),
                        |block: int| numbers@[block] as int,
                        rename,
                    );
                    assert forall|c: int| 0 <= c < b + 1 && marks@[c] implies ops_of(
                        (#[trigger] nodes@[numbers@[c] as int])@,
                    ) == rename_ops(ops_of(from.arena()[c]@), rename) by {
                        if c < b {
                            lemma_count_marked(marks@, c + 1, b as int);
                            assert(nodes@[numbers@[c] as int] == earlier[numbers@[c] as int]);
                        }
                    }
                    assert forall|node: int| 0 <= node < nodes@.len() implies #[trigger] numbers_block(
                        marks@,
                        numbers@,
                        b + 1,
                        node,
                    ) by {
                        if node >= earlier.len() {
                            assert(numbers@[b as int] == node);
                        }
                    }
                }
            }
            b += 1;
        }
        let table = functions.renumbered(&numbers);
        let graph = Graph { functions: table, nodes };
        proof {
            let after = graph.model();
            lemma_entry_map_renamed(functions@, table@, rename, functions@.len());
            assert forall|name: Seq<char>| #[trigger]
                before.entries.contains_key(name) implies kept.contains(before.entries[name])
                && after.entries[name] == rename(before.entries[name]) by {
                lemma_entry_values(functions@, functions@.len(), name);
            }
            assert forall|block: int| #[trigger] kept.contains(block) implies before.blocks.contains_key(
                block,
            ) && 0 <= rename(block) && after.blocks.contains_key(rename(block))
                && after.blocks[rename(block)] == rename_ops(before.blocks[block], rename) by {
                assert(reachable(before, registrations, count as int, block));
                assert(0 <= block < count);
                assert(marks@[block]);
                assert(rename(block) == numbers@[block]);
                lemma_count_marked(marks@, block + 1, count as int);
                lemma_count_marked(marks@, block, block);
                assert(ops_of(nodes@[numbers@[block] as int]@) == rename_ops(
                    ops_of(from.arena()[block]@),
                    rename,
                ));
            }
            assert forall|block: int, i: int|
                kept.contains(block) && 0 <= i < before.blocks[block].len()
                    && #[trigger] before.blocks[block][i] is Jump implies kept.contains(
                before.blocks[block][i]->target,
            ) by {
                let target = before.blocks[block][i]->target;
                assert(before.block_wf(block));
                assert(before.admits(block, before.blocks[block][i]));
                assert(jumps_to(before.blocks[block], target));
                assert(block < count && reachable(before, registrations, count as int, block)
                    && jumps_to(before.blocks[block], target));
            }
            assert forall|earlier: int, later: int|
                #![trigger kept.contains(earlier), kept.contains(later)]
                kept.contains(earlier) && kept.contains(later) && earlier < later implies rename(
                earlier,
            ) < rename(later) by {
                lemma_count_marked(marks@, earlier + 1, later);
            }
            assert forall|block: int| #[trigger] after.blocks.contains_key(block) implies exists|
                origin: int,
            | #[trigger] kept.contains(origin) && rename(origin) == block by {
                assert(numbers_block(marks@, numbers@, count as int, block));
                let c = choose|c: int|
                    0 <= c < count && marks@[c] && #[trigger] numbers@[c] == block;
                assert(kept.contains(c) && rename(c) == block);
            }
            assert(after.entries.dom() == before.entries.dom());
            assert(renumbered(before, after, kept, rename));
            lemma_renumbered_behaviour(before, after, kept, rename);
            lemma_renumbered_wf(before, after, kept, rename);
            lemma_count_marked(marks@, 0, count as int);
            assert forall|i: int| 0 <= i < graph.registrations().len() implies 0 <= (
            #[trigger] graph.registrations()[i]).1 < graph.arena().len() by {
                let entry = functions@[i].1;
                lemma_count_marked(marks@, entry + 1, count as int);
                lemma_count_marked(marks@, entry, entry);
            }
        }
        graph
    }

    pub(crate) fn into_parts(self) -> (parts: (FunctionTable, Vec<Vec<Instruction<usize, String>>>))
        ensures
            parts.0@ == self.registrations(),
            parts.1@ == self.arena(),
    {
        (self.functions, self.nodes)
    }

    /// Puts other nodes in the place of the graph's nodes.
    pub fn replace_nodes(&mut self, nodes: Vec<Vec<Instruction<usize, String>>>)
        ensures
            final(self).registrations() == old(self).registrations(),
            final(self).arena() == nodes@,
    {
        self.nodes = nodes;
    }
}

} // verus!
