//! Programs that differ only in how their blocks are numbered.

use vstd::prelude::*;
use crate::ir::Register;
use crate::model::{Op, ProgramModel};
use crate::optimizer::liveness::{awaited, prune, pruned};
use crate::semantics::{
    apply, assign, assign_all, holds, lemma_skip, run_block, run_function, same_behaviour,
    value_at, values_at,
};

verus! {

/// An operation with its jump target renumbered.
pub open spec fn rename_op(op: Op, rename: spec_fn(int) -> int) -> Op {
    match op {
        Op::Jump { condition, target } => Op::Jump { condition, target: rename(target) },
        _ => op,
    }
}

/// A block with its jump targets renumbered.
pub open spec fn rename_ops(ops: Seq<Op>, rename: spec_fn(int) -> int) -> Seq<Op> {
    Seq::new(ops.len(), |i: int| rename_op(ops[i], rename))
}

/// Renumberings that agree on the targets of a block's jumps give the same
/// block.
pub proof fn lemma_rename_ops_agree(
    ops: Seq<Op>,
    first: spec_fn(int) -> int,
    second: spec_fn(int) -> int,
)
    requires
        forall|i: int|
            0 <= i < ops.len() && (#[trigger] ops[i]) is Jump ==> first(ops[i]->target) == second(
                ops[i]->target,
            ),
    ensures
        rename_ops(ops, first) == rename_ops(ops, second),
{
    assert(rename_ops(ops, first) =~= rename_ops(ops, second));
}

/// `after` holds the blocks `kept` of `before` under new numbers: the same
/// functions, entering at the renumbered blocks; each kept block with its jumps
/// renumbered; nothing else. The kept blocks include every entry and every
/// target of a jump from a kept block, and the new numbers keep their order.
pub open spec fn renumbered(
    before: ProgramModel,
    after: ProgramModel,
    kept: Set<int>,
    rename: spec_fn(int) -> int,
) -> bool {
    &&& after.entries.dom() == before.entries.dom()
    &&& forall|name: Seq<char>| #[trigger]
        before.entries.contains_key(name) ==> kept.contains(before.entries[name])
            && after.entries[name] == rename(before.entries[name])
    &&& forall|block: int| #[trigger]
        kept.contains(block) ==> before.blocks.contains_key(block) && 0 <= rename(block)
            && after.blocks.contains_key(rename(block)) && after.blocks[rename(block)]
            == rename_ops(before.blocks[block], rename)
    &&& forall|block: int, i: int|
        kept.contains(block) && 0 <= i < before.blocks[block].len()
            && #[trigger] before.blocks[block][i] is Jump ==> kept.contains(
            before.blocks[block][i]->target,
        )
    &&& forall|earlier: int, later: int|
        #![trigger kept.contains(earlier), kept.contains(later)]
        kept.contains(earlier) && kept.contains(later) && earlier < later ==> rename(earlier)
            < rename(later)
    &&& forall|block: int| #[trigger]
        after.blocks.contains_key(block) ==> exists|origin: int| #[trigger]
            kept.contains(origin) && rename(origin) == block
}

/// Running a kept block of a well-formed program, and running it under its
/// new number in the renumbered program, end alike.
pub proof fn lemma_renumbered_block(
    before: ProgramModel,
    after: ProgramModel,
    kept: Set<int>,
    rename: spec_fn(int) -> int,
    block: int,
    pc: int,
    registers: Seq<isize>,
    arguments: Seq<isize>,
    depth: nat,
)
    requires
        before.wf(),
        renumbered(before, after, kept, rename),
        kept.contains(block),
        0 <= pc <= before.blocks[block].len(),
    ensures
        run_block(
            after,
            rename(block),
            after.blocks[rename(block)].skip(pc),
            registers,
            arguments,
            depth,
        ) == run_block(before, block, before.blocks[block].skip(pc), registers, arguments, depth),
    decreases depth, block, before.blocks[block].len() - pc,
{
    let ops = before.blocks[block];
    let new_ops = after.blocks[rename(block)];
    assert(new_ops == rename_ops(ops, rename));
    assert(before.block_wf(block));
    if pc < ops.len() {
        lemma_skip(ops, pc);
        lemma_skip(new_ops, pc);
        assert(before.admits(block, ops[pc]));
        assert(new_ops[pc] == rename_op(ops[pc], rename));
        match ops[pc] {
            Op::Load { value, dst } => {
                lemma_renumbered_block(
                    before,
                    after,
                    kept,
                    rename,
                    block,
                    pc + 1,
                    assign(registers, dst, value),
                    arguments,
                    depth,
                );
            },
            Op::Binary { operation, lhs, rhs, dst } => {
                match apply(operation, value_at(registers, lhs), value_at(registers, rhs)) {
                    Some(value) => {
                        lemma_renumbered_block(
                            before,
                            after,
                            kept,
                            rename,
                            block,
                            pc + 1,
                            assign(registers, dst, value),
                            arguments,
                            depth,
                        );
                    },
                    None => {},
                }
            },
            Op::Call { function, arguments: sources, dst } => {
                let values = values_at(registers, sources);
                assert(after.entries.contains_key(function) == before.entries.contains_key(
                    function,
                ));
                if before.entries.contains_key(function) && depth > 0 {
                    let entry = before.entries[function];
                    assert(kept.contains(entry));
                    assert(before.blocks[entry].skip(0) =~= before.blocks[entry]);
                    assert(after.blocks[rename(entry)].skip(0) =~= after.blocks[rename(entry)]);
                    lemma_renumbered_block(
                        before,
                        after,
                        kept,
                        rename,
                        entry,
                        0,
                        Seq::empty(),
                        values,
                        (depth - 1) as nat,
                    );
                    let callee = run_block(
                        before,
                        entry,
                        before.blocks[entry],
                        Seq::empty(),
                        values,
                        (depth - 1) as nat,
                    );
                    match callee.result {
                        Ok(value) => {
                            lemma_renumbered_block(
                                before,
                                after,
                                kept,
                                rename,
                                block,
                                pc + 1,
                                assign(registers, dst, value),
                                arguments,
                                depth,
                            );
                        },
                        Err(_) => {},
                    }
                }
            },
            Op::LoadArgs { registers: targets } => {
                if targets.len() == arguments.len() {
                    lemma_renumbered_block(
                        before,
                        after,
                        kept,
                        rename,
                        block,
                        pc + 1,
                        assign_all(registers, targets, arguments, targets.len()),
                        arguments,
                        depth,
                    );
                }
            },
            Op::Jump { condition, target } => {
                if !holds(condition, registers) {
                    lemma_renumbered_block(
                        before,
                        after,
                        kept,
                        rename,
                        block,
                        pc + 1,
                        registers,
                        arguments,
                        depth,
                    );
                } else {
                    assert(kept.contains(target));
                    assert(before.blocks[target].skip(0) =~= before.blocks[target]);
                    assert(after.blocks[rename(target)].skip(0) =~= after.blocks[rename(target)]);
                    lemma_renumbered_block(
                        before,
                        after,
                        kept,
                        rename,
                        target,
                        0,
                        registers,
                        arguments,
                        depth,
                    );
                }
            },
            Op::Ret { src } => {},
            Op::Invalid => {},
        }
    } else {
        assert(ops.skip(pc) =~= Seq::empty());
        assert(new_ops.skip(pc) =~= Seq::empty());
    }
}

/// A well-formed program and its renumbering behave alike.
pub proof fn lemma_renumbered_behaviour(
    before: ProgramModel,
    after: ProgramModel,
    kept: Set<int>,
    rename: spec_fn(int) -> int,
)
    requires
        before.wf(),
        renumbered(before, after, kept, rename),
    ensures
        same_behaviour(before, after),
{
    assert forall|function: Seq<char>, arguments: Seq<isize>, depth: nat|
        #[trigger] run_function(after, function, arguments, depth) == run_function(
            before,
            function,
            arguments,
            depth,
        ) by {
        assert(after.entries.contains_key(function) == before.entries.contains_key(function));
        if before.entries.contains_key(function) {
            let entry = before.entries[function];
            assert(kept.contains(entry));
            assert(before.blocks[entry].skip(0) =~= before.blocks[entry]);
            assert(after.blocks[rename(entry)].skip(0) =~= after.blocks[rename(entry)]);
            lemma_renumbered_block(
                before,
                after,
                kept,
                rename,
                entry,
                0,
                Seq::empty(),
                arguments,
                depth,
            );
        }
    }
}

/// The renumbering of a well-formed program is well formed.
pub proof fn lemma_renumbered_wf(
    before: ProgramModel,
    after: ProgramModel,
    kept: Set<int>,
    rename: spec_fn(int) -> int,
)
    requires
        before.wf(),
        renumbered(before, after, kept, rename),
    ensures
        after.wf(),
{
    assert forall|name: Seq<char>| #[trigger]
        after.entries.contains_key(name) implies after.blocks.contains_key(
        after.entries[name],
    ) by {
        assert(before.entries.contains_key(name));
        assert(kept.contains(before.entries[name]));
    }
    assert forall|block: int| #[trigger] after.blocks.contains_key(block) implies after.block_wf(
        block,
    ) by {
        let origin = choose|origin: int| #[trigger]
            kept.contains(origin) && rename(origin) == block;
        let ops = before.blocks[origin];
        assert(before.block_wf(origin));
        assert(after.blocks[block] == rename_ops(ops, rename));
        assert forall|i: int| 0 <= i < after.blocks[block].len() implies after.admits(
            block,
            #[trigger] after.blocks[block][i],
        ) by {
            assert(before.admits(origin, ops[i]));
            let op = ops[i];
            let new_op = rename_op(op, rename);
            assert(after.blocks[block][i] == new_op);
            assert forall|register: Register|
                new_op.reads(register) || new_op.writes(register) implies register.0
                < usize::MAX by {
                assert(op.reads(register) || op.writes(register));
            }
            if op is Jump {
                assert(kept.contains(op->target));
            }
        }
    }
}

/// Renumbering changes nothing in what the rest of a kept block may read.
pub proof fn lemma_renumbered_awaited(
    before: ProgramModel,
    after: ProgramModel,
    kept: Set<int>,
    rename: spec_fn(int) -> int,
    block: int,
    pc: int,
    register: Register,
)
    requires
        before.wf(),
        renumbered(before, after, kept, rename),
        kept.contains(block),
        0 <= pc <= before.blocks[block].len(),
    ensures
        awaited(after, rename(block), after.blocks[rename(block)].skip(pc), register) == awaited(
            before,
            block,
            before.blocks[block].skip(pc),
            register,
        ),
    decreases block, before.blocks[block].len() - pc,
{
    let ops = before.blocks[block];
    let new_ops = after.blocks[rename(block)];
    assert(new_ops == rename_ops(ops, rename));
    assert(before.block_wf(block));
    if pc < ops.len() {
        lemma_skip(ops, pc);
        lemma_skip(new_ops, pc);
        assert(before.admits(block, ops[pc]));
        assert(new_ops[pc] == rename_op(ops[pc], rename));
        match ops[pc] {
            Op::Jump { condition, target } => {
                assert(kept.contains(target));
                assert(before.blocks[target].skip(0) =~= before.blocks[target]);
                assert(after.blocks[rename(target)].skip(0) =~= after.blocks[rename(target)]);
                lemma_renumbered_awaited(before, after, kept, rename, target, 0, register);
                lemma_renumbered_awaited(before, after, kept, rename, block, pc + 1, register);
            },
            Op::Ret { .. } => {},
            Op::Invalid => {},
            _ => {
                lemma_renumbered_awaited(before, after, kept, rename, block, pc + 1, register);
            },
        }
    } else {
        assert(ops.skip(pc) =~= Seq::empty());
        assert(new_ops.skip(pc) =~= Seq::empty());
    }
}

/// Pruning the rest of a renumbered block gives the renumbering of what
/// pruning leaves of the block.
pub proof fn lemma_renumbered_prune(
    before: ProgramModel,
    after: ProgramModel,
    kept: Set<int>,
    rename: spec_fn(int) -> int,
    block: int,
    pc: int,
)
    requires
        before.wf(),
        renumbered(before, after, kept, rename),
        kept.contains(block),
        0 <= pc <= before.blocks[block].len(),
    ensures
        prune(after, rename(block), after.blocks[rename(block)].skip(pc)) == rename_ops(
            prune(before, block, before.blocks[block].skip(pc)),
            rename,
        ),
    decreases before.blocks[block].len() - pc,
{
    let ops = before.blocks[block];
    let new_ops = after.blocks[rename(block)];
    assert(new_ops == rename_ops(ops, rename));
    if pc < ops.len() {
        lemma_skip(ops, pc);
        lemma_skip(new_ops, pc);
        assert(new_ops[pc] == rename_op(ops[pc], rename));
        lemma_renumbered_prune(before, after, kept, rename, block, pc + 1);
        match ops[pc] {
            Op::Load { dst, .. } => {
                lemma_renumbered_awaited(before, after, kept, rename, block, pc + 1, dst);
            },
            Op::Binary { dst, .. } => {
                lemma_renumbered_awaited(before, after, kept, rename, block, pc + 1, dst);
            },
            _ => {},
        }
        let tail = prune(before, block, ops.skip(pc + 1));
        assert(rename_ops(seq![ops[pc]] + tail, rename) =~= seq![new_ops[pc]] + rename_ops(
            tail,
            rename,
        ));
    } else {
        assert(ops.skip(pc) =~= Seq::empty());
        assert(new_ops.skip(pc) =~= Seq::empty());
        assert(rename_ops(Seq::<Op>::empty(), rename) =~= Seq::<Op>::empty());
    }
}

/// Where dead-code elimination finds nothing to remove in a well-formed
/// program, it finds nothing to remove in its renumbering.
pub proof fn lemma_renumbered_settled(
    before: ProgramModel,
    after: ProgramModel,
    kept: Set<int>,
    rename: spec_fn(int) -> int,
)
    requires
        before.wf(),
        renumbered(before, after, kept, rename),
        pruned(before) == before,
    ensures
        pruned(after) == after,
{
    assert forall|block: int| after.blocks.contains_key(block) implies #[trigger] pruned(
        after,
    ).blocks[block] == after.blocks[block] by {
        let origin = choose|origin: int| #[trigger]
            kept.contains(origin) && rename(origin) == block;
        lemma_renumbered_prune(before, after, kept, rename, origin, 0);
        assert(before.blocks[origin].skip(0) =~= before.blocks[origin]);
        assert(after.blocks[block].skip(0) =~= after.blocks[block]);
        assert(pruned(before).blocks[origin] == before.blocks[origin]);
    }
    assert(pruned(after).blocks =~= after.blocks);
}

} // verus!
