//! Which registers a program may still read, and what removing dead code does
//! to a program.

use vstd::prelude::*;
use crate::error::Error;
use crate::ir::Register;
use crate::model::{Condition, Op, ProgramModel};
use crate::semantics::{
    apply, assign, assign_all, holds, refines, run_block, run_function, value_at, values_at,
};

verus! {

/// Whether some operation that can be reached by running `rest`, the remainder
/// of block `block`, reads `register`. Jumps are followed into their target
/// blocks; calls are not followed into their callees. Nothing is reached past a
/// return, an unconditional jump or `Invalid`.
pub open spec fn awaited(program: ProgramModel, block: int, rest: Seq<Op>, register: Register) -> bool
    decreases block, rest.len(),
{
    if rest.len() == 0 {
        false
    } else {
        let next = rest.drop_first();
        match rest[0] {
            Op::Ret { src } => src == register,
            Op::Invalid => false,
            Op::Jump { condition, target } => {
                ||| condition.reads(register)
                ||| 0 <= target < block && program.blocks.contains_key(target) && awaited(
                    program,
                    target,
                    program.blocks[target],
                    register,
                )
                ||| !(condition is Always) && awaited(program, block, next, register)
            },
            op => op.reads(register) || awaited(program, block, next, register),
        }
    }
}

/// The registers that running `rest`, the remainder of block `block`, may
/// read.
pub open spec fn awaited_set(program: ProgramModel, block: int, rest: Seq<Op>) -> Set<Register> {
    Set::new(|register: Register| awaited(program, block, rest, register))
}

/// Whether dead-code elimination removes `op`, which `next` follows in block
/// `block`: a pure operation whose register nothing that is reached after it
/// reads.
pub open spec fn removable(program: ProgramModel, block: int, op: Op, next: Seq<Op>) -> bool {
    match op {
        Op::Load { dst, .. } => !awaited(program, block, next, dst),
        Op::Binary { dst, .. } => !awaited(program, block, next, dst),
        _ => false,
    }
}

/// The operations `rest` of block `block` without those that dead-code
/// elimination removes.
pub open spec fn prune(program: ProgramModel, block: int, rest: Seq<Op>) -> Seq<Op>
    decreases rest.len(),
{
    if rest.len() == 0 {
        Seq::empty()
    } else {
        let next = rest.drop_first();
        if removable(program, block, rest[0], next) {
            prune(program, block, next)
        } else {
            seq![rest[0]] + prune(program, block, next)
        }
    }
}

/// The program after one round of dead-code elimination: every block pruned,
/// by what the program as it was may read.
pub open spec fn pruned(program: ProgramModel) -> ProgramModel {
    ProgramModel {
        entries: program.entries,
        blocks: Map::new(
            |block: int| program.blocks.contains_key(block),
            |block: int| prune(program, block, program.blocks[block]),
        ),
    }
}

/// The program after `rounds` rounds of dead-code elimination.
pub open spec fn pruned_times(program: ProgramModel, rounds: nat) -> ProgramModel
    decreases rounds,
{
    if rounds == 0 {
        program
    } else {
        pruned(pruned_times(program, (rounds - 1) as nat))
    }
}

/// Whether running `rest`, the remainder of block `block`, stops at a division
/// or remainder by zero that dead-code elimination removes, in this invocation
/// or in one that it calls.
pub open spec fn stops_at_removed(
    program: ProgramModel,
    block: int,
    rest: Seq<Op>,
    registers: Seq<isize>,
    arguments: Seq<isize>,
    depth: nat,
) -> bool
    decreases depth, block, rest.len(),
{
    if rest.len() == 0 {
        false
    } else {
        let next = rest.drop_first();
        match rest[0] {
            Op::Load { value, dst } => stops_at_removed(
                program,
                block,
                next,
                assign(registers, dst, value),
                arguments,
                depth,
            ),
            Op::Binary { operation, lhs, rhs, dst } => match apply(
                operation,
                value_at(registers, lhs),
                value_at(registers, rhs),
            ) {
                Some(value) => stops_at_removed(
                    program,
                    block,
                    next,
                    assign(registers, dst, value),
                    arguments,
                    depth,
                ),
                None => removable(program, block, rest[0], next),
            },
            Op::Call { function, arguments: sources, dst } => {
                let values = values_at(registers, sources);
                if !program.entries.contains_key(function) || !program.blocks.contains_key(
                    program.entries[function],
                ) || depth == 0 {
                    false
                } else {
                    let entry = program.entries[function];
                    match run_block(
                        program,
                        entry,
                        program.blocks[entry],
                        Seq::empty(),
                        values,
                        (depth - 1) as nat,
                    ).result {
                        Ok(value) => stops_at_removed(
                            program,
                            block,
                            next,
                            assign(registers, dst, value),
                            arguments,
                            depth,
                        ),
                        Err(_) => stops_at_removed(
                            program,
                            entry,
                            program.blocks[entry],
                            Seq::empty(),
                            values,
                            (depth - 1) as nat,
                        ),
                    }
                }
            },
            Op::LoadArgs { registers: targets } => targets.len() == arguments.len()
                && stops_at_removed(
                program,
                block,
                next,
                assign_all(registers, targets, arguments, targets.len()),
                arguments,
                depth,
            ),
            Op::Jump { condition, target } => if !holds(condition, registers) {
                stops_at_removed(program, block, next, registers, arguments, depth)
            } else {
                0 <= target < block && program.blocks.contains_key(target) && stops_at_removed(
                    program,
                    target,
                    program.blocks[target],
                    registers,
                    arguments,
                    depth,
                )
            },
            Op::Ret { .. } => false,
            Op::Invalid => false,
        }
    }
}

/// Whether an invocation of `function` stops at a division or remainder by
/// zero that dead-code elimination removes.
pub open spec fn invocation_stops_at_removed(
    program: ProgramModel,
    function: Seq<char>,
    arguments: Seq<isize>,
    depth: nat,
) -> bool {
    program.entries.contains_key(function) && program.blocks.contains_key(
        program.entries[function],
    ) && stops_at_removed(
        program,
        program.entries[function],
        program.blocks[program.entries[function]],
        Seq::empty(),
        arguments,
        depth,
    )
}

/// A run that stops at a removed division or remainder fails on a zero
/// divisor.
pub proof fn lemma_stops_at_removed(
    program: ProgramModel,
    block: int,
    rest: Seq<Op>,
    registers: Seq<isize>,
    arguments: Seq<isize>,
    depth: nat,
)
    requires
        stops_at_removed(program, block, rest, registers, arguments, depth),
    ensures
        run_block(program, block, rest, registers, arguments, depth).result == Err::<
            isize,
            Error,
        >(Error::Arithmetic),
    decreases depth, block, rest.len(),
{
    let next = rest.drop_first();
    match rest[0] {
        Op::Load { value, dst } => {
            lemma_stops_at_removed(
                program,
                block,
                next,
                assign(registers, dst, value),
                arguments,
                depth,
            );
        },
        Op::Binary { operation, lhs, rhs, dst } => {
            match apply(operation, value_at(registers, lhs), value_at(registers, rhs)) {
                Some(value) => {
                    lemma_stops_at_removed(
                        program,
                        block,
                        next,
                        assign(registers, dst, value),
                        arguments,
                        depth,
                    );
                },
                None => {},
            }
        },
        Op::Call { function, arguments: sources, dst } => {
            let values = values_at(registers, sources);
            let entry = program.entries[function];
            let callee = run_block(
                program,
                entry,
                program.blocks[entry],
                Seq::empty(),
                values,
                (depth - 1) as nat,
            );
            match callee.result {
                Ok(value) => {
                    lemma_stops_at_removed(
                        program,
                        block,
                        next,
                        assign(registers, dst, value),
                        arguments,
                        depth,
                    );
                },
                Err(_) => {
                    lemma_stops_at_removed(
                        program,
                        entry,
                        program.blocks[entry],
                        Seq::empty(),
                        values,
                        (depth - 1) as nat,
                    );
                },
            }
        },
        Op::LoadArgs { registers: targets } => {
            lemma_stops_at_removed(
                program,
                block,
                next,
                assign_all(registers, targets, arguments, targets.len()),
                arguments,
                depth,
            );
        },
        Op::Jump { condition, target } => {
            if !holds(condition, registers) {
                lemma_stops_at_removed(program, block, next, registers, arguments, depth);
            } else {
                lemma_stops_at_removed(
                    program,
                    target,
                    program.blocks[target],
                    registers,
                    arguments,
                    depth,
                );
            }
        },
        Op::Ret { .. } => {},
        Op::Invalid => {},
    }
}

/// Two register files hold the same value in every register that running
/// `rest` may read.
pub open spec fn agree(
    program: ProgramModel,
    block: int,
    rest: Seq<Op>,
    first: Seq<isize>,
    second: Seq<isize>,
) -> bool {
    forall|register: Register| #[trigger]
        awaited(program, block, rest, register) ==> value_at(first, register) == value_at(
            second,
            register,
        )
}

/// Pruning removes operations and adds none.
pub proof fn lemma_prune_len(program: ProgramModel, block: int, rest: Seq<Op>)
    ensures
        prune(program, block, rest).len() <= rest.len(),
        prune(program, block, rest).len() == rest.len() ==> prune(program, block, rest) == rest,
    decreases rest.len(),
{
    if rest.len() > 0 {
        let next = rest.drop_first();
        lemma_prune_len(program, block, next);
        if prune(program, block, rest).len() == rest.len() {
            assert(prune(program, block, rest) =~= rest);
        }
    } else {
        assert(prune(program, block, rest) =~= rest);
    }
}

/// Every operation of a pruned block is an operation of the block, and the
/// last operation of a closed block stays the last.
pub proof fn lemma_prune_keeps(program: ProgramModel, block: int, rest: Seq<Op>)
    ensures
        forall|i: int|
            0 <= i < prune(program, block, rest).len() ==> exists|j: int|
                0 <= j < rest.len() && rest[j] == #[trigger] prune(program, block, rest)[i],
        rest.len() > 0 && !rest.last().is_pure() ==> prune(program, block, rest).len() > 0
            && prune(program, block, rest).last() == rest.last(),
    decreases rest.len(),
{
    if rest.len() > 0 {
        let next = rest.drop_first();
        let kept = prune(program, block, rest);
        lemma_prune_keeps(program, block, next);
        assert forall|i: int| 0 <= i < kept.len() implies exists|j: int|
            0 <= j < rest.len() && rest[j] == #[trigger] kept[i] by {
            if removable(program, block, rest[0], next) {
                let j = choose|j: int|
                    0 <= j < next.len() && next[j] == prune(program, block, next)[i];
                assert(rest[j + 1] == kept[i]);
            } else if i == 0 {
                assert(rest[0] == kept[0]);
            } else {
                assert(kept[i] == prune(program, block, next)[i - 1]);
                let j = choose|j: int|
                    0 <= j < next.len() && next[j] == prune(program, block, next)[i - 1];
                assert(rest[j + 1] == kept[i]);
            }
        }
        if !rest.last().is_pure() {
            if next.len() > 0 {
                assert(next.last() == rest.last());
            }
        }
    }
}

/// Writing the same values to the same registers keeps two register files in
/// agreement on a register on which they agreed.
pub proof fn lemma_assign_all_agree(
    first: Seq<isize>,
    second: Seq<isize>,
    targets: Seq<Register>,
    values: Seq<isize>,
    count: nat,
    register: Register,
)
    requires
        value_at(first, register) == value_at(second, register),
    ensures
        value_at(assign_all(first, targets, values, count), register) == value_at(
            assign_all(second, targets, values, count),
            register,
        ),
    decreases count,
{
    if count > 0 {
        lemma_assign_all_agree(first, second, targets, values, (count - 1) as nat, register);
    }
}

/// Whether running continues with the operation after `op`, on some register
/// file.
pub open spec fn falls_through(op: Op) -> bool {
    match op {
        Op::Ret { .. } => false,
        Op::Invalid => false,
        Op::Jump { condition, .. } => !(condition is Always),
        _ => true,
    }
}

/// Register files that agree on what the rest of a block may read agree on
/// what may be read after the first operation, where running can go on to it.
pub proof fn lemma_agree_next(
    program: ProgramModel,
    block: int,
    rest: Seq<Op>,
    first: Seq<isize>,
    second: Seq<isize>,
)
    requires
        rest.len() > 0,
        falls_through(rest[0]),
        agree(program, block, rest, first, second),
    ensures
        agree(program, block, rest.drop_first(), first, second),
{
    assert forall|register: Register| #[trigger]
        awaited(program, block, rest.drop_first(), register) implies value_at(first, register)
        == value_at(second, register) by {
        assert(awaited(program, block, rest, register));
    }
}

/// Agreement outlasts a write of the same value to the same register of both
/// files.
pub proof fn lemma_agree_written(
    program: ProgramModel,
    block: int,
    rest: Seq<Op>,
    first: Seq<isize>,
    second: Seq<isize>,
    target: Register,
    value: isize,
)
    requires
        agree(program, block, rest, first, second),
    ensures
        agree(program, block, rest, assign(first, target, value), assign(second, target, value)),
{
}

/// Agreement outlasts a write to one file alone, of a register that will not
/// be read.
pub proof fn lemma_agree_dead_write(
    program: ProgramModel,
    block: int,
    rest: Seq<Op>,
    first: Seq<isize>,
    second: Seq<isize>,
    target: Register,
    value: isize,
)
    requires
        agree(program, block, rest, first, second),
        !awaited(program, block, rest, target),
    ensures
        agree(program, block, rest, assign(first, target, value), second),
{
}

/// Running the rest of a block, and running what pruning leaves of it in the
/// pruned program, on register files that agree where the rest may read, end
/// alike, unless the first stops at a division or remainder that pruning
/// removes.
pub proof fn lemma_pruned_block(
    program: ProgramModel,
    block: int,
    rest: Seq<Op>,
    first: Seq<isize>,
    second: Seq<isize>,
    arguments: Seq<isize>,
    depth: nat,
)
    requires
        agree(program, block, rest, first, second),
        !stops_at_removed(program, block, rest, first, arguments, depth),
    ensures
        run_block(
            pruned(program),
            block,
            prune(program, block, rest),
            second,
            arguments,
            depth,
        ) == run_block(program, block, rest, first, arguments, depth),
    decreases depth, block, rest.len(),
{
    let after = pruned(program);
    if rest.len() > 0 {
        let op = rest[0];
        let next = rest.drop_first();
        let tail = prune(program, block, next);
        let kept = prune(program, block, rest);
        if !removable(program, block, op, next) {
            assert(kept[0] == op);
            assert(kept.drop_first() =~= tail);
        }
        match op {
            Op::Load { value, dst } => {
                let written = assign(first, dst, value);
                lemma_agree_next(program, block, rest, first, second);
                if removable(program, block, op, next) {
                    lemma_agree_dead_write(program, block, next, first, second, dst, value);
                    lemma_pruned_block(program, block, next, written, second, arguments, depth);
                } else {
                    lemma_agree_written(program, block, next, first, second, dst, value);
                    lemma_pruned_block(
                        program,
                        block,
                        next,
                        written,
                        assign(second, dst, value),
                        arguments,
                        depth,
                    );
                }
            },
            Op::Binary { operation, lhs, rhs, dst } => {
                match apply(operation, value_at(first, lhs), value_at(first, rhs)) {
                    Some(value) => {
                        let written = assign(first, dst, value);
                        lemma_agree_next(program, block, rest, first, second);
                        if removable(program, block, op, next) {
                            lemma_agree_dead_write(
                                program,
                                block,
                                next,
                                first,
                                second,
                                dst,
                                value,
                            );
                            lemma_pruned_block(
                                program,
                                block,
                                next,
                                written,
                                second,
                                arguments,
                                depth,
                            );
                        } else {
                            assert(op.reads(lhs) && op.reads(rhs));
                            assert(awaited(program, block, rest, lhs));
                            assert(awaited(program, block, rest, rhs));
                            lemma_agree_written(
                                program,
                                block,
                                next,
                                first,
                                second,
                                dst,
                                value,
                            );
                            lemma_pruned_block(
                                program,
                                block,
                                next,
                                written,
                                assign(second, dst, value),
                                arguments,
                                depth,
                            );
                        }
                    },
                    None => {
                        assert(op.reads(lhs) && op.reads(rhs));
                        assert(awaited(program, block, rest, lhs));
                        assert(awaited(program, block, rest, rhs));
                    },
                }
            },
            Op::Call { function, arguments: sources, dst } => {
                assert forall|i: int| 0 <= i < sources.len() implies value_at(first, sources[i])
                    == value_at(second, sources[i]) by {
                    assert(op.reads(sources[i]));
                    assert(awaited(program, block, rest, sources[i]));
                }
                assert(values_at(first, sources) =~= values_at(second, sources));
                let values = values_at(first, sources);
                if program.entries.contains_key(function) && program.blocks.contains_key(
                    program.entries[function],
                ) && depth > 0 {
                    let entry = program.entries[function];
                    let callee = run_block(
                        program,
                        entry,
                        program.blocks[entry],
                        Seq::empty(),
                        values,
                        (depth - 1) as nat,
                    );
                    if stops_at_removed(
                        program,
                        entry,
                        program.blocks[entry],
                        Seq::empty(),
                        values,
                        (depth - 1) as nat,
                    ) {
                        lemma_stops_at_removed(
                            program,
                            entry,
                            program.blocks[entry],
                            Seq::empty(),
                            values,
                            (depth - 1) as nat,
                        );
                    }
                    lemma_pruned_block(
                        program,
                        entry,
                        program.blocks[entry],
                        Seq::empty(),
                        Seq::empty(),
                        values,
                        (depth - 1) as nat,
                    );
                    match callee.result {
                        Ok(value) => {
                            lemma_agree_next(program, block, rest, first, second);
                            lemma_agree_written(
                                program,
                                block,
                                next,
                                first,
                                second,
                                dst,
                                value,
                            );
                            lemma_pruned_block(
                                program,
                                block,
                                next,
                                assign(first, dst, value),
                                assign(second, dst, value),
                                arguments,
                                depth,
                            );
                        },
                        Err(_) => {},
                    }
                }
            },
            Op::LoadArgs { registers: targets } => {
                if targets.len() == arguments.len() {
                    let loaded_first = assign_all(first, targets, arguments, targets.len());
                    let loaded_second = assign_all(second, targets, arguments, targets.len());
                    assert forall|register: Register| #[trigger]
                        awaited(program, block, next, register) implies value_at(
                        loaded_first,
                        register,
                    ) == value_at(loaded_second, register) by {
                        assert(awaited(program, block, rest, register));
                        lemma_assign_all_agree(
                            first,
                            second,
                            targets,
                            arguments,
                            targets.len(),
                            register,
                        );
                    }
                    lemma_pruned_block(
                        program,
                        block,
                        next,
                        loaded_first,
                        loaded_second,
                        arguments,
                        depth,
                    );
                }
            },
            Op::Jump { condition, target } => {
                match condition {
                    Condition::Always => {},
                    Condition::Equal(lhs, rhs) => {
                        assert(awaited(program, block, rest, lhs));
                        assert(awaited(program, block, rest, rhs));
                    },
                    Condition::NotEqual(lhs, rhs) => {
                        assert(awaited(program, block, rest, lhs));
                        assert(awaited(program, block, rest, rhs));
                    },
                    Condition::NonZero(check) => {
                        assert(awaited(program, block, rest, check));
                    },
                    Condition::Zero(check) => {
                        assert(awaited(program, block, rest, check));
                    },
                }
                assert(holds(condition, first) == holds(condition, second));
                if !holds(condition, first) {
                    lemma_agree_next(program, block, rest, first, second);
                    lemma_pruned_block(program, block, next, first, second, arguments, depth);
                } else if 0 <= target < block && program.blocks.contains_key(target) {
                    assert forall|register: Register| #[trigger]
                        awaited(program, target, program.blocks[target], register) implies value_at(
                        first,
                        register,
                    ) == value_at(second, register) by {
                        assert(awaited(program, block, rest, register));
                    }
                    lemma_pruned_block(
                        program,
                        target,
                        program.blocks[target],
                        first,
                        second,
                        arguments,
                        depth,
                    );
                }
            },
            Op::Ret { src } => {
                assert(awaited(program, block, rest, src));
            },
            Op::Invalid => {},
        }
    }
}

/// One round of dead-code elimination leaves an invocation as it was, with its
/// calls, unless the invocation stopped at a division or remainder by zero
/// that the round removes.
pub proof fn lemma_pruned_invocation(
    program: ProgramModel,
    function: Seq<char>,
    arguments: Seq<isize>,
    depth: nat,
)
    requires
        !invocation_stops_at_removed(program, function, arguments, depth),
    ensures
        run_function(pruned(program), function, arguments, depth) == run_function(
            program,
            function,
            arguments,
            depth,
        ),
{
    if program.entries.contains_key(function) && program.blocks.contains_key(
        program.entries[function],
    ) {
        let entry = program.entries[function];
        lemma_pruned_block(
            program,
            entry,
            program.blocks[entry],
            Seq::empty(),
            Seq::empty(),
            arguments,
            depth,
        );
    }
}

/// One round of dead-code elimination leaves every invocation as it was, with
/// its calls, unless the invocation failed on a zero divisor.
pub proof fn lemma_pruned_refines(program: ProgramModel)
    ensures
        refines(program, pruned(program)),
{
    let after = pruned(program);
    assert forall|function: Seq<char>, arguments: Seq<isize>, depth: nat|
        run_function(program, function, arguments, depth).result != Err::<isize, Error>(
            Error::Arithmetic,
        ) implies #[trigger] run_function(after, function, arguments, depth) == run_function(
        program,
        function,
        arguments,
        depth,
    ) by {
        if invocation_stops_at_removed(program, function, arguments, depth) {
            let entry = program.entries[function];
            lemma_stops_at_removed(
                program,
                entry,
                program.blocks[entry],
                Seq::empty(),
                arguments,
                depth,
            );
        }
        lemma_pruned_invocation(program, function, arguments, depth);
    }
}

/// One round of dead-code elimination leaves a well-formed program well
/// formed.
pub proof fn lemma_pruned_wf(program: ProgramModel)
    requires
        program.wf(),
    ensures
        pruned(program).wf(),
{
    let after = pruned(program);
    assert forall|block: int| #[trigger] after.blocks.contains_key(block) implies after.block_wf(
        block,
    ) by {
        let ops = program.blocks[block];
        assert(program.block_wf(block));
        lemma_prune_keeps(program, block, ops);
        assert forall|i: int| 0 <= i < after.blocks[block].len() implies after.admits(
            block,
            #[trigger] after.blocks[block][i],
        ) by {
            let j = choose|j: int| 0 <= j < ops.len() && ops[j] == after.blocks[block][i];
            assert(program.admits(block, ops[j]));
        }
    }
}

/// Rounds of dead-code elimination leave the functions of a program and the
/// numbers of its blocks as they are.
pub proof fn lemma_pruned_times_shape(program: ProgramModel, rounds: nat)
    ensures
        pruned_times(program, rounds).entries == program.entries,
        pruned_times(program, rounds).blocks.dom() == program.blocks.dom(),
    decreases rounds,
{
    if rounds > 0 {
        lemma_pruned_times_shape(program, (rounds - 1) as nat);
        assert(pruned_times(program, rounds).blocks.dom() =~= program.blocks.dom());
    }
}

} // verus!
