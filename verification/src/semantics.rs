//! What it means to run a program.
//!
//! [`run_function`] gives, for a program, a function name, the arguments and a
//! limit on the nesting of calls, the result of the invocation and the calls
//! that it performs, in order.

use vstd::prelude::*;
use crate::error::Error;
use crate::ir::Register;
use crate::model::{BinaryOp, Condition, Op, ProgramModel};

verus! {

/// The value of a register: what the file holds at its index, zero beyond the
/// file's end.
pub open spec fn value_at(registers: Seq<isize>, register: Register) -> isize {
    if register.0 < registers.len() {
        registers[register.0 as int]
    } else {
        0
    }
}

/// The register file after a write: grown with zeros where the index lies
/// beyond its end, then updated at the index.
pub open spec fn assign(registers: Seq<isize>, register: Register, value: isize) -> Seq<isize> {
    let grown = if register.0 < registers.len() {
        registers
    } else {
        registers + Seq::new((register.0 + 1 - registers.len()) as nat, |i: int| 0isize)
    };
    grown.update(register.0 as int, value)
}

/// The values of several registers, in order.
pub open spec fn values_at(registers: Seq<isize>, sources: Seq<Register>) -> Seq<isize> {
    Seq::new(sources.len(), |i: int| value_at(registers, sources[i]))
}

/// The register file after the first `count` of `values` were written to the
/// first `count` of `targets`, from left to right.
pub open spec fn assign_all(
    registers: Seq<isize>,
    targets: Seq<Register>,
    values: Seq<isize>,
    count: nat,
) -> Seq<isize>
    decreases count,
{
    if count == 0 {
        registers
    } else {
        assign(
            assign_all(registers, targets, values, (count - 1) as nat),
            targets[count - 1],
            values[count - 1],
        )
    }
}

/// The result of a binary operation, `None` for a division or remainder by
/// zero. Sums, differences, products and quotients wrap around; shifts take
/// their amount modulo the width of a number.
pub open spec fn apply(operation: BinaryOp, lhs: isize, rhs: isize) -> Option<isize> {
    match operation {
        BinaryOp::Add => Some(lhs.wrapping_add(rhs)),
        BinaryOp::Subtract => Some(lhs.wrapping_sub(rhs)),
        BinaryOp::Multiply => Some(lhs.wrapping_mul(rhs)),
        BinaryOp::Divide => if rhs == 0 {
            None
        } else {
            match lhs.checked_div(rhs) {
                Some(quotient) => Some(quotient),
                None => Some(isize::MIN),
            }
        },
        BinaryOp::Modulo => if rhs == 0 {
            None
        } else {
            match lhs.checked_rem(rhs) {
                Some(remainder) => Some(remainder),
                None => Some(0),
            }
        },
        BinaryOp::BitOr => Some(lhs | rhs),
        BinaryOp::BitXor => Some(lhs ^ rhs),
        BinaryOp::BitAnd => Some(lhs & rhs),
        BinaryOp::ShiftLeft => Some(lhs.wrapping_shl(rhs as u32)),
        BinaryOp::ShiftRight => Some(lhs.wrapping_shr(rhs as u32)),
    }
}

/// Whether a jump with this condition is taken on the given register file.
pub open spec fn holds(condition: Condition, registers: Seq<isize>) -> bool {
    match condition {
        Condition::Always => true,
        Condition::Equal(lhs, rhs) => value_at(registers, lhs) == value_at(registers, rhs),
        Condition::NotEqual(lhs, rhs) => value_at(registers, lhs) != value_at(registers, rhs),
        Condition::NonZero(check) => value_at(registers, check) != 0,
        Condition::Zero(check) => value_at(registers, check) == 0,
    }
}

/// One performed call: the function invoked and the values handed to it.
pub ghost struct CallEvent {
    pub function: Seq<char>,
    pub arguments: Seq<isize>,
}

/// How an invocation ends, and the calls it performed on the way, nested calls
/// included, in the order in which they began.
pub ghost struct Outcome {
    pub result: Result<isize, Error>,
    pub calls: Seq<CallEvent>,
}

impl Outcome {
    /// A failure before any call.
    pub open spec fn fail(error: Error) -> Outcome {
        Outcome { result: Err(error), calls: Seq::empty() }
    }

    /// This outcome, after the calls in `earlier`.
    pub open spec fn after(self, earlier: Seq<CallEvent>) -> Outcome {
        Outcome { result: self.result, calls: earlier + self.calls }
    }
}

/// Runs the operations `rest`, the remainder of block `block`, on the register
/// file `registers`, in an invocation with the arguments `arguments` that may
/// nest calls `depth` deep.
///
/// A taken jump continues with the target block on the same register file. A
/// call runs the callee's entry block on an empty register file; its failure
/// is the caller's failure. Running off the end of a block, or jumping
/// anywhere but to an earlier block of the program, is `MalformedProgram`.
pub open spec fn run_block(
    program: ProgramModel,
    block: int,
    rest: Seq<Op>,
    registers: Seq<isize>,
    arguments: Seq<isize>,
    depth: nat,
) -> Outcome
    decreases depth, block, rest.len(),
{
    if rest.len() == 0 {
        Outcome::fail(Error::MalformedProgram)
    } else {
        let next = rest.drop_first();
        match rest[0] {
            Op::Load { value, dst } => run_block(
                program,
                block,
                next,
                assign(registers, dst, value),
                arguments,
                depth,
            ),
            Op::Binary { operation, lhs, rhs, dst } => match apply(
                operation,
                value_at(registers, lhs),
                value_at(registers, rhs),
            ) {
                Some(value) => run_block(
                    program,
                    block,
                    next,
                    assign(registers, dst, value),
                    arguments,
                    depth,
                ),
                None => Outcome::fail(Error::Arithmetic),
            },
            Op::Call { function, arguments: sources, dst } => {
                let values = values_at(registers, sources);
                if !program.entries.contains_key(function) || !program.blocks.contains_key(
                    program.entries[function],
                ) {
                    Outcome::fail(Error::Lookup)
                } else if depth == 0 {
                    Outcome::fail(Error::CallDepthExceeded)
                } else {
                    let entry = program.entries[function];
                    let begun = seq![CallEvent { function, arguments: values }];
                    let callee = run_block(
                        program,
                        entry,
                        program.blocks[entry],
                        Seq::empty(),
                        values,
                        (depth - 1) as nat,
                    );
                    match callee.result {
                        Ok(value) => run_block(
                            program,
                            block,
                            next,
                            assign(registers, dst, value),
                            arguments,
                            depth,
                        ).after(begun + callee.calls),
                        Err(_) => callee.after(begun),
                    }
                }
            },
            Op::LoadArgs { registers: targets } => if targets.len() == arguments.len() {
                run_block(
                    program,
                    block,
                    next,
                    assign_all(registers, targets, arguments, targets.len()),
                    arguments,
                    depth,
                )
            } else {
                Outcome::fail(Error::ArgumentArity)
            },
            Op::Jump { condition, target } => if !holds(condition, registers) {
                run_block(program, block, next, registers, arguments, depth)
            } else if 0 <= target < block && program.blocks.contains_key(target) {
                run_block(program, target, program.blocks[target], registers, arguments, depth)
            } else {
                Outcome::fail(Error::MalformedProgram)
            },
            Op::Ret { src } => Outcome { result: Ok(value_at(registers, src)), calls: Seq::empty() },
            Op::Invalid => Outcome::fail(Error::InvalidOpcode),
        }
    }
}

/// Invokes the function `function` on `arguments`: runs its entry block on an
/// empty register file. A name without an entry block is `Lookup`.
pub open spec fn run_function(
    program: ProgramModel,
    function: Seq<char>,
    arguments: Seq<isize>,
    depth: nat,
) -> Outcome {
    if !program.entries.contains_key(function) || !program.blocks.contains_key(
        program.entries[function],
    ) {
        Outcome::fail(Error::Lookup)
    } else {
        run_block(
            program,
            program.entries[function],
            program.blocks[program.entries[function]],
            Seq::empty(),
            arguments,
            depth,
        )
    }
}

/// A register holds what was last written to it, and a write changes no other
/// register.
pub proof fn lemma_assign(registers: Seq<isize>, target: Register, value: isize, other: Register)
    ensures
        value_at(assign(registers, target, value), other) == if other == target {
            value
        } else {
            value_at(registers, other)
        },
{
}

/// The first of the remaining operations of a block, and what remains after
/// it.
pub proof fn lemma_skip(ops: Seq<Op>, pc: int)
    requires
        0 <= pc < ops.len(),
    ensures
        ops.skip(pc).len() > 0,
        ops.skip(pc)[0] == ops[pc],
        ops.skip(pc).drop_first() == ops.skip(pc + 1),
{
    assert(ops.skip(pc).drop_first() =~= ops.skip(pc + 1));
}

/// In a well-formed program, running a block from any of its operations ends
/// with a value or with an error that a caller can meet: it never runs off the
/// end of a block, never leaves the program and never reaches `Invalid`.
pub proof fn lemma_run_block_never_faults(
    program: ProgramModel,
    block: int,
    pc: int,
    registers: Seq<isize>,
    arguments: Seq<isize>,
    depth: nat,
)
    requires
        program.wf(),
        program.blocks.contains_key(block),
        0 <= pc < program.blocks[block].len(),
    ensures
        run_block(
            program,
            block,
            program.blocks[block].skip(pc),
            registers,
            arguments,
            depth,
        ).result != Err::<isize, Error>(Error::MalformedProgram),
        run_block(
            program,
            block,
            program.blocks[block].skip(pc),
            registers,
            arguments,
            depth,
        ).result != Err::<isize, Error>(Error::InvalidOpcode),
    decreases depth, block, program.blocks[block].len() - pc,
{
    let ops = program.blocks[block];
    let rest = ops.skip(pc);
    let next = rest.drop_first();
    lemma_skip(ops, pc);
    assert(program.block_wf(block));
    assert(program.admits(block, ops[pc]));
    if !ops[pc].is_terminal() {
        assert(pc + 1 < ops.len());
    }
    match ops[pc] {
        Op::Load { value, dst } => {
            lemma_run_block_never_faults(
                program,
                block,
                pc + 1,
                assign(registers, dst, value),
                arguments,
                depth,
            );
        },
        Op::Binary { operation, lhs, rhs, dst } => {
            match apply(operation, value_at(registers, lhs), value_at(registers, rhs)) {
                Some(value) => {
                    lemma_run_block_never_faults(
                        program,
                        block,
                        pc + 1,
                        assign(registers, dst, value),
                        arguments,
                        depth,
                    );
                },
                None => {},
            }
        },
        Op::Call { function, arguments: sources, dst } => {
            let values = values_at(registers, sources);
            if program.entries.contains_key(function) && program.blocks.contains_key(
                program.entries[function],
            ) && depth > 0 {
                let entry = program.entries[function];
                assert(program.block_wf(entry));
                assert(program.blocks[entry].skip(0) =~= program.blocks[entry]);
                lemma_run_block_never_faults(
                    program,
                    entry,
                    0,
                    Seq::empty(),
                    values,
                    (depth - 1) as nat,
                );
                let callee = run_block(
                    program,
                    entry,
                    program.blocks[entry],
                    Seq::empty(),
                    values,
                    (depth - 1) as nat,
                );
                match callee.result {
                    Ok(value) => {
                        lemma_run_block_never_faults(
                            program,
                            block,
                            pc + 1,
                            assign(registers, dst, value),
                            arguments,
                            depth,
                        );
                    },
                    Err(_) => {},
                }
            }
        },
        Op::LoadArgs { registers: targets } => {
            if targets.len() == arguments.len() {
                lemma_run_block_never_faults(
                    program,
                    block,
                    pc + 1,
                    assign_all(registers, targets, arguments, targets.len()),
                    arguments,
                    depth,
                );
            }
        },
        Op::Jump { condition, target } => {
            if !holds(condition, registers) {
                lemma_run_block_never_faults(program, block, pc + 1, registers, arguments, depth);
            } else {
                assert(program.block_wf(target));
                assert(program.blocks[target].skip(0) =~= program.blocks[target]);
                lemma_run_block_never_faults(program, target, 0, registers, arguments, depth);
            }
        },
        Op::Ret { src } => {},
        Op::Invalid => {},
    }
}

/// In a well-formed program, every invocation ends with a value or with an
/// error that a caller can meet: `Lookup`, `Arithmetic`, `ArgumentArity` or
/// `CallDepthExceeded`.
pub proof fn lemma_run_function_never_faults(
    program: ProgramModel,
    function: Seq<char>,
    arguments: Seq<isize>,
    depth: nat,
)
    requires
        program.wf(),
    ensures
        run_function(program, function, arguments, depth).result != Err::<isize, Error>(
            Error::MalformedProgram,
        ),
        run_function(program, function, arguments, depth).result != Err::<isize, Error>(
            Error::InvalidOpcode,
        ),
{
    if program.entries.contains_key(function) && program.blocks.contains_key(
        program.entries[function],
    ) {
        let entry = program.entries[function];
        assert(program.block_wf(entry));
        assert(program.blocks[entry].skip(0) =~= program.blocks[entry]);
        lemma_run_block_never_faults(program, entry, 0, Seq::empty(), arguments, depth);
    }
}

/// A function whose entry block loads a constant and returns it yields that
/// constant, whatever its arguments and however deep calls may nest, and
/// performs no call.
pub proof fn lemma_constant_function(
    program: ProgramModel,
    function: Seq<char>,
    value: isize,
    register: Register,
    arguments: Seq<isize>,
    depth: nat,
)
    requires
        program.entries.contains_key(function),
        program.blocks.contains_key(program.entries[function]),
        program.blocks[program.entries[function]] == seq![
            Op::Load { value, dst: register },
            Op::Ret { src: register },
        ],
    ensures
        run_function(program, function, arguments, depth) == (Outcome {
            result: Ok(value),
            calls: Seq::empty(),
        }),
{
    let entry = program.entries[function];
    let ops = program.blocks[entry];
    let registers = assign(Seq::empty(), register, value);
    lemma_assign(Seq::empty(), register, value, register);
    assert(ops.drop_first() =~= seq![Op::Ret { src: register }]);
    assert(run_block(program, entry, ops.drop_first(), registers, arguments, depth) == (Outcome {
        result: Ok(value),
        calls: Seq::empty(),
    }));
}

/// An invocation of a name that the program never registered fails with
/// `Lookup`, before any call.
pub proof fn lemma_unregistered_function(
    program: ProgramModel,
    function: Seq<char>,
    arguments: Seq<isize>,
    depth: nat,
)
    requires
        !program.entries.contains_key(function),
    ensures
        run_function(program, function, arguments, depth) == Outcome::fail(Error::Lookup),
{
}

/// Two programs behave alike: every invocation ends in the same way in both,
/// after the same calls.
pub open spec fn same_behaviour(first: ProgramModel, second: ProgramModel) -> bool {
    forall|function: Seq<char>, arguments: Seq<isize>, depth: nat|
        #[trigger] run_function(second, function, arguments, depth) == run_function(
            first,
            function,
            arguments,
            depth,
        )
}

/// The second program behaves like the first wherever the first does not fail
/// on a zero divisor: every such invocation ends in the same way in both, after
/// the same calls.
pub open spec fn refines(first: ProgramModel, second: ProgramModel) -> bool {
    forall|function: Seq<char>, arguments: Seq<isize>, depth: nat|
        run_function(first, function, arguments, depth).result != Err::<isize, Error>(
            Error::Arithmetic,
        ) ==> #[trigger] run_function(second, function, arguments, depth) == run_function(
            first,
            function,
            arguments,
            depth,
        )
}

/// Programs that behave alike refine each other.
pub proof fn lemma_same_behaviour_refines(first: ProgramModel, second: ProgramModel)
    requires
        same_behaviour(first, second),
    ensures
        refines(first, second),
{
}

/// Refinement carries over a chain of programs.
pub proof fn lemma_refines_transitive(
    first: ProgramModel,
    second: ProgramModel,
    third: ProgramModel,
)
    requires
        refines(first, second),
        refines(second, third),
    ensures
        refines(first, third),
{
    assert forall|function: Seq<char>, arguments: Seq<isize>, depth: nat|
        run_function(first, function, arguments, depth).result != Err::<isize, Error>(
            Error::Arithmetic,
        ) implies #[trigger] run_function(third, function, arguments, depth) == run_function(
        first,
        function,
        arguments,
        depth,
    ) by {
        assert(run_function(second, function, arguments, depth) == run_function(
            first,
            function,
            arguments,
            depth,
        ));
    }
}

} // verus!
