//! Rewrites a program's control-flow graph before it is run: builds the graph,
//! runs dead-code elimination until nothing changes, and lowers the graph to a
//! flat program.

pub mod graph;
pub mod liveness;
pub mod passes;
pub mod registers;
pub mod renaming;
pub mod structs;

use vstd::prelude::*;
use crate::ir::{decode, Instruction, Register, Step};
use crate::model::{Condition, ProgramModel};
use crate::program::{BasicProgram, Program};
use crate::semantics::{
    lemma_refines_transitive, lemma_same_behaviour_refines, refines,
};
use self::graph::{lemma_total_len_bounds, numbering, reachable_blocks};
use self::liveness::{lemma_pruned_times_shape, pruned, pruned_times};
use self::passes::{DeadCodeElimination, OptimizationPass};
use self::renaming::renumbered;
use self::structs::offsets;

pub use self::graph::Graph;
pub use self::structs::FlatProgram;

verus! {

/// Whether a list of registers holds a register.
fn holds_register(registers: &Vec<Register>, register: Register) -> (found: bool)
    ensures
        found == registers@.contains(register),
{
    let mut i: usize = 0;
    while i < registers.len()
        invariant
            i <= registers.len(),
            forall|j: int| 0 <= j < i ==> registers@[j] != register,
        decreases registers.len() - i,
    {
        if registers[i].0 == register.0 {
            return true;
        }
        i += 1;
    }
    false
}

/// Whether an instruction uses the value of a register: as an operand, as a
/// call's argument, in a jump's condition or as the value returned.
pub fn depends_on_register<BlockId: Copy + View<V = usize>, FunctionId: View<V = Seq<char>>>(
    register: Register,
    instruction: &Instruction<BlockId, FunctionId>,
) -> (depends: bool)
    ensures
        depends == instruction@.reads(register),
{
    match decode(instruction) {
        Step::Load(_, _) => false,
        Step::Binary(_, lhs, rhs, _) => lhs.0 == register.0 || rhs.0 == register.0,
        Step::Call(_, arguments, _) => holds_register(arguments, register),
        Step::LoadArgs(_) => false,
        Step::Jump(condition, _) => match condition {
            Condition::Always => false,
            Condition::Equal(lhs, rhs) => lhs.0 == register.0 || rhs.0 == register.0,
            Condition::NotEqual(lhs, rhs) => lhs.0 == register.0 || rhs.0 == register.0,
            Condition::NonZero(check) => check.0 == register.0,
            Condition::Zero(check) => check.0 == register.0,
        },
        Step::Ret(src) => src.0 == register.0,
        Step::Invalid => false,
    }
}

/// The indices of the instructions of a block that use the value of a
/// register, in increasing order.
pub fn find_dependencies<BlockId: Copy + View<V = usize>, FunctionId: View<V = Seq<char>>>(
    register: Register,
    block: &Vec<Instruction<BlockId, FunctionId>>,
) -> (indices: Vec<usize>)
    ensures
        forall|k: int|
            0 <= k < indices@.len() ==> (#[trigger] indices@[k]) < block@.len()
                && block@[indices@[k] as int]@.reads(register),
        forall|low: int, high: int|
            0 <= low < high < indices@.len() ==> (#[trigger] indices@[low]) < (
            #[trigger] indices@[high]),
        forall|i: int|
            0 <= i < block@.len() && (#[trigger] block@[i])@.reads(register) ==> indices@.contains(
                i as usize,
            ),
{
    let mut indices: Vec<usize> = Vec::new();
    let mut i: usize = 0;
    while i < block.len()
        invariant
            i <= block.len(),
            forall|k: int|
                0 <= k < indices@.len() ==> (#[trigger] indices@[k]) < i
                    && block@[indices@[k] as int]@.reads(register),
            forall|low: int, high: int|
                0 <= low < high < indices@.len() ==> (#[trigger] indices@[low]) < (
                #[trigger] indices@[high]),
            forall|j: int|
                0 <= j < i && (#[trigger] block@[j])@.reads(register) ==> indices@.contains(
                    j as usize,
                ),
        decreases block.len() - i,
    {
        if depends_on_register(register, &block[i]) {
            let ghost earlier = indices@;
            indices.push(i);
            assert forall|j: int|
                0 <= j < i + 1 && (#[trigger] block@[j])@.reads(register) implies indices@.contains(
                j as usize,
            ) by {
                if j < i {
                    let k = choose|k: int| 0 <= k < earlier.len() && earlier[k] == j as usize;
                    assert(indices@[k] == j as usize);
                } else {
                    assert(indices@[indices@.len() - 1] == j as usize);
                }
            }
        }
        i += 1;
    }
    indices
}

/// The program after `rounds` rounds of a pass.
pub open spec fn repeated<Pass: OptimizationPass>(program: ProgramModel, rounds: nat) -> ProgramModel
    decreases rounds,
{
    if rounds == 0 {
        program
    } else {
        Pass::rewritten(repeated::<Pass>(program, (rounds - 1) as nat))
    }
}

/// Whether `rounds` rounds of a pass make `settled` of `program`, and a further
/// round changes nothing.
pub open spec fn settles<Pass: OptimizationPass>(
    program: ProgramModel,
    rounds: nat,
    settled: ProgramModel,
) -> bool {
    settled == repeated::<Pass>(program, rounds) && Pass::rewritten(settled) == settled
}

/// Runs a pass again and again until a round reports no change, or fails.
/// Returns whether any round changed the graph.
pub fn run_to_fixed_point<Pass: OptimizationPass>(pass: &mut Pass, graph: &mut Graph) -> (result:
    Result<bool, Pass::Error>)
    requires
        old(graph).wf(),
    ensures
        final(graph).wf(),
        refines(old(graph).model(), final(graph).model()),
        result == Ok::<bool, Pass::Error>(true) ==> final(graph).size() < old(graph).size(),
        result == Ok::<bool, Pass::Error>(false) ==> final(graph).model() == old(graph).model(),
        result is Ok ==> exists|rounds: nat| #[trigger]
            settles::<Pass>(old(graph).model(), rounds, final(graph).model()),
        result is Err ==> Pass::can_fail(),
{
    let ghost initial = graph.model();
    let ghost initial_size = graph.size();
    let mut changed = false;
    let ghost mut rounds: nat = 0;
    proof {
        assert(refines(initial, initial));
    }
    loop
        invariant
            graph.model() == repeated::<Pass>(initial, rounds),
            graph.wf(),
            refines(initial, graph.model()),
            changed ==> graph.size() < initial_size,
            !changed ==> graph.model() == initial && graph.size() == initial_size,
            initial == old(graph).model(),
            initial_size == old(graph).size(),
        decreases graph.size(),
    {
        let ghost before = graph.model();
        let ghost size = graph.size();
        let round = pass.optimize_program(graph);
        proof {
            lemma_refines_transitive(initial, before, graph.model());
            lemma_total_len_bounds(graph.arena(), graph.arena().len() as int);
        }
        match round {
            Ok(true) => {
                changed = true;
                proof {
                    rounds = rounds + 1;
                }
            },
            Ok(false) => {
                assert(settles::<Pass>(initial, rounds, graph.model()));
                return Ok(changed);
            },
            Err(error) => {
                return Err(error);
            },
        }
    }
}

/// Whether `optimized` is what optimizing makes of a program with the given
/// registrations and the first `count` blocks of `source`: the graph of the
/// blocks that can be reached, after as many rounds of dead-code elimination
/// as it takes until a round removes nothing, with its nodes renumbered by the
/// offsets at which they start.
pub open spec fn optimization_of(
    source: ProgramModel,
    registrations: Seq<(Seq<char>, int)>,
    count: int,
    optimized: ProgramModel,
) -> bool {
    exists|graph: ProgramModel, rounds: nat|
        {
            let settled = #[trigger] pruned_times(graph, rounds);
            &&& renumbered(
                source,
                graph,
                reachable_blocks(source, registrations, count),
                numbering(source, registrations, count),
            )
            &&& pruned(settled) == settled
            &&& renumbered(settled, optimized, settled.blocks.dom(), offsets(settled))
        }
}

/// Rounds of the dead-code elimination pass are rounds of pruning.
proof fn lemma_repeated_pruning(program: ProgramModel, rounds: nat)
    ensures
        repeated::<DeadCodeElimination>(program, rounds) == pruned_times(program, rounds),
    decreases rounds,
{
    if rounds > 0 {
        lemma_repeated_pruning(program, (rounds - 1) as nat);
    }
}

/// Optimizes a program: builds its graph, eliminates dead code until a round
/// removes nothing, and lowers the graph to a flat program.
///
/// The result is well formed and behaves like the program on every invocation
/// that did not fail on a zero divisor: it ends in the same way, after the
/// same calls. It has the functions of the program, and nothing is left in it
/// that dead-code elimination would remove.
pub fn optimize_program(program: &BasicProgram) -> (optimized: FlatProgram)
    requires
        program.wf(),
    ensures
        optimized.wf(),
        optimization_of(
            program.model(),
            program.registrations(),
            program.arena().len() as int,
            optimized.model(),
        ),
        refines(program.model(), optimized.model()),
        pruned(optimized.model()) == optimized.model(),
        optimized.model().entries.dom() == program.model().entries.dom(),
{
    let mut graph = Graph::from_program(program);
    let ghost built = graph.model();
    let mut pass = DeadCodeElimination();
    let _ = run_to_fixed_point(&mut pass, &mut graph);
    let ghost settled = graph.model();
    let optimized = FlatProgram::from_graph(graph);
    proof {
        lemma_same_behaviour_refines(program.model(), built);
        lemma_same_behaviour_refines(settled, optimized.model());
        lemma_refines_transitive(program.model(), built, settled);
        lemma_refines_transitive(program.model(), settled, optimized.model());
        let rounds = choose|rounds: nat| #[trigger]
            settles::<DeadCodeElimination>(built, rounds, settled);
        lemma_repeated_pruning(built, rounds);
        assert(settled == pruned_times(built, rounds));
        lemma_pruned_times_shape(built, rounds);
    }
    optimized
}

} // verus!
