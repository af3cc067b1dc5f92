//! The passes of the optimizer: what a pass owes, and dead-code elimination.

use vstd::prelude::*;
use crate::ir::{decode, ops_of, with_target, Instruction, Step};
use crate::model::{Condition, Op, ProgramModel};
use crate::optimizer::graph::{total_len, Graph};
use crate::optimizer::liveness::{
    awaited_set, lemma_prune_len, lemma_pruned_refines, lemma_pruned_wf, prune, pruned, removable,
};
use crate::optimizer::registers::RegisterSet;
use crate::optimizer::structs::FlatProgram;
use crate::program::Program;
use crate::semantics::{lemma_refines_transitive, lemma_skip, refines, same_behaviour};

verus! {

/// A pass that rewrites a graph in place.
///
/// Whatever it does, the graph stays well formed and behaves as before on
/// every invocation that did not fail on a zero divisor. What a round that
/// succeeds makes of a program depends on the program alone. The pass reports
/// whether it changed the graph; a round that did has made the graph smaller.
pub trait OptimizationPass {
    /// How the pass can fail.
    type Error;

    /// Whether the pass can fail at all.
    spec fn can_fail() -> bool;

    /// What one round of the pass makes of a program.
    spec fn rewritten(program: ProgramModel) -> ProgramModel;

    /// Rewrites the graph; `Ok(true)` if anything changed.
    fn optimize_program(&mut self, program: &mut Graph) -> (result: Result<bool, Self::Error>)
        requires
            old(program).wf(),
        ensures
            final(program).wf(),
            refines(old(program).model(), final(program).model()),
            result is Ok ==> final(program).model() == Self::rewritten(old(program).model()),
            result == Ok::<bool, Self::Error>(true) ==> final(program).size() < old(program).size(),
            result == Ok::<bool, Self::Error>(false) ==> final(program).model() == old(
                program,
            ).model() && final(program).size() == old(program).size(),
            result is Err ==> Self::can_fail(),
    ;
}

/// The pass at the end of the pipeline, which lowers a graph to a program that
/// can be run and behaves like the graph.
pub trait SolidifyingPass {
    /// How the pass can fail.
    type Error;

    /// The kind of program that the pass produces.
    type SolidProgram: Program<FunctionPointer = String>;

    /// Lowers the graph.
    fn solidify_program(&mut self, program: Graph) -> (result: Result<
        Self::SolidProgram,
        Self::Error,
    >)
        requires
            program.wf(),
        ensures
            result is Ok ==> result->Ok_0.wf() && same_behaviour(
                program.model(),
                result->Ok_0.model(),
            ),
    ;
}

/// The error of a pass that never fails.
pub struct NeverErrors();

/// Removes every pure instruction whose result nothing can read.
pub struct DeadCodeElimination();

/// The sum of the lengths of the first `count` nodes depends on those lengths
/// alone.
proof fn lemma_total_len(
    first: Seq<Vec<Instruction<usize, String>>>,
    second: Seq<Vec<Instruction<usize, String>>>,
    count: int,
)
    requires
        forall|i: int| 0 <= i < count ==> (#[trigger] first[i])@.len() == second[i]@.len(),
    ensures
        total_len(first, count) == total_len(second, count),
    decreases count,
{
    if count > 0 {
        lemma_total_len(first, second, count - 1);
    }
}

/// For each instruction of a node, whether dead-code elimination keeps it; and
/// the registers that running the node may read.
fn mark_kept(graph: &Graph, earlier: &Vec<RegisterSet>, node: usize) -> (marked: (
    Vec<bool>,
    RegisterSet,
))
    requires
        graph.wf(),
        node < graph.arena().len(),
        earlier@.len() == node,
        forall|t: int|
            0 <= t < node ==> (#[trigger] earlier@[t])@ == awaited_set(
                graph.model(),
                t,
                graph.model().blocks[t],
            ),
    ensures
        marked.0@.len() == graph.arena()[node as int]@.len(),
        forall|i: int|
            0 <= i < marked.0@.len() ==> (#[trigger] marked.0@[i]) == !removable(
                graph.model(),
                node as int,
                graph.model().blocks[node as int][i],
                graph.model().blocks[node as int].skip(i + 1),
            ),
        marked.1@ == awaited_set(graph.model(), node as int, graph.model().blocks[node as int]),
{
    let code = graph.node(node);
    let ghost model = graph.model();
    let ghost ops = model.blocks[node as int];
    let mut keep: Vec<bool> = Vec::new();
    let mut filled: usize = 0;
    while filled < code.len()
        invariant
            filled <= code.len(),
            keep@.len() == filled,
            forall|j: int| 0 <= j < filled ==> #[trigger] keep@[j],
        decreases code.len() - filled,
    {
        keep.push(true);
        filled += 1;
    }
    let mut live = RegisterSet::new();
    let mut i: usize = code.len();
    proof {
        assert(model.blocks.contains_key(node as int));
        assert(ops == ops_of(code@));
        assert(ops.skip(i as int) =~= Seq::<Op>::empty());
        assert(live@ =~= awaited_set(model, node as int, ops.skip(i as int)));
    }
    while i > 0
        invariant
            graph.wf(),
            model == graph.model(),
            node < graph.arena().len(),
            *code == graph.arena()[node as int],
            ops == model.blocks[node as int],
            ops == ops_of(code@),
            earlier@.len() == node,
            forall|t: int|
                0 <= t < node ==> (#[trigger] earlier@[t])@ == awaited_set(
                    model,
                    t,
                    model.blocks[t],
                ),
            i <= code@.len(),
            keep@.len() == code@.len(),
            forall|j: int| 0 <= j < i ==> #[trigger] keep@[j],
            live@ == awaited_set(model, node as int, ops.skip(i as int)),
            forall|j: int|
                i <= j < keep@.len() ==> (#[trigger] keep@[j]) == !removable(
                    model,
                    node as int,
                    ops[j],
                    ops.skip(j + 1),
                ),
        decreases i,
    {
        i -= 1;
        let ghost next = ops.skip(i + 1);
        let ghost rest = ops.skip(i as int);
        let ghost op = ops[i as int];
        proof {
            lemma_skip(ops, i as int);
            assert(model.blocks.contains_key(node as int));
            assert(model.block_wf(node as int));
            assert(model.admits(node as int, op));
            assert(op == code@[i as int]@);
        }
        match decode(&code[i]) {
            Step::Load(_, dst) => {
                keep.set(i, live.contains(dst));
                assert(live@ =~= awaited_set(model, node as int, rest));
            },
            Step::Binary(_, lhs, rhs, dst) => {
                keep.set(i, live.contains(dst));
                live.insert(lhs);
                live.insert(rhs);
                assert(live@ =~= awaited_set(model, node as int, rest));
            },
            Step::Call(_, arguments, _) => {
                live.insert_all(arguments);
                assert(live@ =~= awaited_set(model, node as int, rest));
            },
            Step::LoadArgs(_) => {
                assert(live@ =~= awaited_set(model, node as int, rest));
            },
            Step::Jump(condition, to) => {
                match condition {
                    Condition::Always => {
                        live = earlier[to].duplicate();
                    },
                    Condition::Equal(lhs, rhs) => {
                        live.absorb(&earlier[to]);
                        live.insert(lhs);
                        live.insert(rhs);
                    },
                    Condition::NotEqual(lhs, rhs) => {
                        live.absorb(&earlier[to]);
                        live.insert(lhs);
                        live.insert(rhs);
                    },
                    Condition::NonZero(check) => {
                        live.absorb(&earlier[to]);
                        live.insert(check);
                    },
                    Condition::Zero(check) => {
                        live.absorb(&earlier[to]);
                        live.insert(check);
                    },
                }
                assert(live@ =~= awaited_set(model, node as int, rest));
            },
            Step::Ret(src) => {
                live = RegisterSet::new();
                live.insert(src);
                assert(live@ =~= awaited_set(model, node as int, rest));
            },
            Step::Invalid => {
                live = RegisterSet::new();
                assert(live@ =~= awaited_set(model, node as int, rest));
            },
        }
    }
    assert(ops.skip(0) =~= ops);
    (keep, live)
}

/// A copy of the instructions of a node that dead-code elimination keeps.
fn copy_kept(graph: &Graph, node: usize, keep: &Vec<bool>) -> (kept: Vec<Instruction<usize, String>>)
    requires
        node < graph.arena().len(),
        keep@.len() == graph.arena()[node as int]@.len(),
        forall|i: int|
            0 <= i < keep@.len() ==> (#[trigger] keep@[i]) == !removable(
                graph.model(),
                node as int,
                graph.model().blocks[node as int][i],
                graph.model().blocks[node as int].skip(i + 1),
            ),
    ensures
        ops_of(kept@) == prune(graph.model(), node as int, graph.model().blocks[node as int]),
{
    let code = graph.node(node);
    let ghost model = graph.model();
    let ghost ops = model.blocks[node as int];
    let mut kept: Vec<Instruction<usize, String>> = Vec::new();
    let mut i: usize = 0;
    proof {
        assert(model.blocks.contains_key(node as int));
        assert(ops.skip(0) =~= ops);
        assert(ops_of(kept@) + prune(model, node as int, ops.skip(0)) =~= prune(
            model,
            node as int,
            ops,
        ));
    }
    while i < code.len()
        invariant
            model == graph.model(),
            ops == model.blocks[node as int],
            ops == ops_of(code@),
            i <= code@.len(),
            keep@.len() == code@.len(),
            forall|j: int|
                0 <= j < keep@.len() ==> (#[trigger] keep@[j]) == !removable(
                    model,
                    node as int,
                    ops[j],
                    ops.skip(j + 1),
                ),
            ops_of(kept@) + prune(model, node as int, ops.skip(i as int)) == prune(
                model,
                node as int,
                ops,
            ),
        decreases code.len() - i,
    {
        let ghost earlier = ops_of(kept@);
        proof {
            lemma_skip(ops, i as int);
        }
        if keep[i] {
            let target = match decode(&code[i]) {
                Step::Jump(_, to) => to,
                _ => 0,
            };
            kept.push(with_target(&code[i], target));
            proof {
                assert(ops_of(kept@) =~= earlier.push(ops[i as int]));
                assert(earlier.push(ops[i as int]) + prune(model, node as int, ops.skip(i + 1))
                    =~= earlier + (seq![ops[i as int]] + prune(
                    model,
                    node as int,
                    ops.skip(i + 1),
                )));
            }
        }
        i += 1;
    }
    proof {
        assert(ops.skip(i as int) =~= Seq::<Op>::empty());
        assert(ops_of(kept@) + Seq::<Op>::empty() =~= ops_of(kept@));
    }
    kept
}

impl OptimizationPass for DeadCodeElimination {
    type Error = NeverErrors;

    open spec fn can_fail() -> bool {
        false
    }

    open spec fn rewritten(program: ProgramModel) -> ProgramModel {
        pruned(program)
    }

    /// One round of dead-code elimination: prunes every node by what the graph
    /// as it was may read. Reports a change exactly when it removed
    /// something.
    fn optimize_program(&mut self, program: &mut Graph) -> (result: Result<bool, NeverErrors>)
        ensures
            result is Ok,
            final(program).model() == pruned(old(program).model()),
            result->Ok_0 == (final(program).model() != old(program).model()),
    {
        let ghost before = program.model();
        let ghost arena = program.arena();
        let count = program.node_count();
        let mut reads: Vec<RegisterSet> = Vec::new();
        let mut nodes: Vec<Vec<Instruction<usize, String>>> = Vec::new();
        let mut changed = false;
        let mut node: usize = 0;
        while node < count
            invariant
                program.wf(),
                before == program.model(),
                arena == program.arena(),
                count == arena.len(),
                node <= count,
                reads@.len() == node,
                nodes@.len() == node,
                forall|t: int|
                    0 <= t < node ==> (#[trigger] reads@[t])@ == awaited_set(
                        before,
                        t,
                        before.blocks[t],
                    ),
                forall|t: int|
                    0 <= t < node ==> ops_of((#[trigger] nodes@[t])@) == prune(
                        before,
                        t,
                        before.blocks[t],
                    ),
                total_len(nodes@, node as int) <= total_len(arena, node as int),
                changed ==> total_len(nodes@, node as int) < total_len(arena, node as int),
                !changed ==> forall|t: int|
                    0 <= t < node ==> ops_of((#[trigger] nodes@[t])@) == before.blocks[t],
            decreases count - node,
        {
            let (keep, live) = mark_kept(program, &reads, node);
            let kept = copy_kept(program, node, &keep);
            let ghost earlier = nodes@;
            proof {
                assert(before.blocks.contains_key(node as int));
                lemma_prune_len(before, node as int, before.blocks[node as int]);
                assert(ops_of(kept@).len() == kept@.len());
                assert(before.blocks[node as int].len() == arena[node as int]@.len());
            }
            if kept.len() != program.node(node).len() {
                changed = true;
            }
            nodes.push(kept);
            reads.push(live);
            proof {
                lemma_total_len(earlier, nodes@, node as int);
                assert forall|t: int| 0 <= t < node + 1 implies ops_of((#[trigger] nodes@[t])@)
                    == prune(before, t, before.blocks[t]) by {
                    if t < node {
                        assert(nodes@[t] == earlier[t]);
                    }
                }
                if !changed {
                    assert forall|t: int| 0 <= t < node + 1 implies ops_of(
                        (#[trigger] nodes@[t])@,
                    ) == before.blocks[t] by {
                        if t < node {
                            assert(nodes@[t] == earlier[t]);
                        }
                    }
                }
            }
            node += 1;
        }
        program.replace_nodes(nodes);
        proof {
            let after = program.model();
            assert(after.blocks =~= pruned(before).blocks);
            lemma_pruned_refines(before);
            lemma_pruned_wf(before);
            if changed {
                assert(total_len(program.arena(), count as int) < total_len(arena, count as int));
                if after == before {
                    lemma_total_len(program.arena(), arena, count as int);
                }
            } else {
                assert(after.blocks =~= before.blocks);
                assert forall|i: int| 0 <= i < count implies (#[trigger] program.arena()[i])@.len()
                    == arena[i]@.len() by {
                    assert(ops_of(program.arena()[i]@).len() == before.blocks[i].len());
                }
                lemma_total_len(program.arena(), arena, count as int);
            }
        }
        Ok(changed)
    }
}

/// How a sequence of two passes failed: with the error of the first pass, or
/// with that of the second.
pub enum SequenceError<First, Second> {
    First(First),
    Second(Second),
}

/// Two passes run one after the other, as one pass. A list of passes is a
/// sequence whose second pass is a sequence.
pub struct Sequence<First, Second> {
    pub first: First,
    pub second: Second,
}

impl<First: OptimizationPass, Second: OptimizationPass> OptimizationPass for Sequence<
    First,
    Second,
> {
    type Error = SequenceError<First::Error, Second::Error>;

    open spec fn can_fail() -> bool {
        First::can_fail() || Second::can_fail()
    }

    open spec fn rewritten(program: ProgramModel) -> ProgramModel {
        Second::rewritten(First::rewritten(program))
    }

    /// Runs the first pass, then the second on what the first left; reports a
    /// change if either changed the graph. Where the first fails, the second
    /// is not run.
    fn optimize_program(&mut self, program: &mut Graph) -> (result: Result<
        bool,
        SequenceError<First::Error, Second::Error>,
    >) {
        let ghost before = program.model();
        let earlier = match self.first.optimize_program(program) {
            Ok(changed) => changed,
            Err(error) => {
                return Err(SequenceError::First(error));
            },
        };
        let ghost between = program.model();
        let later = match self.second.optimize_program(program) {
            Ok(changed) => changed,
            Err(error) => {
                proof {
                    lemma_refines_transitive(before, between, program.model());
                }
                return Err(SequenceError::Second(error));
            },
        };
        proof {
            lemma_refines_transitive(before, between, program.model());
        }
        Ok(earlier || later)
    }
}

/// Lowers a graph to a [`FlatProgram`].
pub struct Flatten();

impl SolidifyingPass for Flatten {
    type Error = NeverErrors;

    type SolidProgram = FlatProgram;

    fn solidify_program(&mut self, program: Graph) -> (result: Result<FlatProgram, NeverErrors>)
        ensures
            result is Ok,
    {
        Ok(FlatProgram::from_graph(program))
    }
}

} // verus!
