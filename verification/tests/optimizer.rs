use calc_ir::builder::instructions::{Arithmetic, Jump};
use calc_ir::builder::{Block, Program as Builder};
use calc_ir::optimizer::passes::{
    DeadCodeElimination, Flatten, OptimizationPass, Sequence, SolidifyingPass,
};
use calc_ir::optimizer::{depends_on_register, find_dependencies, run_to_fixed_point};
use calc_ir::{
    interpret_function, optimize_program, BasicProgram, BlockID, Error, FlatProgram, Graph,
    Instruction, Number, Program, Register,
};

fn single(fill: fn(&mut Block)) -> BasicProgram {
    let mut block = Builder::new().make_fn("f".to_string()).build_block();
    fill(&mut block);
    let (id, function) = block.finalize();
    function.finalize(id).finalize().unwrap()
}

fn run<P: Program<FunctionPointer = String>>(
    program: &P,
    arguments: &[Number],
) -> Result<Number, Error> {
    interpret_function(&"f".to_string(), program, arguments)
}

/// `f(n)`: `n * 2 + 1` for `n` other than 0, else 7; with dead code in both
/// blocks and a block that nothing reaches.
fn branching() -> BasicProgram {
    let function = Builder::new().make_fn("f".to_string());
    let mut stray = function.build_block();
    let zero = stray.add_immediate(0);
    stray.add_ret(zero);
    let (_, function) = stray.finalize();

    let mut on_zero = function.build_block();
    let dead = on_zero.add_immediate(1000);
    on_zero.add_arithmetic(Arithmetic::Add, dead, dead);
    let seven = on_zero.add_immediate(7);
    on_zero.add_ret(seven);
    let (on_zero_id, function) = on_zero.finalize();

    let mut entry = function.build_block();
    let arguments = entry.add_load_args(1);
    entry.add_cond_jump(Jump::Zero(arguments[0]), on_zero_id);
    let two = entry.add_immediate(2);
    let unused = entry.add_arithmetic(Arithmetic::Subtract, arguments[0], two);
    entry.add_arithmetic(Arithmetic::Multiply, unused, unused);
    let doubled = entry.add_arithmetic(Arithmetic::Multiply, arguments[0], two);
    let one = entry.add_immediate(1);
    let result = entry.add_arithmetic(Arithmetic::Add, doubled, one);
    entry.add_ret(result);
    let (entry_id, function) = entry.finalize();
    function.finalize(entry_id).finalize().unwrap()
}

#[test]
fn optimized_program_gives_the_same_results() {
    let program = branching();
    let optimized = optimize_program(&program);
    for n in [-3, -1, 0, 1, 2, 50] {
        assert_eq!(run(&optimized, &[n]), run(&program, &[n]));
    }
    assert_eq!(run(&optimized, &[0]), Ok(7));
    assert_eq!(run(&optimized, &[4]), Ok(9));
    assert_eq!(run(&optimized, &[]), Err(Error::ArgumentArity));
    assert_eq!(
        interpret_function(&"g".to_string(), &optimized, &[]),
        Err(Error::Lookup)
    );
}

#[test]
fn optimized_program_holds_only_what_is_needed() {
    let optimized = optimize_program(&branching());
    // the block that nothing reaches is gone
    assert_eq!(optimized.block_count(), 2);
    assert_eq!(optimized.block_start(0), 0);
    assert_eq!(optimized.block_start(1), 2);
    assert_eq!(optimized.len(), 9);
    assert_eq!(
        optimized.get_ir(&0),
        &[Instruction::LoadImmediate(7, Register(3)), Instruction::Ret(Register(3))][..]
    );
    assert_eq!(
        optimized.get_ir(&2),
        &[
            Instruction::LoadArgs(vec![Register(4)]),
            Instruction::JZero { check: Register(4), to: 0 },
            Instruction::LoadImmediate(2, Register(5)),
            Instruction::Multiply { lhs: Register(4), rhs: Register(5), out: Register(8) },
            Instruction::LoadImmediate(1, Register(9)),
            Instruction::Add { lhs: Register(8), rhs: Register(9), out: Register(10) },
            Instruction::Ret(Register(10)),
        ][..]
    );
}

#[test]
fn block_lookup_stops_at_the_end_of_the_block() {
    let optimized = optimize_program(&branching());
    let first = optimized.block_start(0);
    let second = optimized.block_start(1);
    // the first block is followed by another: it must not run on into it
    assert_eq!(optimized.get_ir(&first).len(), second - first);
    assert_eq!(optimized.get_ir(&first).len(), 2);
    assert_eq!(optimized.get_ir(&second).len(), optimized.len() - second);
    assert_eq!(optimized.get_ir(&second).len(), 7);
    assert_eq!(optimized.get_ir(&first).last(), Some(&Instruction::Ret(Register(3))));
}

#[test]
fn functions_enter_at_the_offsets_of_their_blocks() {
    let optimized = optimize_program(&branching());
    assert_eq!(optimized.get_function_entry(&"f".to_string()), Some(2));
    assert_eq!(optimized.get_function_entry(&"g".to_string()), None);
}

#[test]
fn dead_loads_are_removed() {
    let program = single(|block| {
        let one = block.add_immediate(1);
        block.add_immediate(2);
        block.add_ret(one);
    });
    let optimized = optimize_program(&program);
    assert_eq!(
        optimized.get_ir(&0),
        &[Instruction::LoadImmediate(1, Register(0)), Instruction::Ret(Register(0))][..]
    );
    assert_eq!(run(&optimized, &[]), Ok(1));
}

#[test]
fn code_that_only_feeds_dead_code_is_removed_in_a_later_round() {
    let program = single(|block| {
        let one = block.add_immediate(1);
        let two = block.add_immediate(2);
        let three = block.add_arithmetic(Arithmetic::Add, two, two);
        block.add_arithmetic(Arithmetic::Add, three, three);
        block.add_ret(one);
    });
    let mut graph = Graph::from_program(&program);
    let mut pass = DeadCodeElimination();
    assert_eq!(graph.node(0).len(), 5);
    assert!(matches!(pass.optimize_program(&mut graph), Ok(true)));
    assert_eq!(graph.node(0).len(), 4);
    assert!(matches!(pass.optimize_program(&mut graph), Ok(true)));
    assert_eq!(graph.node(0).len(), 3);
    assert!(matches!(pass.optimize_program(&mut graph), Ok(true)));
    assert_eq!(graph.node(0).len(), 2);
    assert!(matches!(pass.optimize_program(&mut graph), Ok(false)));
    assert_eq!(
        graph.node(0),
        &vec![Instruction::LoadImmediate(1, Register(0)), Instruction::Ret(Register(0))]
    );
}

#[test]
fn fixed_point_reports_whether_anything_changed() {
    let program = single(|block| {
        let one = block.add_immediate(1);
        let two = block.add_immediate(2);
        block.add_arithmetic(Arithmetic::Add, two, two);
        block.add_ret(one);
    });
    let mut graph = Graph::from_program(&program);
    let mut pass = DeadCodeElimination();
    assert!(matches!(run_to_fixed_point(&mut pass, &mut graph), Ok(true)));
    assert_eq!(graph.node(0).len(), 2);
    assert!(matches!(run_to_fixed_point(&mut pass, &mut graph), Ok(false)));
    assert_eq!(graph.node(0).len(), 2);
}

#[test]
fn code_read_after_a_jump_is_kept() {
    let function = Builder::new().make_fn("f".to_string());
    let mut target = function.build_block();
    // reads the register that the entry block writes
    target.add_ret(Register(0));
    let (target_id, function) = target.finalize();
    let mut entry = function.build_block();
    entry.add_immediate(5);
    entry.add_immediate(6);
    entry.add_cond_jump(Jump::Unconditional, target_id);
    let (entry_id, function) = entry.finalize();
    let program = function.finalize(entry_id).finalize().unwrap();
    let optimized = optimize_program(&program);
    assert_eq!(
        optimized.get_ir(&1),
        &[Instruction::LoadImmediate(5, Register(0)), Instruction::Jump(0)][..]
    );
    assert_eq!(run(&optimized, &[]), Ok(5));
}

#[test]
fn code_past_a_return_counts_for_nothing() {
    let program = single(|block| {
        let one = block.add_immediate(1);
        let two = block.add_immediate(2);
        block.add_ret(one);
        block.add_ret(two);
    });
    let optimized = optimize_program(&program);
    // the load of 2 is read only past the first return
    assert_eq!(
        optimized.get_ir(&0),
        &[
            Instruction::LoadImmediate(1, Register(0)),
            Instruction::Ret(Register(0)),
            Instruction::Ret(Register(1)),
        ][..]
    );
}

#[test]
fn calls_are_never_removed() {
    let mut block = Builder::new().make_fn("bad".to_string()).build_block();
    let one = block.add_immediate(1);
    let zero = block.add_immediate(0);
    let q = block.add_arithmetic(Arithmetic::Divide, one, zero);
    block.add_ret(q);
    let (id, function) = block.finalize();
    let builder = function.finalize(id);
    let mut block = builder.make_fn("f".to_string()).build_block();
    block.add_fn_call("bad".to_string(), Vec::new());
    let five = block.add_immediate(5);
    block.add_ret(five);
    let (id, function) = block.finalize();
    let program = function.finalize(id).finalize().unwrap();
    let optimized = optimize_program(&program);
    assert_eq!(run(&program, &[]), Err(Error::Arithmetic));
    assert_eq!(run(&optimized, &[]), Err(Error::Arithmetic));

    let missing = single(|block| {
        block.add_fn_call("missing".to_string(), Vec::new());
        let five = block.add_immediate(5);
        block.add_ret(five);
    });
    assert_eq!(run(&optimize_program(&missing), &[]), Err(Error::Lookup));
}

#[test]
fn load_of_arguments_is_never_removed() {
    let program = single(|block| {
        block.add_load_args(1);
        let five = block.add_immediate(5);
        block.add_ret(five);
    });
    let optimized = optimize_program(&program);
    assert_eq!(run(&optimized, &[]), Err(Error::ArgumentArity));
    assert_eq!(run(&optimized, &[1]), Ok(5));
}

#[test]
fn dead_division_by_zero_is_removed_with_its_failure() {
    let program = single(|block| {
        let one = block.add_immediate(1);
        let zero = block.add_immediate(0);
        block.add_arithmetic(Arithmetic::Divide, one, zero);
        block.add_ret(one);
    });
    let optimized = optimize_program(&program);
    assert_eq!(run(&program, &[]), Err(Error::Arithmetic));
    assert_eq!(run(&optimized, &[]), Ok(1));
}

#[test]
fn division_by_zero_that_is_read_still_fails() {
    let program = single(|block| {
        let one = block.add_immediate(1);
        let zero = block.add_immediate(0);
        let q = block.add_arithmetic(Arithmetic::Mod, one, zero);
        block.add_ret(q);
    });
    assert_eq!(run(&optimize_program(&program), &[]), Err(Error::Arithmetic));
}

#[test]
fn graph_keeps_reachable_blocks_in_order() {
    let program = branching();
    assert_eq!(program.block_count(), 3);
    let graph = Graph::from_program(&program);
    assert_eq!(graph.node_count(), 2);
    assert_eq!(graph.node(0).len(), 4);
    assert_eq!(graph.node(1).len(), 9);
    assert_eq!(graph.successors(0), Vec::<usize>::new());
    assert_eq!(graph.successors(1), vec![0]);
    assert_eq!(graph.node(1)[1], Instruction::JZero { check: Register(4), to: 0 });
}

#[test]
fn graph_has_an_edge_for_each_jump() {
    let function = Builder::new().make_fn("f".to_string());
    let mut a = function.build_block();
    a.add_ret(Register(0));
    let (a_id, function) = a.finalize();
    let mut b = function.build_block();
    b.add_cond_jump(Jump::Unconditional, a_id);
    let (b_id, function) = b.finalize();
    let mut c = function.build_block();
    let r = c.add_immediate(1);
    c.add_cond_jump(Jump::Zero(r), b_id);
    c.add_cond_jump(Jump::NonZero(r), a_id);
    c.add_cond_jump(Jump::Unconditional, b_id);
    let (c_id, function) = c.finalize();
    let program = function.finalize(c_id).finalize().unwrap();
    let graph = Graph::from_program(&program);
    assert_eq!(graph.node_count(), 3);
    assert_eq!(graph.successors(2), vec![1, 0, 1]);
    assert_eq!(graph.successors(1), vec![0]);
    assert_eq!(graph.successors(0), Vec::<usize>::new());
}

#[test]
fn flattening_alone_keeps_every_instruction() {
    let program = branching();
    let graph = Graph::from_program(&program);
    let mut pass = Flatten();
    let flat: FlatProgram = match pass.solidify_program(graph) {
        Ok(flat) => flat,
        Err(_) => panic!("flattening does not fail"),
    };
    assert_eq!(flat.block_count(), 2);
    assert_eq!(flat.len(), 13);
    assert_eq!(flat.block_start(1), 4);
    assert_eq!(flat.get_ir(&0).len(), 4);
    assert_eq!(flat.get_ir(&4).len(), 9);
    for n in [0, 1, -7] {
        assert_eq!(run(&flat, &[n]), run(&program, &[n]));
    }
}

#[test]
fn optimized_recursion_still_recurses() {
    let function = Builder::new().make_fn("f".to_string());
    let mut done = function.build_block();
    let zero = done.add_immediate(0);
    done.add_ret(zero);
    let (done_id, function) = done.finalize();
    let mut entry = function.build_block();
    let arguments = entry.add_load_args(1);
    entry.add_cond_jump(Jump::Zero(arguments[0]), done_id);
    let one = entry.add_immediate(1);
    let less = entry.add_arithmetic(Arithmetic::Subtract, arguments[0], one);
    let rest = entry.add_fn_call("f".to_string(), vec![less]);
    let sum = entry.add_arithmetic(Arithmetic::Add, rest, arguments[0]);
    entry.add_ret(sum);
    let (entry_id, function) = entry.finalize();
    let program = function.finalize(entry_id).finalize().unwrap();
    let optimized = optimize_program(&program);
    assert_eq!(run(&optimized, &[4]), Ok(10));
    assert_eq!(run(&program, &[4]), Ok(10));
}

#[test]
fn dependencies_are_the_instructions_that_read_a_register() {
    let (a, b, c) = (Register(0), Register(1), Register(2));
    let block_id: usize = 0;
    let name = "g".to_string();
    let block: Vec<Instruction<usize, String>> = vec![
        Instruction::LoadImmediate(1, a),
        Instruction::LoadArgs(vec![a, b]),
        Instruction::Add { lhs: a, rhs: b, out: c },
        Instruction::ShiftR { lhs: b, rhs: a, out: a },
        Instruction::Call { function_id: name, arguments: vec![b, a], out: c },
        Instruction::Jump(block_id),
        Instruction::JEqual { lhs: c, rhs: a, to: block_id },
        Instruction::JNotEqual { lhs: b, rhs: c, to: block_id },
        Instruction::JNonZero { check: a, to: block_id },
        Instruction::JZero { check: b, to: block_id },
        Instruction::Invalid,
        Instruction::Ret(a),
    ];
    assert_eq!(find_dependencies(a, &block), vec![2, 3, 4, 6, 8, 11]);
    assert_eq!(find_dependencies(b, &block), vec![2, 3, 4, 7, 9]);
    assert_eq!(find_dependencies(c, &block), vec![6, 7]);
    assert_eq!(find_dependencies(Register(3), &block), Vec::<usize>::new());
    assert!(!depends_on_register(a, &block[0]));
    assert!(!depends_on_register(c, &block[2]));
    assert!(depends_on_register(a, &block[11]));
    let other: Instruction<BlockID, String> = Instruction::Ret(b);
    assert!(depends_on_register(b, &other));
    assert!(!depends_on_register(a, &other));
}

#[test]
fn sequence_runs_both_passes_in_one_round() {
    let program = single(|block| {
        let one = block.add_immediate(1);
        let two = block.add_immediate(2);
        let three = block.add_arithmetic(Arithmetic::Add, two, two);
        block.add_arithmetic(Arithmetic::Add, three, three);
        block.add_ret(one);
    });
    let mut graph = Graph::from_program(&program);
    let mut pass = Sequence { first: DeadCodeElimination(), second: DeadCodeElimination() };
    assert!(matches!(pass.optimize_program(&mut graph), Ok(true)));
    assert_eq!(graph.node(0).len(), 3);
    assert!(matches!(pass.optimize_program(&mut graph), Ok(true)));
    assert_eq!(graph.node(0).len(), 2);
    assert!(matches!(pass.optimize_program(&mut graph), Ok(false)));
    assert_eq!(graph.node(0).len(), 2);

    let mut graph = Graph::from_program(&program);
    assert!(matches!(run_to_fixed_point(&mut pass, &mut graph), Ok(true)));
    assert_eq!(
        graph.node(0),
        &vec![Instruction::LoadImmediate(1, Register(0)), Instruction::Ret(Register(0))]
    );
}

#[test]
fn nodes_of_a_graph_can_be_replaced() {
    let program = single(|block| {
        let one = block.add_immediate(1);
        block.add_ret(one);
    });
    let mut graph = Graph::from_program(&program);
    graph.replace_nodes(vec![vec![
        Instruction::LoadImmediate(8, Register(0)),
        Instruction::Ret(Register(0)),
    ]]);
    assert_eq!(graph.node_count(), 1);
    assert_eq!(graph.node(0)[0], Instruction::LoadImmediate(8, Register(0)));
    let flat = FlatProgram::from_graph(graph);
    assert_eq!(run(&flat, &[]), Ok(8));
}
