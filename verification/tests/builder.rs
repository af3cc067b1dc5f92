use calc_ir::builder::instructions::{Arithmetic, BitWise, Jump};
use calc_ir::builder::{Builder, Program};
use calc_ir::{interpret_function, Error, Instruction, Register};

#[test]
fn registers_are_numbered_from_zero_in_order() {
    let mut block = Program::new().make_fn("f".to_string()).build_block();
    assert_eq!(block.add_immediate(7), Register(0));
    assert_eq!(block.add_immediate(8), Register(1));
    assert_eq!(block.add_arithmetic(Arithmetic::Add, Register(0), Register(1)), Register(2));
    assert_eq!(block.add_bitwise(BitWise::Or, Register(0), Register(1)), Register(3));
    assert_eq!(block.add_fn_call("g".to_string(), Vec::new()), Register(4));
    assert_eq!(block.add_load_args(3), vec![Register(5), Register(6), Register(7)]);
    assert_eq!(block.add_load_args(0), Vec::new());
    assert_eq!(block.add_immediate(9), Register(8));
}

#[test]
fn blocks_of_one_function_share_the_counter() {
    let function = Program::new().make_fn("f".to_string());
    let mut first = function.build_block();
    assert_eq!(first.add_immediate(1), Register(0));
    first.add_ret(Register(0));
    let (_, function) = first.finalize();
    let mut second = function.build_block();
    assert_eq!(second.add_immediate(2), Register(1));
    // returning and jumping allocate nothing
    second.add_ret(Register(1));
    assert_eq!(second.add_immediate(3), Register(2));
}

#[test]
fn each_function_counts_from_zero() {
    let mut block = Program::new().make_fn("f".to_string()).build_block();
    assert_eq!(block.add_immediate(1), Register(0));
    assert_eq!(block.add_immediate(1), Register(1));
    block.add_ret(Register(0));
    let (id, function) = block.finalize();
    let builder = function.finalize(id);
    let mut block = builder.make_fn("g".to_string()).build_block();
    assert_eq!(block.add_immediate(1), Register(0));
}

#[test]
fn block_handles_index_the_arena_in_order() {
    let function = Program::new().make_fn("f".to_string());
    let mut block = function.build_block();
    let r = block.add_immediate(1);
    block.add_ret(r);
    let (first, function) = block.finalize();
    let mut block = function.build_block();
    block.add_cond_jump(Jump::Unconditional, first);
    let (second, function) = block.finalize();
    assert_eq!(first.index(), 0);
    assert_eq!(second.index(), 1);
    let builder = function.finalize(second);
    assert_eq!(
        builder.get_block(first),
        &vec![Instruction::LoadImmediate(1, Register(0)), Instruction::Ret(Register(0))]
    );
    assert_eq!(builder.get_block(second), &vec![Instruction::Jump(first)]);
    let program = builder.finalize().unwrap();
    assert_eq!(program.block_count(), 2);
    assert_eq!(interpret_function(&"f".to_string(), &program, &[]), Ok(1));
}

#[test]
fn each_choice_adds_its_instruction() {
    let function = Program::new().make_fn("f".to_string());
    let mut block = function.build_block();
    block.add_ret(Register(0));
    let (target, function) = block.finalize();
    let (a, b) = (Register(0), Register(1));
    let mut block = function.build_block();
    block.add_arithmetic(Arithmetic::Add, a, b);
    block.add_arithmetic(Arithmetic::Subtract, a, b);
    block.add_arithmetic(Arithmetic::Multiply, a, b);
    block.add_arithmetic(Arithmetic::Divide, a, b);
    block.add_arithmetic(Arithmetic::Mod, a, b);
    block.add_bitwise(BitWise::Or, a, b);
    block.add_bitwise(BitWise::Xor, a, b);
    block.add_bitwise(BitWise::And, a, b);
    block.add_bitwise(BitWise::ShiftLeft, a, b);
    block.add_bitwise(BitWise::ShiftRight, a, b);
    block.add_cond_jump(Jump::Equal(a, b), target);
    block.add_cond_jump(Jump::NotEqual(a, b), target);
    block.add_cond_jump(Jump::NonZero(a), target);
    block.add_cond_jump(Jump::Zero(b), target);
    block.add_cond_jump(Jump::Unconditional, target);
    let (id, function) = block.finalize();
    let builder = function.finalize(id);
    let out = |index: usize| Register(index);
    assert_eq!(
        builder.get_block(id),
        &vec![
            Instruction::Add { lhs: a, rhs: b, out: out(0) },
            Instruction::Subtract { lhs: a, rhs: b, out: out(1) },
            Instruction::Multiply { lhs: a, rhs: b, out: out(2) },
            Instruction::Divide { lhs: a, rhs: b, out: out(3) },
            Instruction::Modulo { lhs: a, rhs: b, out: out(4) },
            Instruction::BitOr { lhs: a, rhs: b, out: out(5) },
            Instruction::BitXor { lhs: a, rhs: b, out: out(6) },
            Instruction::BitAnd { lhs: a, rhs: b, out: out(7) },
            Instruction::ShiftL { lhs: a, rhs: b, out: out(8) },
            Instruction::ShiftR { lhs: a, rhs: b, out: out(9) },
            Instruction::JEqual { lhs: a, rhs: b, to: target },
            Instruction::JNotEqual { lhs: a, rhs: b, to: target },
            Instruction::JNonZero { check: a, to: target },
            Instruction::JZero { check: b, to: target },
            Instruction::Jump(target),
        ]
    );
    assert!(builder.finalize().is_ok());
}

#[test]
fn empty_program_is_valid() {
    assert!(Program::new().validate().is_ok());
    assert!(Program::new().finalize().is_ok());
}

#[test]
fn block_without_a_terminal_instruction_is_rejected() {
    let mut block = Program::new().make_fn("f".to_string()).build_block();
    block.add_immediate(1);
    let (id, function) = block.finalize();
    let builder = function.finalize(id);
    assert_eq!(builder.validate(), Err(Error::MalformedProgram));
    assert_eq!(builder.finalize().err(), Some(Error::MalformedProgram));
}

#[test]
fn empty_block_is_rejected() {
    let block = Program::new().make_fn("f".to_string()).build_block();
    let (id, function) = block.finalize();
    assert_eq!(function.finalize(id).finalize().err(), Some(Error::MalformedProgram));
}

#[test]
fn unreachable_malformed_block_is_rejected_too() {
    let function = Program::new().make_fn("f".to_string());
    let mut stray = function.build_block();
    stray.add_immediate(1);
    let (_, function) = stray.finalize();
    let mut entry = function.build_block();
    let r = entry.add_immediate(1);
    entry.add_ret(r);
    let (id, function) = entry.finalize();
    assert_eq!(function.finalize(id).finalize().err(), Some(Error::MalformedProgram));
}

#[test]
fn block_ending_in_a_conditional_jump_is_rejected() {
    let function = Program::new().make_fn("f".to_string());
    let mut target = function.build_block();
    let r = target.add_immediate(1);
    target.add_ret(r);
    let (target_id, function) = target.finalize();
    let mut entry = function.build_block();
    entry.add_cond_jump(Jump::Zero(r), target_id);
    let (id, function) = entry.finalize();
    assert_eq!(function.finalize(id).finalize().err(), Some(Error::MalformedProgram));
}

#[test]
fn instructions_after_a_terminal_one_are_accepted() {
    let mut block = Program::new().make_fn("f".to_string()).build_block();
    let one = block.add_immediate(1);
    block.add_ret(one);
    let two = block.add_immediate(2);
    block.add_ret(two);
    let (id, function) = block.finalize();
    let program = function.finalize(id).finalize().unwrap();
    assert_eq!(interpret_function(&"f".to_string(), &program, &[]), Ok(1));
}

#[test]
fn jump_into_another_function_is_rejected() {
    let mut block = Program::new().make_fn("f".to_string()).build_block();
    let r = block.add_immediate(1);
    block.add_ret(r);
    let (foreign, function) = block.finalize();
    let builder = function.finalize(foreign);

    let mut block = builder.make_fn("g".to_string()).build_block();
    block.add_cond_jump(Jump::Unconditional, foreign);
    let (id, function) = block.finalize();
    assert_eq!(function.finalize(id).finalize().err(), Some(Error::MalformedProgram));
}

#[test]
fn register_that_was_never_allocated_is_rejected() {
    let mut block = Program::new().make_fn("f".to_string()).build_block();
    let one = block.add_immediate(1);
    block.add_arithmetic(Arithmetic::Add, one, Register(2));
    block.add_ret(one);
    let (id, function) = block.finalize();
    assert_eq!(function.finalize(id).finalize().err(), Some(Error::MalformedProgram));

    let mut block = Program::new().make_fn("f".to_string()).build_block();
    block.add_ret(Register(0));
    let (id, function) = block.finalize();
    assert_eq!(function.finalize(id).finalize().err(), Some(Error::MalformedProgram));

    let mut block = Program::new().make_fn("f".to_string()).build_block();
    let one = block.add_immediate(1);
    block.add_fn_call("f".to_string(), vec![one, Register(5)]);
    block.add_ret(one);
    let (id, function) = block.finalize();
    assert_eq!(function.finalize(id).finalize().err(), Some(Error::MalformedProgram));
}

#[test]
fn register_allocated_later_in_the_function_is_accepted() {
    let function = Program::new().make_fn("f".to_string());
    let mut target = function.build_block();
    target.add_ret(Register(0));
    let (target_id, function) = target.finalize();
    let mut entry = function.build_block();
    assert_eq!(entry.add_immediate(11), Register(0));
    entry.add_cond_jump(Jump::Unconditional, target_id);
    let (id, function) = entry.finalize();
    let program = function.finalize(id).finalize().unwrap();
    assert_eq!(interpret_function(&"f".to_string(), &program, &[]), Ok(11));
}

#[test]
fn function_may_enter_at_any_block() {
    let function = Program::new().make_fn("f".to_string());
    let mut first = function.build_block();
    let one = first.add_immediate(1);
    first.add_ret(one);
    let (first_id, function) = first.finalize();
    let mut second = function.build_block();
    let two = second.add_immediate(2);
    second.add_ret(two);
    let (_, function) = second.finalize();
    let program = function.finalize(first_id).finalize().unwrap();
    assert_eq!(interpret_function(&"f".to_string(), &program, &[]), Ok(1));
}

#[test]
fn plain_builder_builds_a_program() {
    let mut block = Builder::new().build_block();
    let one = block.add_immediate(1);
    let two = block.add_immediate(2);
    let sum = block.add_arithmetic(Arithmetic::Add, one, two);
    let both = block.add_bitwise(BitWise::ShiftLeft, sum, one);
    block.add_ret(both);
    assert_eq!((one, two, sum, both), (Register(0), Register(1), Register(2), Register(3)));
    let (id, mut builder) = block.finalize();
    assert_eq!(builder.used_registers(), 4);
    builder.register_function(id, "six".to_string());

    let mut block = builder.build_block();
    let called = block.add_fn_call("six".to_string(), Vec::new());
    assert_eq!(called, Register(4));
    block.add_ret(called);
    let (id, mut builder) = block.finalize();
    builder.register_function(id, "main".to_string());
    assert_eq!(builder.allocate_register(), Register(5));
    assert_eq!(builder.used_registers(), 6);

    let program = builder.finalize();
    assert_eq!(program.lookup_function("six").map(|block| block.index()), Some(0));
    assert_eq!(program.lookup_function("main").map(|block| block.index()), Some(1));
    let program = program.finalize().unwrap();
    assert_eq!(interpret_function(&"main".to_string(), &program, &[]), Ok(6));
}

#[test]
fn plain_builder_takes_a_program_up_again() {
    let mut block = Builder::default().build_block();
    let one = block.add_immediate(1);
    block.add_ret(one);
    let (id, mut builder) = block.finalize();
    builder.register_function(id, "one".to_string());
    let used = builder.used_registers();
    let program = builder.finalize();

    let builder = Builder::from_program(program, used);
    assert_eq!(builder.used_registers(), 1);
    let mut block = builder.build_block();
    let called = block.add_fn_call("one".to_string(), Vec::new());
    assert_eq!(called, Register(1));
    let sum = block.add_arithmetic(Arithmetic::Add, called, called);
    block.add_ret(sum);
    let (id, mut builder) = block.finalize();
    builder.register_function(id, "two".to_string());
    let program = builder.finalize().finalize().unwrap();
    assert_eq!(interpret_function(&"two".to_string(), &program, &[]), Ok(2));
}

#[test]
fn function_registered_at_a_missing_block_is_rejected() {
    let mut block = Builder::new().build_block();
    let one = block.add_immediate(1);
    block.add_ret(one);
    let (id, builder) = block.finalize();
    // a handle of this program, registered in another one
    let mut other = Builder::new();
    other.register_function(id, "f".to_string());
    assert_eq!(other.finalize().finalize().err(), Some(Error::MalformedProgram));
    assert!(builder.finalize().finalize().is_ok());
}

#[test]
fn register_assigned_twice_is_rejected() {
    let mut block = Builder::new().build_block();
    let one = block.add_immediate(1);
    block.add_ret(one);
    let (id, mut builder) = block.finalize();
    builder.register_function(id, "one".to_string());
    let program = builder.finalize();

    // taken up with a count that is too low, the builder hands out register 0
    // a second time
    let mut block = Builder::from_program(program, 0).build_block();
    let again = block.add_immediate(2);
    assert_eq!(again, Register(0));
    block.add_ret(again);
    let (id, mut builder) = block.finalize();
    builder.register_function(id, "two".to_string());
    let program = builder.finalize();
    assert_eq!(program.validate(), Err(Error::MalformedProgram));
    assert_eq!(program.finalize().err(), Some(Error::MalformedProgram));
}

#[test]
fn register_assigned_once_in_each_of_two_functions_is_accepted() {
    let mut block = Program::new().make_fn("f".to_string()).build_block();
    let one = block.add_immediate(1);
    block.add_ret(one);
    let (id, function) = block.finalize();
    let builder = function.finalize(id);
    let mut block = builder.make_fn("g".to_string()).build_block();
    let two = block.add_immediate(2);
    assert_eq!(two, one);
    block.add_ret(two);
    let (id, function) = block.finalize();
    let program = function.finalize(id).finalize().unwrap();
    assert_eq!(interpret_function(&"f".to_string(), &program, &[]), Ok(1));
    assert_eq!(interpret_function(&"g".to_string(), &program, &[]), Ok(2));
}

#[test]
fn registers_of_one_function_are_assigned_once_across_its_blocks() {
    let function = Program::new().make_fn("f".to_string());
    let mut first = function.build_block();
    let a = first.add_immediate(1);
    let b = first.add_load_args(2);
    let c = first.add_fn_call("f".to_string(), vec![a]);
    first.add_ret(c);
    let (_, function) = first.finalize();
    let mut second = function.build_block();
    let d = second.add_arithmetic(Arithmetic::Add, a, c);
    second.add_ret(d);
    let (id, function) = second.finalize();
    let mut all = vec![a, b[0], b[1], c, d];
    all.dedup();
    assert_eq!(all, vec![Register(0), Register(1), Register(2), Register(3), Register(4)]);
    assert!(function.finalize(id).finalize().is_ok());
}
