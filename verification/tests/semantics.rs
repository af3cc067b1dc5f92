use calc_ir::builder::instructions::{Arithmetic, BitWise, Jump};
use calc_ir::builder::{Block, Program};
use calc_ir::{interpret_function, interpret_function_within, BasicProgram, Error, Number, Register};

/// A program with one function `f` whose only block is filled by `fill`.
fn single(fill: fn(&mut Block)) -> BasicProgram {
    let mut block = Program::new().make_fn("f".to_string()).build_block();
    fill(&mut block);
    let (id, function) = block.finalize();
    function.finalize(id).finalize().unwrap()
}

fn run(program: &BasicProgram, arguments: &[Number]) -> Result<Number, Error> {
    interpret_function(&"f".to_string(), program, arguments)
}

/// The value of `lhs op rhs`, computed by a one-block function.
fn arithmetic(operation: Arithmetic, lhs: Number, rhs: Number) -> Result<Number, Error> {
    let mut block = Program::new().make_fn("f".to_string()).build_block();
    let a = block.add_immediate(lhs);
    let b = block.add_immediate(rhs);
    let c = block.add_arithmetic(operation, a, b);
    block.add_ret(c);
    let (id, function) = block.finalize();
    let program = function.finalize(id).finalize().unwrap();
    run(&program, &[])
}

fn bitwise(operation: BitWise, lhs: Number, rhs: Number) -> Result<Number, Error> {
    let mut block = Program::new().make_fn("f".to_string()).build_block();
    let a = block.add_immediate(lhs);
    let b = block.add_immediate(rhs);
    let c = block.add_bitwise(operation, a, b);
    block.add_ret(c);
    let (id, function) = block.finalize();
    let program = function.finalize(id).finalize().unwrap();
    run(&program, &[])
}

#[test]
fn constant_function_returns_its_constant() {
    for value in [0, 1, -1, 42, Number::MAX, Number::MIN] {
        let mut block = Program::new().make_fn("f".to_string()).build_block();
        let r = block.add_immediate(value);
        block.add_ret(r);
        let (id, function) = block.finalize();
        let program = function.finalize(id).finalize().unwrap();
        assert_eq!(run(&program, &[]), Ok(value));
        assert_eq!(run(&program, &[7, 8, 9]), Ok(value));
    }
}

#[test]
fn unregistered_function_is_a_lookup_error() {
    let program = single(|block| {
        let r = block.add_immediate(1);
        block.add_ret(r);
    });
    assert_eq!(
        interpret_function(&"missing".to_string(), &program, &[]),
        Err(Error::Lookup)
    );
    let empty = Program::new().finalize().unwrap();
    assert_eq!(interpret_function(&"f".to_string(), &empty, &[]), Err(Error::Lookup));
}

#[test]
fn call_of_unregistered_function_is_a_lookup_error() {
    let program = single(|block| {
        let r = block.add_fn_call("missing".to_string(), Vec::new());
        block.add_ret(r);
    });
    assert_eq!(run(&program, &[]), Err(Error::Lookup));
}

#[test]
fn add_subtract_multiply() {
    assert_eq!(arithmetic(Arithmetic::Add, 1, 2), Ok(3));
    assert_eq!(arithmetic(Arithmetic::Subtract, 1, 2), Ok(-1));
    assert_eq!(arithmetic(Arithmetic::Multiply, -3, 7), Ok(-21));
}

#[test]
fn arithmetic_wraps_around() {
    assert_eq!(arithmetic(Arithmetic::Add, Number::MAX, 1), Ok(Number::MIN));
    assert_eq!(arithmetic(Arithmetic::Subtract, Number::MIN, 1), Ok(Number::MAX));
    assert_eq!(arithmetic(Arithmetic::Multiply, Number::MAX, 2), Ok(-2));
    assert_eq!(arithmetic(Arithmetic::Divide, Number::MIN, -1), Ok(Number::MIN));
    assert_eq!(arithmetic(Arithmetic::Mod, Number::MIN, -1), Ok(0));
}

#[test]
fn division_rounds_towards_zero() {
    assert_eq!(arithmetic(Arithmetic::Divide, 7, 2), Ok(3));
    assert_eq!(arithmetic(Arithmetic::Divide, -7, 2), Ok(-3));
    assert_eq!(arithmetic(Arithmetic::Divide, 7, -2), Ok(-3));
    assert_eq!(arithmetic(Arithmetic::Divide, -7, -2), Ok(3));
    assert_eq!(arithmetic(Arithmetic::Mod, 7, 2), Ok(1));
    assert_eq!(arithmetic(Arithmetic::Mod, -7, 2), Ok(-1));
    assert_eq!(arithmetic(Arithmetic::Mod, 7, -2), Ok(1));
    assert_eq!(arithmetic(Arithmetic::Mod, -7, -2), Ok(-1));
}

#[test]
fn zero_divisor_is_an_arithmetic_error() {
    assert_eq!(arithmetic(Arithmetic::Divide, 5, 0), Err(Error::Arithmetic));
    assert_eq!(arithmetic(Arithmetic::Mod, 5, 0), Err(Error::Arithmetic));
    assert_eq!(arithmetic(Arithmetic::Divide, 0, 0), Err(Error::Arithmetic));
}

#[test]
fn bitwise_operations() {
    assert_eq!(bitwise(BitWise::Or, 0b1100, 0b1010), Ok(0b1110));
    assert_eq!(bitwise(BitWise::Xor, 0b1100, 0b1010), Ok(0b0110));
    assert_eq!(bitwise(BitWise::And, 0b1100, 0b1010), Ok(0b1000));
    assert_eq!(bitwise(BitWise::Or, -1, 5), Ok(-1));
    assert_eq!(bitwise(BitWise::And, -1, 5), Ok(5));
    assert_eq!(bitwise(BitWise::Xor, -1, 5), Ok(-6));
}

#[test]
fn shifts_take_their_amount_modulo_the_width() {
    let bits = Number::BITS as Number;
    assert_eq!(bitwise(BitWise::ShiftLeft, 1, 4), Ok(16));
    assert_eq!(bitwise(BitWise::ShiftRight, 16, 4), Ok(1));
    assert_eq!(bitwise(BitWise::ShiftRight, -8, 1), Ok(-4));
    assert_eq!(bitwise(BitWise::ShiftLeft, 1, bits + 1), Ok(2));
    assert_eq!(bitwise(BitWise::ShiftRight, 4, bits + 1), Ok(2));
    assert_eq!(bitwise(BitWise::ShiftLeft, 1, bits), Ok(1));
    assert_eq!(bitwise(BitWise::ShiftLeft, 1, -1), Ok(Number::MIN));
    assert_eq!(bitwise(BitWise::ShiftLeft, 3, bits - 1), Ok(Number::MIN));
}

#[test]
fn unwritten_register_holds_zero() {
    // the block reads register 1 before anything wrote to it
    let program = single(|block| {
        let one = block.add_immediate(5);
        let later = Register(one.0 + 1);
        let sum = block.add_arithmetic(Arithmetic::Add, one, later);
        assert_eq!(sum, later);
        block.add_ret(sum);
    });
    assert_eq!(run(&program, &[]), Ok(5));
}

#[test]
fn arguments_are_loaded_in_order() {
    let program = single(|block| {
        let arguments = block.add_load_args(2);
        let difference = block.add_arithmetic(Arithmetic::Subtract, arguments[0], arguments[1]);
        block.add_ret(difference);
    });
    assert_eq!(run(&program, &[10, 3]), Ok(7));
    assert_eq!(run(&program, &[3, 10]), Ok(-7));
}

#[test]
fn wrong_number_of_arguments_is_an_arity_error() {
    let program = single(|block| {
        let arguments = block.add_load_args(2);
        block.add_ret(arguments[0]);
    });
    assert_eq!(run(&program, &[]), Err(Error::ArgumentArity));
    assert_eq!(run(&program, &[1]), Err(Error::ArgumentArity));
    assert_eq!(run(&program, &[1, 2, 3]), Err(Error::ArgumentArity));
    assert_eq!(run(&program, &[1, 2]), Ok(1));
}

#[test]
fn function_without_load_args_ignores_its_arguments() {
    let program = single(|block| {
        let r = block.add_immediate(9);
        block.add_ret(r);
    });
    assert_eq!(run(&program, &[1, 2, 3]), Ok(9));
}

#[test]
fn call_passes_values_and_stores_the_result() {
    let mut block = Program::new().make_fn("twice".to_string()).build_block();
    let arguments = block.add_load_args(1);
    let doubled = block.add_arithmetic(Arithmetic::Add, arguments[0], arguments[0]);
    block.add_ret(doubled);
    let (id, function) = block.finalize();
    let builder = function.finalize(id);

    let mut block = builder.make_fn("f".to_string()).build_block();
    let arguments = block.add_load_args(1);
    let once = block.add_fn_call("twice".to_string(), vec![arguments[0]]);
    let again = block.add_fn_call("twice".to_string(), vec![once]);
    block.add_ret(again);
    let (id, function) = block.finalize();
    let program = function.finalize(id).finalize().unwrap();

    assert_eq!(run(&program, &[5]), Ok(20));
    assert_eq!(interpret_function(&"twice".to_string(), &program, &[-4]), Ok(-8));
}

#[test]
fn callee_arity_error_reaches_the_caller() {
    let mut block = Program::new().make_fn("one".to_string()).build_block();
    let arguments = block.add_load_args(1);
    block.add_ret(arguments[0]);
    let (id, function) = block.finalize();
    let builder = function.finalize(id);

    let mut block = builder.make_fn("f".to_string()).build_block();
    let r = block.add_fn_call("one".to_string(), Vec::new());
    block.add_ret(r);
    let (id, function) = block.finalize();
    let program = function.finalize(id).finalize().unwrap();
    assert_eq!(run(&program, &[]), Err(Error::ArgumentArity));
}

#[test]
fn callee_arithmetic_error_reaches_the_caller() {
    let mut block = Program::new().make_fn("bad".to_string()).build_block();
    let one = block.add_immediate(1);
    let zero = block.add_immediate(0);
    let q = block.add_arithmetic(Arithmetic::Divide, one, zero);
    block.add_ret(q);
    let (id, function) = block.finalize();
    let builder = function.finalize(id);

    let mut block = builder.make_fn("f".to_string()).build_block();
    let r = block.add_fn_call("bad".to_string(), Vec::new());
    block.add_ret(r);
    let (id, function) = block.finalize();
    let program = function.finalize(id).finalize().unwrap();
    assert_eq!(run(&program, &[]), Err(Error::Arithmetic));
}

/// `f(n)`: jumps to a block that returns 100 if the condition holds on
/// `(n, 3)`, else returns 200.
fn branch(jump: fn(Register, Register) -> Jump) -> BasicProgram {
    let function = Program::new().make_fn("f".to_string());
    // registers 0 and 1 are the argument and the constant 3 of the entry block
    let mut taken = function.build_block();
    let hundred = taken.add_immediate(100);
    taken.add_ret(hundred);
    let (taken_id, function) = taken.finalize();

    let mut entry = function.build_block();
    let arguments = entry.add_load_args(1);
    let three = entry.add_immediate(3);
    entry.add_cond_jump(jump(arguments[0], three), taken_id);
    let two_hundred = entry.add_immediate(200);
    entry.add_ret(two_hundred);
    let (entry_id, function) = entry.finalize();
    function.finalize(entry_id).finalize().unwrap()
}

#[test]
fn jump_if_equal() {
    let program = branch(|a, b| Jump::Equal(a, b));
    assert_eq!(run(&program, &[3]), Ok(100));
    assert_eq!(run(&program, &[4]), Ok(200));
}

#[test]
fn jump_if_not_equal() {
    let program = branch(|a, b| Jump::NotEqual(a, b));
    assert_eq!(run(&program, &[3]), Ok(200));
    assert_eq!(run(&program, &[4]), Ok(100));
}

#[test]
fn jump_if_non_zero() {
    let program = branch(|a, _| Jump::NonZero(a));
    assert_eq!(run(&program, &[0]), Ok(200));
    assert_eq!(run(&program, &[-1]), Ok(100));
}

#[test]
fn jump_if_zero() {
    let program = branch(|a, _| Jump::Zero(a));
    assert_eq!(run(&program, &[0]), Ok(100));
    assert_eq!(run(&program, &[5]), Ok(200));
}

#[test]
fn values_pass_across_a_jump() {
    let function = Program::new().make_fn("f".to_string());
    // the entry block will load the argument into register 2; the target,
    // built first, reads it from there
    let mut target = function.build_block();
    let ten = target.add_immediate(10);
    let sum = target.add_arithmetic(Arithmetic::Add, ten, Register(2));
    target.add_ret(sum);
    let (target_id, function) = target.finalize();

    let mut entry = function.build_block();
    let arguments = entry.add_load_args(1);
    assert_eq!(arguments, vec![Register(2)]);
    entry.add_cond_jump(Jump::Unconditional, target_id);
    let (entry_id, function) = entry.finalize();
    let program = function.finalize(entry_id).finalize().unwrap();
    assert_eq!(run(&program, &[5]), Ok(15));
    assert_eq!(run(&program, &[-10]), Ok(0));
}

/// `count(n)`: 0 if `n` is 0, else `count(n - 1) + 2`.
fn counting() -> BasicProgram {
    let function = Program::new().make_fn("count".to_string());
    let mut done = function.build_block();
    let zero = done.add_immediate(0);
    done.add_ret(zero);
    let (done_id, function) = done.finalize();

    let mut entry = function.build_block();
    let arguments = entry.add_load_args(1);
    entry.add_cond_jump(Jump::Zero(arguments[0]), done_id);
    let one = entry.add_immediate(1);
    let less = entry.add_arithmetic(Arithmetic::Subtract, arguments[0], one);
    let rest = entry.add_fn_call("count".to_string(), vec![less]);
    let two = entry.add_immediate(2);
    let sum = entry.add_arithmetic(Arithmetic::Add, rest, two);
    entry.add_ret(sum);
    let (entry_id, function) = entry.finalize();
    function.finalize(entry_id).finalize().unwrap()
}

#[test]
fn recursion_ends_when_the_program_ends_it() {
    let program = counting();
    let name = "count".to_string();
    assert_eq!(interpret_function(&name, &program, &[0]), Ok(0));
    assert_eq!(interpret_function(&name, &program, &[1]), Ok(2));
    assert_eq!(interpret_function(&name, &program, &[50]), Ok(100));
}

#[test]
fn calls_nest_no_deeper_than_the_limit() {
    let program = counting();
    let name = "count".to_string();
    // count(3) nests three calls below the first invocation
    assert_eq!(interpret_function_within(&name, &program, &[3], 3), Ok(6));
    assert_eq!(
        interpret_function_within(&name, &program, &[3], 2),
        Err(Error::CallDepthExceeded)
    );
    assert_eq!(interpret_function_within(&name, &program, &[0], 0), Ok(0));
    assert_eq!(
        interpret_function_within(&name, &program, &[1], 0),
        Err(Error::CallDepthExceeded)
    );
    // a recursion without end is stopped by the limit
    assert_eq!(
        interpret_function_within(&name, &program, &[-1], 100),
        Err(Error::CallDepthExceeded)
    );
}

#[test]
fn lookup_error_comes_before_the_depth_limit() {
    let program = single(|block| {
        let r = block.add_fn_call("missing".to_string(), Vec::new());
        block.add_ret(r);
    });
    assert_eq!(
        interpret_function_within(&"f".to_string(), &program, &[], 0),
        Err(Error::Lookup)
    );
}

#[test]
fn later_registration_of_a_name_wins() {
    let function = Program::new().make_fn("f".to_string());
    let mut first = function.build_block();
    let one = first.add_immediate(1);
    first.add_ret(one);
    let (first_id, function) = first.finalize();
    let builder = function.finalize(first_id);

    let function = builder.make_fn("f".to_string());
    let mut second = function.build_block();
    let two = second.add_immediate(2);
    second.add_ret(two);
    let (second_id, function) = second.finalize();
    let builder = function.finalize(second_id);

    assert_eq!(builder.lookup_function("f"), Some(second_id));
    assert_eq!(builder.lookup_function("g"), None);
    let program = builder.finalize().unwrap();
    assert_eq!(run(&program, &[]), Ok(2));
}
