use calc_ir::builder::instructions::{Arithmetic, Jump};
use calc_ir::builder::Program as Builder;
use calc_ir::optimizer::registers::RegisterSet;
use calc_ir::table::FunctionTable;
use calc_ir::{
    interpret_function, interpret_function_within, optimize_program, Error, Program, Register,
};

#[test]
fn table_gives_the_latest_block_of_a_name() {
    let mut table = FunctionTable::new();
    assert_eq!(table.lookup(&"f".to_string()), None);
    table.register("f".to_string(), 3);
    table.register("g".to_string(), 1);
    assert_eq!(table.lookup(&"f".to_string()), Some(3));
    assert_eq!(table.lookup(&"g".to_string()), Some(1));
    table.register("f".to_string(), 0);
    assert_eq!(table.lookup(&"f".to_string()), Some(0));
    assert_eq!(table.lookup(&"".to_string()), None);
}

#[test]
fn table_checks_every_registration_against_a_bound() {
    let mut table = FunctionTable::new();
    assert!(table.all_below(0));
    table.register("f".to_string(), 3);
    table.register("f".to_string(), 1);
    // the registration that a later one hides counts too
    assert!(!table.all_below(3));
    assert!(table.all_below(4));
}

#[test]
fn table_is_renumbered_entry_by_entry() {
    let mut table = FunctionTable::new();
    table.register("f".to_string(), 2);
    table.register("g".to_string(), 0);
    table.register("f".to_string(), 1);
    let renumbered = table.renumbered(&vec![10, 20, 30]);
    assert_eq!(renumbered.lookup(&"f".to_string()), Some(20));
    assert_eq!(renumbered.lookup(&"g".to_string()), Some(10));
    assert!(!renumbered.all_below(30));
    assert!(renumbered.all_below(31));
}

#[test]
fn register_set_holds_what_was_added() {
    let mut set = RegisterSet::new();
    assert!(!set.contains(Register(0)));
    set.insert(Register(3));
    set.insert(Register(3));
    set.insert(Register(0));
    assert!(set.contains(Register(3)));
    assert!(set.contains(Register(0)));
    assert!(!set.contains(Register(1)));
    set.insert_all(&vec![Register(1), Register(7), Register(1)]);
    assert!(set.contains(Register(1)));
    assert!(set.contains(Register(7)));
    assert!(!set.contains(Register(2)));

    let mut other = RegisterSet::new();
    other.insert(Register(2));
    other.absorb(&set);
    for index in [0, 1, 2, 3, 7] {
        assert!(other.contains(Register(index)));
    }
    assert!(!other.contains(Register(4)));
    assert!(!set.contains(Register(2)));

    let copy = other.duplicate();
    other.insert(Register(4));
    assert!(copy.contains(Register(2)));
    assert!(!copy.contains(Register(4)));
}

#[test]
fn valid_programs_never_run_off_a_block() {
    // branches, calls, failing arithmetic and wrong arities, run in both kinds
    // of program: every failure is one that a caller can meet
    let function = Builder::new().make_fn("f".to_string());
    let mut done = function.build_block();
    let one = done.add_immediate(1);
    let quotient = done.add_arithmetic(Arithmetic::Divide, one, Register(2));
    done.add_ret(quotient);
    let (done_id, function) = done.finalize();
    let mut entry = function.build_block();
    let arguments = entry.add_load_args(1);
    entry.add_cond_jump(Jump::Equal(arguments[0], one), done_id);
    let called = entry.add_fn_call("g".to_string(), vec![arguments[0]]);
    entry.add_cond_jump(Jump::NonZero(called), done_id);
    entry.add_cond_jump(Jump::Unconditional, done_id);
    let (entry_id, function) = entry.finalize();
    let builder = function.finalize(entry_id);
    let mut block = builder.make_fn("g".to_string()).build_block();
    let arguments = block.add_load_args(1);
    let next = block.add_fn_call("f".to_string(), vec![arguments[0]]);
    block.add_ret(next);
    let (id, function) = block.finalize();
    let program = function.finalize(id).finalize().unwrap();
    let optimized = optimize_program(&program);

    let acceptable = |result: Result<isize, Error>| {
        !matches!(result, Err(Error::MalformedProgram) | Err(Error::InvalidOpcode))
    };
    for name in ["f", "g", "h"] {
        for arguments in [vec![], vec![0], vec![1], vec![2], vec![1, 2]] {
            for depth in [0, 1, 5] {
                let name = name.to_string();
                let plain = interpret_function_within(&name, &program, &arguments, depth);
                let flat = interpret_function_within(&name, &optimized, &arguments, depth);
                assert!(acceptable(plain));
                assert_eq!(plain, flat);
            }
        }
    }
    assert_eq!(interpret_function(&"h".to_string(), &program, &[]), Err(Error::Lookup));
    assert_eq!(
        interpret_function_within(&"f".to_string(), &program, &[5], 8),
        Err(Error::CallDepthExceeded)
    );
    assert_eq!(interpret_function(&"f".to_string(), &program, &[0]), Err(Error::Arithmetic));
    assert_eq!(interpret_function(&"f".to_string(), &optimized, &[0]), Err(Error::Arithmetic));
    assert_eq!(program.get_function_entry(&"g".to_string()).map(|block| block.index()), Some(2));
}
