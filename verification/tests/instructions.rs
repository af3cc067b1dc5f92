use calc_ir::ir::{copy_registers, decode, jump_target, with_target, Step};
use calc_ir::model::{BinaryOp, Condition};
use calc_ir::optimizer::graph::renumber_block;
use calc_ir::program::BlockHandle;
use calc_ir::{Instruction, Register};

type Numbered = Instruction<usize, String>;

fn sample() -> Vec<Numbered> {
    let (a, b, c) = (Register(0), Register(1), Register(2));
    vec![
        Instruction::LoadImmediate(-5, a),
        Instruction::Call { function_id: "g".to_string(), arguments: vec![a, b], out: c },
        Instruction::Ret(c),
        Instruction::LoadArgs(vec![b, a]),
        Instruction::Jump(4),
        Instruction::JEqual { lhs: a, rhs: b, to: 3 },
        Instruction::JNotEqual { lhs: a, rhs: b, to: 2 },
        Instruction::JNonZero { check: c, to: 1 },
        Instruction::JZero { check: c, to: 0 },
        Instruction::Add { lhs: a, rhs: b, out: c },
        Instruction::Subtract { lhs: a, rhs: b, out: c },
        Instruction::Multiply { lhs: a, rhs: b, out: c },
        Instruction::Divide { lhs: a, rhs: b, out: c },
        Instruction::Modulo { lhs: a, rhs: b, out: c },
        Instruction::BitOr { lhs: a, rhs: b, out: c },
        Instruction::BitXor { lhs: a, rhs: b, out: c },
        Instruction::BitAnd { lhs: a, rhs: b, out: c },
        Instruction::ShiftL { lhs: a, rhs: b, out: c },
        Instruction::ShiftR { lhs: a, rhs: b, out: c },
        Instruction::Invalid,
    ]
}

#[test]
fn every_instruction_is_rebuilt_from_its_parts() {
    for instruction in sample() {
        let rebuilt: Numbered = match decode(&instruction) {
            Step::Load(value, dst) => Instruction::LoadImmediate(value, dst),
            Step::Binary(operation, lhs, rhs, dst) => Instruction::binary(operation, lhs, rhs, dst),
            Step::Call(function, arguments, dst) => Instruction::Call {
                function_id: function.clone(),
                arguments: arguments.clone(),
                out: dst,
            },
            Step::LoadArgs(registers) => Instruction::LoadArgs(registers.clone()),
            Step::Jump(condition, to) => Instruction::jump(condition, to),
            Step::Ret(src) => Instruction::Ret(src),
            Step::Invalid => Instruction::Invalid,
        };
        assert_eq!(rebuilt, instruction);
    }
}

#[test]
fn binary_operations_are_told_apart() {
    let (a, b, c) = (Register(0), Register(1), Register(2));
    let made: Numbered = Instruction::binary(BinaryOp::Modulo, a, b, c);
    assert_eq!(made, Instruction::Modulo { lhs: a, rhs: b, out: c });
    assert!(matches!(decode(&made), Step::Binary(BinaryOp::Modulo, _, _, _)));
    let made: Numbered = Instruction::binary(BinaryOp::ShiftRight, b, a, c);
    assert_eq!(made, Instruction::ShiftR { lhs: b, rhs: a, out: c });
}

#[test]
fn conditions_are_told_apart() {
    let (a, b) = (Register(0), Register(1));
    let made: Numbered = Instruction::jump(Condition::NotEqual(a, b), 9);
    assert_eq!(made, Instruction::JNotEqual { lhs: a, rhs: b, to: 9 });
    let made: Numbered = Instruction::jump(Condition::Always, 2);
    assert_eq!(made, Instruction::Jump(2));
    assert!(matches!(decode(&made), Step::Jump(Condition::Always, 2)));
}

#[test]
fn only_jumps_have_a_target() {
    let targets: Vec<Option<usize>> = sample().iter().map(jump_target).collect();
    let mut expected = vec![None; 20];
    expected[4] = Some(4);
    expected[5] = Some(3);
    expected[6] = Some(2);
    expected[7] = Some(1);
    expected[8] = Some(0);
    assert_eq!(targets, expected);
}

#[test]
fn a_copy_differs_in_the_target_of_a_jump_only() {
    for instruction in sample() {
        let copy = with_target(&instruction, 17);
        match jump_target(&instruction) {
            Some(_) => {
                assert_eq!(jump_target(&copy), Some(17));
                assert_eq!(with_target(&copy, jump_target(&instruction).unwrap()), instruction);
            }
            None => assert_eq!(copy, instruction),
        }
    }
}

#[test]
fn a_block_is_renumbered_jump_by_jump() {
    let block = sample();
    let numbers = vec![100, 101, 102, 103, 104];
    let copy = renumber_block(&block, &numbers);
    assert_eq!(copy.len(), block.len());
    for (index, instruction) in block.iter().enumerate() {
        match jump_target(instruction) {
            Some(target) => assert_eq!(jump_target(&copy[index]), Some(100 + target)),
            None => assert_eq!(&copy[index], instruction),
        }
    }
    assert_eq!(copy[5], Instruction::JEqual { lhs: Register(0), rhs: Register(1), to: 103 });
}

#[test]
fn registers_are_copied_in_order() {
    let registers = vec![Register(4), Register(0), Register(4)];
    assert_eq!(copy_registers(&registers), registers);
    assert_eq!(copy_registers(&Vec::new()), Vec::new());
}

#[test]
fn a_number_is_its_own_handle() {
    assert_eq!(7usize.number(), 7);
}
