//! A small register-based intermediate representation for a calculator
//! language: the instruction set, programs and their builders, an interpreter,
//! and an optimizer that rewrites a program's control-flow graph.
//!
//! Every executable function is stated against one mathematical model, the
//! [`model::ProgramModel`] of a program and the meaning that
//! [`semantics::run_function`] gives it.
//!
//! The rules of a program that can be run:
//! - every block ends in a return or an unconditional jump;
//! - a jump leads to a block that was built before it, in the same function;
//! - a register is used only if its function allocated it, and is assigned to
//!   at most once in a function;
//! - every function enters at a block of the program.
//!
//! The builders refuse nothing while a program is assembled;
//! [`builder::Program::finalize`] checks the rules and hands out a
//! [`BasicProgram`] only if all of them hold. The interpreter follows jumps in
//! a loop and recurses for calls only, as deep as its limit allows.

pub mod builder;
pub mod error;
pub mod interpreter;
pub mod ir;
pub mod model;
pub mod optimizer;
pub mod program;
pub mod semantics;
pub mod table;

pub use error::Error;
pub use interpreter::{interpret_function, interpret_function_within};
pub use ir::{Instruction, Number, Register};
pub use optimizer::{optimize_program, FlatProgram, Graph};
pub use program::{BasicProgram, BlockID, Program};
