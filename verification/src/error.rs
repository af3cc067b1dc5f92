//! The ways in which building or running a program can fail.

use vstd::prelude::*;

verus! {

/// Why a program was rejected or an interpretation stopped.
#[derive(Debug, Clone, Copy, PartialEq, Eq, Structural)]
pub enum Error {
    /// A function name that the program never registered.
    Lookup,
    /// Division or remainder with a zero divisor.
    Arithmetic,
    /// A function was handed a number of arguments other than the number it loads.
    ArgumentArity,
    /// The program breaks a structural rule: a block that can run off its end,
    /// a jump that does not lead to an earlier block of the same function, a
    /// register that was never allocated or is assigned to twice, a function
    /// without an entry block.
    MalformedProgram,
    /// The `Invalid` instruction was reached.
    InvalidOpcode,
    /// Calls were nested deeper than the interpreter's limit.
    CallDepthExceeded,
}

} // verus!
