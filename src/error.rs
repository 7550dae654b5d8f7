//! The failures of runs, stack primitives and solver queries.
use vstd::prelude::*;

verus! {

/// The ways a run, a stack primitive or a solver query can fail.
#[derive(Clone, Copy, PartialEq, Eq, Debug, Structural)]
pub enum EvmError {
    /// A push or a dup would take the stack past its capacity.
    StackOverflow,
    /// An item was requested beyond the current depth of the stack.
    StackUnderflow,
    /// A dup or swap depth outside `1..=16`.
    InvalidArgument,
    /// A jump whose target is not a concrete value.
    UnsupportedSymbolicJump,
    /// The solver was handed an empty constraint set.
    SolverPrecondition,
    /// Bytecode text that is not an even number of hex digits.
    MalformedInput,
}

} // verus!
