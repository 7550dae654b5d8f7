//! Symbolic execution of EVM bytecode: a symbolic stack machine, a
//! difference-logic constraint extractor and a Bellman-Ford based solver.
pub mod decode;
pub mod driver;
pub mod error;
pub mod extract;
pub mod handlers;
pub mod machine;
pub mod opcodes;
pub mod solve;
pub mod sym_stack;
