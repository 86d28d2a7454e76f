//! A provable stack virtual machine: a deterministic bytecode interpreter
//! that records an execution trace, commits to the trace with a digest, and
//! synthesizes the arithmetic constraints that mirror the interpreter's
//! semantics for a zero-knowledge proving backend.

pub mod circuit;
pub mod commitment;
pub mod heap;
pub mod program;
pub mod vm;

pub use program::Instruction;
pub use program::Opcode;
