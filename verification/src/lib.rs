//! An execution core for compiled logic programs: a register-and-stack
//! virtual machine with a bindable heap, dereference-and-unify, environment
//! frames, a binding trail and choice-point backtracking.

pub mod laws;
pub mod machine;
pub mod term;

pub use machine::Wam;
pub use term::{Halted, Instruction, Outcome, Register, Term, WamError};
