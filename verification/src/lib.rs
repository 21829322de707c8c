//! A compiler back-end for a small, statically typed language: a mid-level
//! intermediate representation of basic blocks, the classical dataflow
//! analyses and SSA construction over it, lowering to a register-oriented
//! abstract instruction list, and a byte-exact x86-64 encoder that emits a
//! position-independent stream of machine code.

pub mod assembly;
pub mod dataflow;
pub mod dce;
pub mod dominance_frontiers;
pub mod dominator_tree;
pub mod index;
pub mod mir;
pub mod mir_lowering;
pub mod ssa;
