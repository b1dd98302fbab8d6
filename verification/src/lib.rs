//! A generalized Lights-Out-style puzzle engine.
//!
//! A square grid of cells holds values drawn from a finite algebraic
//! structure (a diagonal magma: a binary operation with one-sided quotients
//! and unique square roots). Pressing a cell recombines it and its orthogonal
//! neighbors with the structure's operation; presses are reversible through
//! quotients, and a branchable move history supports undo and redo.

pub mod board;
pub mod history;
pub mod laws;
pub mod magma;
mod rng;
