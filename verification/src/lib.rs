//! Verified solvers for a collection of small puzzles.
//!
//! The centerpiece is the keypad-chain minimizer in [`keypad`]: it computes
//! the least number of presses an outermost operator needs in order to drive
//! a chain of indirectly controlled keypads so that the final one types a
//! given code.

pub mod keypad;
pub mod register_vm;
pub mod robots;
pub mod claw;
pub mod towels;
pub mod memory_grid;
pub mod warehouse;
pub mod lan;
pub mod gates;
pub mod reports;
pub mod pairs;
