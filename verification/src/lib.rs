//! Verified solvers for a set of small text puzzles.
//!
//! Each module is a self-contained batch transformation from input text to a
//! numeric or string answer: calorie tallies, a scored hand game, backpack
//! item analysis, range overlap counting, a cargo rearrangement simulator,
//! and a datastream marker scan.  File reading and printing live outside the
//! library; every function here is pure computation with a contract.

pub mod backpack;
pub mod calories;
pub mod cargo_sim;
pub mod datastream;
pub mod hand_game;
pub mod ranges;
pub mod text;
