//! A solver and generator for loop puzzles played on a rectangular grid of
//! numbered cells, with every decision proved by Verus.
//!
//! The board is held as one grid of `(2R+1) x (2C+1)` cells: points sit at
//! even/even positions, vertical lines at odd/even, horizontal lines at
//! even/odd and the cell numbers at odd/odd.

pub mod blocks;
pub mod completion;
pub mod construct;
pub mod cycle;
pub mod deduce;
pub mod edit;
pub mod firstcheck;
pub mod fixpoint;
pub mod generate;
pub mod grid;
pub mod group;
pub mod laws;
pub mod loopcheck;
pub mod merge;
pub mod point;
pub mod random;
pub mod rotation;
pub mod rough;
pub mod solve;
pub mod stage;
pub mod text;
