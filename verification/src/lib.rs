//! Discrete puzzle engines: a cycle-accurate single-register CPU, an
//! elastic rope chase over an integer grid, a tree-visibility and scenic-score
//! engine for square height grids, and a handful of smaller stream puzzles.
//!
//! Every engine evolves explicit discrete state over a finite stream of
//! commands and reduces the observations to one numeric or string answer.

pub mod cpu;
pub mod filesystem;
pub mod grid;
pub mod marker;
pub mod rope;
pub mod rps;
pub mod rucksack;
pub mod scenic;
pub mod sections;
pub mod stacks;
pub mod text;
pub mod visibility;
