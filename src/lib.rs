//! Puzzle solutions whose logic is verified: a round-based item-passing
//! simulation among monkeys, and several smaller text and grid puzzles.

pub mod calories;
pub mod cave;
pub mod cleanup;
pub mod monkey;
pub mod notes;
pub mod rucksack;
pub mod sand;
pub mod strategy;
pub mod supply;
pub mod text;
pub mod trees;
