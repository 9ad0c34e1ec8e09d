//! Pente engine: board state with the capture rule, an Aho–Corasick pattern
//! matcher over tiles, pattern-based position scoring and a move search.

pub mod tile;
pub mod aho_corasick;
pub mod board;
pub mod evaluation;
pub mod search;
pub mod text;
pub mod game;
pub mod rescoring;
