//! Decision engine for the 2048 tile-merging puzzle.
//!
//! The library models a 4x4 board of tile exponents (cell `e` stands for the
//! tile `2^e`, `0` for an empty cell), the slide-and-merge transition, a
//! precomputed per-row transition table with a compact binary encoding, a
//! weighted position evaluation, and the adversarial game-tree search
//! (minimax and negamax, with and without alpha-beta pruning) that picks the
//! engine's next move.

pub mod board;
pub mod direction;
pub mod engine;
pub mod engine_config;
pub mod evaluation;
pub mod game;
pub mod input;
pub mod matrix;
pub mod moves;
pub mod node;
pub mod random;
pub mod slide_cache;
