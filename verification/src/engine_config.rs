//! Engine configuration: search depth, algorithm variant, chance-node
//! branching policy, move ordering, and the evaluation weights.

use crate::evaluation::Weights;
use vstd::prelude::*;

verus! {

/// Everything one `best_move` call needs; immutable for its duration.
pub struct EngineConfig {
    pub depth: u16,
    pub eval_fn: Weights,
    pub algorithm: Algorithm,
    pub random_mode: RandomCompleteness,
    pub order_moves: bool,
}

/// How many tile placements a chance node branches on.
#[derive(Debug, PartialEq, Eq, Structural, Clone, Copy)]
pub enum RandomCompleteness {
    /// All possible placements.
    Full,
    /// The first `n` possible placements in scan order.
    Ordered(u8),
    /// `n` placements sampled with the seeded generator.
    MonteCarlo(u8),
}

/// The search algorithm `best_move` runs.
#[derive(Debug, PartialEq, Eq, Structural, Clone, Copy)]
pub enum Algorithm {
    Minimax,
    MinimaxAlphaBeta,
    Negamax,
    NegamaxAlphaBeta,
    NegaScout,
    ExpectiMinimax,
}

} // verus!
