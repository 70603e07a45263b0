//! The position evaluation: a weighted combination of independent
//! board-shape heuristics, each toggled by a zero weight.

use crate::board::Board;
use crate::matrix;
use crate::node::Node;
use crate::slide_cache::pow2int;
use vstd::prelude::*;

verus! {

/// Evaluations are clamped into this symmetric range so that negation and
/// the loss penalty never overflow a 32-bit score.
pub const EVAL_CLAMP: i32 = 2_000_000_000;

/// Normalized weights for the evaluation components; `0` disables a
/// component.
#[derive(Debug, Clone, Copy)]
pub struct Weights {
    pub max_cell: i32,
    pub max_score: i32,
    pub monotonicity: i32,
    pub smoothness: i32,
    pub std_dev: i32,
    pub free_space: i32,
    pub snakeiness: i32,
}

impl Weights {
    /// Scale each raw weight by its component's normalization constant, so
    /// that at the documented tuning range every component's maximal
    /// contribution has a comparable order of magnitude.
    pub fn normalize(self) -> (w: Weights)
        requires
            -400 <= self.max_cell <= 400,
            -400 <= self.monotonicity <= 400,
            -400 <= self.smoothness <= 400,
            -400 <= self.free_space <= 400,
            -400 <= self.snakeiness <= 400,
        ensures
            w.max_cell == self.max_cell * 14,
            w.max_score == self.max_score,
            w.monotonicity == self.monotonicity * 112500,
            w.smoothness == self.smoothness * 2344,
            w.std_dev == self.std_dev,
            w.free_space == self.free_space * 60000,
            w.snakeiness == self.snakeiness * 23,
    {
        let mut w = self;
        w.max_cell = w.max_cell * 14;
        w.monotonicity = w.monotonicity * 112500;
        w.smoothness = w.smoothness * 2344;
        w.free_space = w.free_space * 60000;
        w.snakeiness = w.snakeiness * 23;
        w
    }
}

/// The board's cumulative score as a component, clamped into `i32`.
pub open spec fn comp_score(b: Board) -> int {
    if b.score <= i32::MAX {
        b.score as int
    } else {
        i32::MAX as int
    }
}

/// The raw weighted sum of all seven components.
pub open spec fn weighted_sum(w: Weights, b: Board) -> int {
    w.max_cell * pow2int(matrix::grid_max(b.board)) + w.max_score * comp_score(b)
        + w.monotonicity * matrix::monotonicity_spec(b.board) + w.smoothness * (384
        - matrix::smoothness_spec(b.board)) + w.std_dev * (1000 - matrix::std_dev_spec(b.board))
        + w.free_space * matrix::zero_count(b.board) + w.snakeiness * matrix::snakeiness_spec(
        b.board,
    )
}

/// The evaluation of a position: the weighted sum clamped into the safe
/// score range.
pub open spec fn eval_spec(w: Weights, b: Board) -> int {
    if weighted_sum(w, b) > EVAL_CLAMP as int {
        EVAL_CLAMP as int
    } else if weighted_sum(w, b) < -(EVAL_CLAMP as int) {
        -(EVAL_CLAMP as int)
    } else {
        weighted_sum(w, b)
    }
}

/// Add one weighted component into the accumulator.
fn acc_term(sum: i128, w: i32, c: i32) -> (r: i128)
    requires
        -27670116110564327424 <= sum <= 27670116110564327424,
    ensures
        r == sum + (w as int) * (c as int),
        sum - 4611686018427387904 <= r <= sum + 4611686018427387904,
{
    proof {
        assert(-4611686018427387904 <= (w as int) * (c as int) <= 4611686018427387904)
            by (nonlinear_arith)
            requires
                -2147483648 <= w <= 2147483647,
                -2147483648 <= c <= 2147483647,
        ;
    }
    sum + (w as i128) * (c as i128)
}

/// Evaluate a node's position: the weighted sum of the enabled components,
/// except that a node whose value was already computed keeps it (the tree
/// caches evaluations across searches).
#[verifier::rlimit(100)]
#[verifier::spinoff_prover]
pub(crate) fn evaluate(weights: Weights, node: &Node) -> (r: i32)
    requires
        crate::board::board_wf(node.board),
    ensures
        r == if node.value != 0 {
            node.value as int
        } else {
            eval_spec(weights, node.board)
        },
        node.value == 0 ==> -2_000_000_000 <= r <= 2_000_000_000,
{
    if node.value != 0 {
        return node.value;
    }
    let mut sum: i128 = 0;
    if weights.max_cell != 0 {
        sum = acc_term(sum, weights.max_cell, node.board.max_cell() as i32);
    }
    if weights.max_score != 0 {
        let sc: i32 = if node.board.score > i32::MAX as u32 {
            i32::MAX
        } else {
            node.board.score as i32
        };
        sum = acc_term(sum, weights.max_score, sc);
    }
    if weights.monotonicity != 0 {
        sum = acc_term(sum, weights.monotonicity, matrix::monotonicity(&node.board.board));
    }
    if weights.smoothness != 0 {
        sum = acc_term(sum, weights.smoothness, 384 - matrix::smoothness(&node.board.board));
    }
    if weights.std_dev != 0 {
        sum = acc_term(sum, weights.std_dev, 1000 - matrix::std_dev(&node.board.board));
    }
    if weights.free_space != 0 {
        sum = acc_term(sum, weights.free_space, matrix::empty_count(&node.board.board) as i32);
    }
    if weights.snakeiness != 0 {
        sum = acc_term(sum, weights.snakeiness, matrix::snakeiness(&node.board.board));
    }
    proof {
        assert(sum == weighted_sum(weights, node.board));
    }
    if sum > EVAL_CLAMP as i128 {
        EVAL_CLAMP
    } else if sum < -(EVAL_CLAMP as i128) {
        -EVAL_CLAMP
    } else {
        sum as i32
    }
}

} // verus!
