//! The search tree: nodes own their children, expansion is lazy, and the
//! minimax / negamax searches (with and without alpha-beta pruning) walk
//! the tree depth-first.

use crate::board::{board_wf, grid_seq, slide_b, slide_bm, slide_moves, spawn_b, spawn_bm, zeros_g, Board};
use crate::engine_config::{EngineConfig, RandomCompleteness};
use crate::evaluation::Weights;
use crate::random::{spec_move_pos, spec_move_value, spec_next};
use crate::slide_cache::SlideCache;
use crate::direction::Direction;
use crate::moves::{BestMove, Move, Statistics};
use vstd::prelude::*;

verus! {

/// One node of the game tree: a position, the move that produced it, its
/// cached evaluation, and its lazily grown children (`None`: not expanded;
/// `Some` empty never stored: expansion that finds no child stores `None`).
pub struct Node {
    pub board: Board,
    pub turn: Move,
    pub value: i32,
    pub children: Option<Vec<Node>>,
}

/// How a child position relates to its parent: a human child is the
/// parent's board slid toward a direction that moves it, a random child is
/// the parent's board with a tile spawned in an empty cell.  Turn types
/// alternate strictly.
pub open spec fn child_rel(p: Node, c: Node) -> bool {
    if c.turn is Human {
        &&& !(p.turn is Human)
        &&& c.board@ == slide_bm(p.board@, c.turn->Human_0)
        &&& slide_moves(p.board@.cells, c.turn->Human_0)
    } else {
        &&& p.turn is Human
        &&& (c.turn->Random_0 == 1 || c.turn->Random_0 == 2)
        &&& (c.turn->Random_1 as int) < zeros_g(p.board@.cells)
        &&& c.board@ == spawn_bm(p.board@, c.turn->Random_0, c.turn->Random_1 as int)
    }
}

/// A well-formed tree: valid boards, cached values in the safe score range,
/// and every child a legal successor of its parent.
pub open spec fn node_wf(n: Node) -> bool
    decreases n,
{
    &&& board_wf(n.board)
    &&& -2_001_000_000 <= n.value <= 2_001_000_000
    &&& (n.children is Some ==> 1 <= n.children->Some_0@.len() <= 255)
    &&& (n.children is Some ==> forall|i: int|
        0 <= i < n.children->Some_0@.len() ==> node_wf(#[trigger] n.children->Some_0@[i])
            && child_rel(n, n.children->Some_0@[i]))
}

/// Penalty applied to positions where the side to move has no move left:
/// immediate losses score far below any live position.
pub const PENALTY: i32 = 1_000_000;

/// Search scores stay within this bound: the evaluation clamp plus the
/// loss penalty.
pub const VALUE_CAP: i32 = 2_001_000_000;

/// Unpack the well-formedness of an expanded node's children.
pub proof fn lemma_wf_children(n: Node)
    requires
        node_wf(n),
        n.children is Some,
    ensures
        1 <= n.children->Some_0@.len() <= 255,
        forall|i: int| 0 <= i < n.children->Some_0@.len() ==> node_wf(
            #[trigger] n.children->Some_0@[i],
        ) && child_rel(n, n.children->Some_0@[i]),
{
}

impl Node {
    /// Wrap a board as an unexpanded node.
    pub(crate) fn with_board(new_board: Board, turn: Move) -> (n: Node)
        ensures
            n.board == new_board,
            n.turn == turn,
            n.value == 0,
            n.children is None,
    {
        Node { board: new_board, turn, value: 0, children: None }
    }

    /// The search result for a node treated as a leaf: its own move and
    /// cached value, one node visited.
    fn as_terminal_leaf(&self) -> (bm: BestMove)
        requires
            board_wf(self.board),
            -2_001_000_000 <= self.value <= 2_001_000_000,
        ensures
            bm.turn == self.turn,
            bm.local_id == 0,
            bm.score == self.value,
            crate::moves::stats_wf(bm.stat),
            -2_001_000_000 <= bm.score <= 2_001_000_000,
    {
        BestMove {
            turn: self.turn,
            local_id: 0,
            score: self.value,
            stat: Statistics::new(self.board.get_board_id()),
        }
    }

    /// Reuse the retained tree after the real random spawn: detach and
    /// return the child matching the placement, or build a fresh node for
    /// the resulting board.  Either way the returned root's board is
    /// exactly the old root's board with that tile spawned.
    #[verifier::rlimit(100)]
    #[verifier::spinoff_prover]
    pub(crate) fn find_next_random_move(&mut self, random_move: Move) -> (r: Node)
        requires
            node_wf(*old(self)),
            old(self).turn is Human,
            random_move matches Move::Random(v, pos) && (v == 1 || v == 2) && (pos as int)
                < zeros_g(old(self).board@.cells),
            old(self).board.move_count < u16::MAX,
        ensures
            node_wf(r),
            r.turn == random_move,
            r.board@ == spawn_bm(old(self).board@, random_move->Random_0, random_move->Random_1 as int),
            // a retained child matching the placement is moved out whole,
            // with its cached value and children intact
            old(self).children is Some && (exists|i: int|
                0 <= i < old(self).children->Some_0@.len() && (#[trigger] old(
                    self,
                ).children->Some_0@[i]).turn == random_move) ==> exists|i: int|
                0 <= i < old(self).children->Some_0@.len() && (#[trigger] old(
                    self,
                ).children->Some_0@[i]) == r,
            // and the result is nothing else: either such a moved-out child,
            // or a fresh unexpanded node for the spawned board
            (r.value == 0 && r.children is None) || (old(self).children is Some && exists|i: int|
                0 <= i < old(self).children->Some_0@.len() && (#[trigger] old(
                    self,
                ).children->Some_0@[i]) == r && old(self).children->Some_0@[i].turn
                == random_move),
    {
        let (value, pos) = random_move.unwrap_random();
        let mut taken: Option<Vec<Node>> = None;
        core::mem::swap(&mut taken, &mut self.children);
        proof {
            assert(taken == old(self).children);
        }
        if let Some(mut vec) = taken {
            proof {
                assert(old(self).children == Some(vec));
                lemma_wf_children(*old(self));
            }
            let n = vec.len();
            for idx in 0..n
                invariant
                    n == vec@.len(),
                    old(self).children is Some,
                    vec == old(self).children->Some_0,
                    random_move == Move::Random(value, pos),
                    forall|i: int| 0 <= i < n ==> node_wf(#[trigger] vec@[i]) && child_rel(
                        *old(self),
                        vec@[i],
                    ),
                    forall|i: int| 0 <= i < idx ==> (#[trigger] vec@[i]).turn != random_move,
            {
                if vec[idx].turn == random_move {
                    proof {
                        assert(old(self).children->Some_0@[idx as int].turn == random_move);
                        assert(node_wf(vec@[idx as int]) && child_rel(
                            *old(self),
                            vec@[idx as int],
                        ));
                        assert(vec@[idx as int].turn == random_move);
                        assert(vec@[idx as int].board@ == spawn_bm(
                            old(self).board@,
                            value,
                            pos as int,
                        ));
                    }
                    let next_move = vec.swap_remove(idx);
                    proof {
                        assert(next_move == old(self).children->Some_0@[idx as int]);
                        assert(!(forall|i: int|
                            0 <= i < old(self).children->Some_0@.len() ==> (#[trigger] old(
                                self,
                            ).children->Some_0@[i]).turn != random_move)) by {
                            assert(old(self).children->Some_0@[idx as int].turn == random_move);
                        }
                    }
                    return next_move;
                }
            }
        }
        // no retained child matches: place the tile and start fresh
        proof {
            crate::board::lemma_zeros_bridge(self.board.board, 16);
        }
        self.board.set_move((value, pos));
        Node::with_board(self.board, random_move)
    }
}

/// Some direction still changes the grid.
pub open spec fn has_any_move(g: Seq<u8>) -> bool {
    ||| slide_moves(g, Direction::Left)
    ||| slide_moves(g, Direction::Right)
    ||| slide_moves(g, Direction::Down)
    ||| slide_moves(g, Direction::Up)
}

/// An unexpanded node for a freshly derived position.
pub open spec fn mk_child(bd: Board, t: Move) -> Node {
    Node { board: bd, turn: t, value: 0, children: None }
}

/// The player's children of a position: one node per direction that moves
/// the board, in the fixed cycle left, right, down, up.
pub open spec fn human_children(b: Board) -> Seq<Node> {
    (if slide_moves(b@.cells, Direction::Left) {
        seq![mk_child(slide_b(b, Direction::Left), Move::Human(Direction::Left))]
    } else {
        Seq::empty()
    }) + (if slide_moves(b@.cells, Direction::Right) {
        seq![mk_child(slide_b(b, Direction::Right), Move::Human(Direction::Right))]
    } else {
        Seq::empty()
    }) + (if slide_moves(b@.cells, Direction::Down) {
        seq![mk_child(slide_b(b, Direction::Down), Move::Human(Direction::Down))]
    } else {
        Seq::empty()
    }) + (if slide_moves(b@.cells, Direction::Up) {
        seq![mk_child(slide_b(b, Direction::Up), Move::Human(Direction::Up))]
    } else {
        Seq::empty()
    })
}

/// The player has a child exactly when some direction still moves the
/// board.
pub proof fn lemma_human_children_any(b: Board)
    ensures
        human_children(b).len() > 0 <==> has_any_move(b@.cells),
        human_children(b).len() <= 4,
{
}

/// The chance children of one tile exponent: one node per empty cell, in
/// row-major scan order.
pub open spec fn random_children_value(b: Board, v: u8) -> Seq<Node> {
    Seq::new(
        zeros_g(b@.cells) as nat,
        |p: int| mk_child(spawn_b(b, v, p), Move::Random(v, p as u8)),
    )
}

/// All chance children: every empty cell with exponent 1, then with
/// exponent 2.
pub open spec fn random_children_full(b: Board) -> Seq<Node> {
    random_children_value(b, 1) + random_children_value(b, 2)
}

/// The first `n` chance children in scan order: exponent-1 placements
/// first, topped up with exponent-2 placements.
pub open spec fn random_children_limit(b: Board, n: u8) -> Seq<Node> {
    let zc = zeros_g(b@.cells);
    if zc >= n {
        random_children_value(b, 1).take(n as int)
    } else {
        random_children_value(b, 1) + random_children_value(b, 2).take(
            if n - zc <= zc {
                n - zc
            } else {
                zc
            },
        )
    }
}

/// `cnt` generator draws from `seed`: each places the drawn exponent in the
/// drawn slot of the parent board, the slot range shrinking by one per
/// draw.
pub open spec fn mc_children(b: Board, seed: u32, ec: u8, cnt: int) -> Seq<Node>
    decreases cnt,
{
    if cnt <= 0 {
        Seq::empty()
    } else {
        seq![
            mk_child(
                spawn_b(b, spec_move_value(seed), spec_move_pos(seed, ec) as int),
                Move::Random(spec_move_value(seed), spec_move_pos(seed, ec)),
            ),
        ] + mc_children(b, spec_next(seed), (ec - 1) as u8, cnt - 1)
    }
}

/// The sampler's seed for a position: derived from the packed board, so
/// that the sampler never touches the session's own generator.
pub open spec fn mc_seed(b: Board) -> u32 {
    (((crate::matrix::pack_board(b.board) % 4294967296) as u32) % 6075) as u32
}

/// The sampled chance children: `min(limit, empty_count)` draws from the
/// position-derived seed.
pub open spec fn random_children_mc(b: Board, limit: u8) -> Seq<Node> {
    let zc = zeros_g(b@.cells);
    mc_children(
        b,
        mc_seed(b),
        zc as u8,
        if limit <= zc {
            limit as int
        } else {
            zc
        },
    )
}

/// The children one expansion of `n` yields under the chance-node policy.
pub open spec fn spec_expand(n: Node, rm: RandomCompleteness) -> Seq<Node> {
    if n.turn is Human {
        match rm {
            RandomCompleteness::Full => random_children_full(n.board),
            RandomCompleteness::Ordered(c) => random_children_limit(n.board, c),
            RandomCompleteness::MonteCarlo(c) => random_children_mc(n.board, c),
        }
    } else {
        human_children(n.board)
    }
}

/// The children a search walks at `n`: the stored ones when the node is
/// already expanded, else a fresh expansion.
pub open spec fn spec_children(n: Node, rm: RandomCompleteness) -> Seq<Node> {
    if n.children is Some {
        n.children->Some_0@
    } else {
        spec_expand(n, rm)
    }
}

/// Scores clamped into the safe range: one loss penalty beyond the
/// evaluation clamp, so negation never overflows.
pub open spec fn clamp_cap(x: int) -> int {
    if x > 2_001_000_000 {
        2_001_000_000int
    } else if x < -2_001_000_000 {
        -2_001_000_000int
    } else {
        x
    }
}

/// What a node scores when treated as a leaf: its cached value when one
/// was already computed, else the static evaluation.
pub open spec fn eval_cached(w: Weights, n: Node) -> int {
    if n.value != 0 {
        n.value as int
    } else {
        crate::evaluation::eval_spec(w, n.board)
    }
}

/// The minimax value of the first `i` children: the running best under
/// strict improvement, maximizing or minimizing by layer.
pub open spec fn fold_val(
    cs: Seq<Node>,
    w: Weights,
    rm: RandomCompleteness,
    depth: int,
    max_player: bool,
    i: int,
) -> int
    decreases depth, 0int, i,
{
    if depth <= 0 {
        0
    } else if i <= 1 {
        search_val(cs[0], w, rm, depth - 1, !max_player)
    } else {
        let prev = fold_val(cs, w, rm, depth, max_player, i - 1);
        let cur = search_val(cs[i - 1], w, rm, depth - 1, !max_player);
        if max_player {
            if cur > prev {
                cur
            } else {
                prev
            }
        } else {
            if cur < prev {
                cur
            } else {
                prev
            }
        }
    }
}

/// The index of the child attaining `fold_val`: the first one, since only
/// a strictly better child replaces the running best.
pub open spec fn fold_idx(
    cs: Seq<Node>,
    w: Weights,
    rm: RandomCompleteness,
    depth: int,
    max_player: bool,
    i: int,
) -> int
    decreases depth, 0int, i,
{
    if depth <= 0 {
        0int
    } else if i <= 1 {
        0int
    } else {
        let previ = fold_idx(cs, w, rm, depth, max_player, i - 1);
        let prev = fold_val(cs, w, rm, depth, max_player, i - 1);
        let cur = search_val(cs[i - 1], w, rm, depth - 1, !max_player);
        if max_player {
            if cur > prev {
                i - 1
            } else {
                previ
            }
        } else {
            if cur < prev {
                i - 1
            } else {
                previ
            }
        }
    }
}

/// The minimax value of a node: the leaf score at depth 0 or on a lost
/// board; the best child value, maximizing at player layers and minimizing
/// at chance layers; and the penalized leaf score where the side to move
/// has nothing left.
pub open spec fn search_val(
    n: Node,
    w: Weights,
    rm: RandomCompleteness,
    depth: int,
    max_player: bool,
) -> int
    decreases depth, 1int, 0int,
{
    if depth <= 0 || n.board.state == crate::board::State::Lose {
        eval_cached(w, n)
    } else {
        let cs = spec_children(n, rm);
        if cs.len() == 0 {
            if max_player {
                clamp_cap(eval_cached(w, n) - PENALTY)
            } else {
                clamp_cap(eval_cached(w, n) + PENALTY)
            }
        } else {
            fold_val(cs, w, rm, depth, max_player, cs.len() as int)
        }
    }
}

/// The negamax value of the first `i` children: the running best of the
/// sign-flipped child values.
pub open spec fn nega_fold(
    cs: Seq<Node>,
    w: Weights,
    rm: RandomCompleteness,
    depth: int,
    color: int,
    i: int,
) -> int
    decreases depth, 0int, i,
{
    if depth <= 0 {
        0
    } else if i <= 1 {
        -nega_val(cs[0], w, rm, depth - 1, -color)
    } else {
        let prev = nega_fold(cs, w, rm, depth, color, i - 1);
        let cur = -nega_val(cs[i - 1], w, rm, depth - 1, -color);
        if cur > prev {
            cur
        } else {
            prev
        }
    }
}

/// The index attaining `nega_fold` under strict improvement.
pub open spec fn nega_idx(
    cs: Seq<Node>,
    w: Weights,
    rm: RandomCompleteness,
    depth: int,
    color: int,
    i: int,
) -> int
    decreases depth, 0int, i,
{
    if depth <= 0 {
        0int
    } else if i <= 1 {
        0int
    } else {
        let previ = nega_idx(cs, w, rm, depth, color, i - 1);
        let prev = nega_fold(cs, w, rm, depth, color, i - 1);
        let cur = -nega_val(cs[i - 1], w, rm, depth - 1, -color);
        if cur > prev {
            i - 1
        } else {
            previ
        }
    }
}

/// The negamax value of a node: the minimax recursion expressed with a
/// sign-flipping color so one code path serves both layers.
pub open spec fn nega_val(
    n: Node,
    w: Weights,
    rm: RandomCompleteness,
    depth: int,
    color: int,
) -> int
    decreases depth, 1int, 0int,
{
    if depth <= 0 || n.board.state == crate::board::State::Lose {
        color * eval_cached(w, n)
    } else {
        let cs = spec_children(n, rm);
        if cs.len() == 0 {
            clamp_cap(color * (eval_cached(w, n) - PENALTY))
        } else {
            nega_fold(cs, w, rm, depth, color, cs.len() as int)
        }
    }
}

/// No chance layer within the horizon runs out of children: the one
/// situation where minimax (which adds the loss penalty there) and negamax
/// (which subtracts it before flipping the sign) part ways.
pub open spec fn penalty_free(
    n: Node,
    rm: RandomCompleteness,
    depth: int,
    max_player: bool,
) -> bool
    decreases depth, 1int, 0int,
{
    if depth <= 0 || n.board.state == crate::board::State::Lose {
        true
    } else {
        let cs = spec_children(n, rm);
        if cs.len() == 0 {
            max_player
        } else {
            pf_fold(cs, rm, depth, max_player, cs.len() as int)
        }
    }
}

/// `penalty_free` over the first `i` children.
pub open spec fn pf_fold(
    cs: Seq<Node>,
    rm: RandomCompleteness,
    depth: int,
    max_player: bool,
    i: int,
) -> bool
    decreases depth, 0int, i,
{
    if depth <= 0 {
        true
    } else if i <= 1 {
        penalty_free(cs[0], rm, depth - 1, !max_player)
    } else {
        pf_fold(cs, rm, depth, max_player, i - 1) && penalty_free(
            cs[i - 1],
            rm,
            depth - 1,
            !max_player,
        )
    }
}

/// Minimax/negamax equivalence: on any position whose horizon never
/// reaches a childless chance layer, the negamax value is the color-signed
/// minimax value, and both searches pick the same child.  (On positions
/// that do reach one — any full board inside the horizon, for example a
/// checkerboard of two values two plies down — the two penalty conventions
/// differ and the law does not apply.)
pub proof fn lemma_minimax_negamax_equiv(
    n: Node,
    w: Weights,
    rm: RandomCompleteness,
    depth: int,
    color: int,
)
    requires
        color == 1 || color == -1,
        penalty_free(n, rm, depth, color == 1),
    ensures
        nega_val(n, w, rm, depth, color) == color * search_val(n, w, rm, depth, color == 1),
    decreases depth, 1int, 0int,
{
    let max_player = color == 1;
    if depth <= 0 || n.board.state == crate::board::State::Lose {
    } else {
        let cs = spec_children(n, rm);
        if cs.len() == 0 {
            assert(max_player);
        } else {
            lemma_mn_fold(cs, w, rm, depth, color, cs.len() as int);
        }
    }
}

/// The fold halves of the minimax/negamax equivalence: equal values up to
/// the color sign, and the same chosen index.
pub proof fn lemma_mn_fold(
    cs: Seq<Node>,
    w: Weights,
    rm: RandomCompleteness,
    depth: int,
    color: int,
    i: int,
)
    requires
        color == 1 || color == -1,
        depth >= 1,
        1 <= i <= cs.len(),
        pf_fold(cs, rm, depth, color == 1, i),
    ensures
        nega_fold(cs, w, rm, depth, color, i) == color * fold_val(
            cs,
            w,
            rm,
            depth,
            color == 1,
            i,
        ),
        nega_idx(cs, w, rm, depth, color, i) == fold_idx(cs, w, rm, depth, color == 1, i),
    decreases depth, 0int, i,
{
    let max_player = color == 1;
    if i <= 1 {
        lemma_minimax_negamax_equiv(cs[0], w, rm, depth - 1, -color);
        assert((-color == 1) == !max_player);
    } else {
        assert(pf_fold(cs, rm, depth, max_player, i - 1));
        lemma_mn_fold(cs, w, rm, depth, color, i - 1);
        lemma_minimax_negamax_equiv(cs[i - 1], w, rm, depth - 1, -color);
        assert((-color == 1) == !max_player);
    }
}

/// The running best strictly improves on a higher child score (a later
/// equal score never replaces an earlier pick); statistics always merge.
pub(crate) fn max_score_move(best_move: BestMove, current_value: &mut BestMove, node: &Node, index: usize)
    requires
        index <= 254,
        crate::moves::stats_wf(old(current_value).stat),
        crate::moves::stats_wf(best_move.stat),
    ensures
        crate::moves::stats_wf(final(current_value).stat),
        crate::moves::stats_merged(
            final(current_value).stat,
            old(current_value).stat,
            best_move.stat,
        ),
        final(current_value).score == if best_move.score > old(current_value).score {
            best_move.score
        } else {
            old(current_value).score
        },
        best_move.score > old(current_value).score ==> final(current_value).turn == node.turn
            && final(current_value).local_id == index as u8,
        !(best_move.score > old(current_value).score) ==> final(current_value).turn == old(
            current_value,
        ).turn && final(current_value).local_id == old(current_value).local_id,
{
    let improved = best_move.score > current_value.score;
    current_value.stat.add(&best_move.stat);
    if improved {
        current_value.turn = node.turn;
        current_value.local_id = index as u8;
        current_value.score = best_move.score;
    }
}

/// As `max_score_move`, with strictly lower scores winning.
pub(crate) fn min_score_move(best_move: BestMove, current_value: &mut BestMove, node: &Node, index: usize)
    requires
        index <= 254,
        crate::moves::stats_wf(old(current_value).stat),
        crate::moves::stats_wf(best_move.stat),
    ensures
        crate::moves::stats_wf(final(current_value).stat),
        crate::moves::stats_merged(
            final(current_value).stat,
            old(current_value).stat,
            best_move.stat,
        ),
        final(current_value).score == if best_move.score < old(current_value).score {
            best_move.score
        } else {
            old(current_value).score
        },
        best_move.score < old(current_value).score ==> final(current_value).turn == node.turn
            && final(current_value).local_id == index as u8,
        !(best_move.score < old(current_value).score) ==> final(current_value).turn == old(
            current_value,
        ).turn && final(current_value).local_id == old(current_value).local_id,
{
    let improved = best_move.score < current_value.score;
    current_value.stat.add(&best_move.stat);
    if improved {
        current_value.turn = node.turn;
        current_value.local_id = index as u8;
        current_value.score = best_move.score;
    }
}

impl Node {
    /// The player's children: exactly `human_children(self.board)` — the
    /// four directions in the fixed cycle left, right, down, up, keeping
    /// only those that change the board.
    #[verifier::rlimit(100)]
    #[verifier::spinoff_prover]
    fn next_human_moves(&self, cache: &SlideCache) -> (nodes: Vec<Node>)
        requires
            board_wf(self.board),
            !(self.turn is Human),
            crate::slide_cache::table_complete(cache.table@),
            self.board.score <= u32::MAX - 262144,
            self.board.move_count < u16::MAX,
        ensures
            nodes@ == human_children(self.board),
            nodes@.len() <= 4,
            forall|i: int| 0 <= i < nodes@.len() ==> node_wf(#[trigger] nodes@[i]) && child_rel(
                *self,
                nodes@[i],
            ) && nodes@[i].value == 0 && nodes@[i].children is None,
            has_any_move(self.board@.cells) ==> nodes@.len() >= 1,
    {
        let mut nodes: Vec<Node> = Vec::new();
        let ghost b = self.board;
        let mut new_board = self.board;
        let m0 = new_board.slide_to(Direction::Left, cache);
        if m0 {
            let node = Node::with_board(new_board, Move::Human(Direction::Left));
            proof {
                crate::board::lemma_board_of(b, slide_bm(b@, Direction::Left), new_board);
                assert(node == mk_child(slide_b(b, Direction::Left), Move::Human(
                    Direction::Left,
                )));
            }
            nodes.push(node);
        }
        let ghost s1 = nodes@;
        proof {
            assert(s1 =~= (if slide_moves(b@.cells, Direction::Left) {
                seq![mk_child(slide_b(b, Direction::Left), Move::Human(Direction::Left))]
            } else {
                Seq::<Node>::empty()
            }));
        }
        let mut new_board = self.board;
        let m1 = new_board.slide_to(Direction::Right, cache);
        if m1 {
            let node = Node::with_board(new_board, Move::Human(Direction::Right));
            proof {
                crate::board::lemma_board_of(b, slide_bm(b@, Direction::Right), new_board);
                assert(node == mk_child(slide_b(b, Direction::Right), Move::Human(
                    Direction::Right,
                )));
            }
            nodes.push(node);
        }
        let ghost s2 = nodes@;
        proof {
            assert(s2 =~= s1 + (if slide_moves(b@.cells, Direction::Right) {
                seq![mk_child(slide_b(b, Direction::Right), Move::Human(Direction::Right))]
            } else {
                Seq::<Node>::empty()
            }));
        }
        let mut new_board = self.board;
        let m2 = new_board.slide_to(Direction::Down, cache);
        if m2 {
            let node = Node::with_board(new_board, Move::Human(Direction::Down));
            proof {
                crate::board::lemma_board_of(b, slide_bm(b@, Direction::Down), new_board);
                assert(node == mk_child(slide_b(b, Direction::Down), Move::Human(
                    Direction::Down,
                )));
            }
            nodes.push(node);
        }
        let ghost s3 = nodes@;
        proof {
            assert(s3 =~= s2 + (if slide_moves(b@.cells, Direction::Down) {
                seq![mk_child(slide_b(b, Direction::Down), Move::Human(Direction::Down))]
            } else {
                Seq::<Node>::empty()
            }));
        }
        let mut new_board = self.board;
        let m3 = new_board.slide_to(Direction::Up, cache);
        if m3 {
            let node = Node::with_board(new_board, Move::Human(Direction::Up));
            proof {
                crate::board::lemma_board_of(b, slide_bm(b@, Direction::Up), new_board);
                assert(node == mk_child(slide_b(b, Direction::Up), Move::Human(Direction::Up)));
            }
            nodes.push(node);
        }
        proof {
            assert(nodes@ =~= s3 + (if slide_moves(b@.cells, Direction::Up) {
                seq![mk_child(slide_b(b, Direction::Up), Move::Human(Direction::Up))]
            } else {
                Seq::<Node>::empty()
            }));
            assert(nodes@ =~= human_children(b));
        }
        nodes
    }

    /// Append the chance children of one tile exponent: exactly
    /// `random_children_value(self.board, value)`, one node per empty cell
    /// in row-major scan order.
    #[verifier::rlimit(100)]
    #[verifier::spinoff_prover]
    fn next_random_moves_value(&self, nodes: &mut Vec<Node>, value: u8)
        requires
            board_wf(self.board),
            self.turn is Human,
            value == 1 || value == 2,
            self.board.move_count < u16::MAX,
            old(nodes)@.len() <= 255,
        ensures
            final(nodes)@ == old(nodes)@ + random_children_value(self.board, value),
            final(nodes)@.len() == old(nodes)@.len() + zeros_g(self.board@.cells),
            forall|i: int| 0 <= i < old(nodes)@.len() ==> final(nodes)@[i] == old(nodes)@[i],
            forall|i: int| old(nodes)@.len() <= i < final(nodes)@.len() ==> node_wf(
                #[trigger] final(nodes)@[i],
            ) && child_rel(*self, final(nodes)@[i]) && final(nodes)@[i].value == 0
                && final(nodes)@[i].children is None,
    {
        let ghost g = grid_seq(self.board.board);
        let ghost start = nodes@.len();
        let ghost rcv = random_children_value(self.board, value);
        proof {
            crate::board::lemma_zeros_bridge(self.board.board, 16);
        }
        let mut c: u8 = 0;
        for k in 0..16usize
            invariant
                board_wf(self.board),
                self.turn is Human,
                value == 1 || value == 2,
                self.board.move_count < u16::MAX,
                g == grid_seq(self.board.board),
                rcv == random_children_value(self.board, value),
                c == crate::board::zeros_g_upto(g, k as int),
                c <= k,
                nodes@.len() == start + c,
                start <= 255,
                nodes@ == old(nodes)@ + rcv.take(c as int),
                forall|i: int| 0 <= i < start ==> nodes@[i] == old(nodes)@[i],
                forall|i: int| start <= i < nodes@.len() ==> node_wf(#[trigger] nodes@[i])
                    && child_rel(*self, nodes@[i]) && nodes@[i].value == 0 && nodes@[i].children
                    is None,
                forall|p: int| c <= p ==> crate::board::nth_zero(g, p)
                    == crate::board::nth_zero_from(g, k as int, p - c),
        {
            let j = k / 4;
            let i = k % 4;
            proof {
                assert(g[k as int] == crate::matrix::cell(self.board.board, k as int / 4, k as int
                    % 4));
            }
            if self.board.board[j][i] == 0 {
                proof {
                    assert(crate::board::nth_zero(g, c as int) == k);
                    crate::board::lemma_zeros_g_bounds(g, k as int + 1, 16);
                }
                let mut nb = self.board;
                crate::matrix::set_cell(&mut nb.board, j, i, value);
                nb.move_count = nb.move_count + 1;
                proof {
                    assert(grid_seq(nb.board) =~= g.update(k as int, value));
                    assert(nb@ =~= spawn_bm(self.board@, value, c as int));
                    crate::board::lemma_board_of(self.board, spawn_bm(self.board@, value, c as int), nb);
                }
                let node = Node::with_board(nb, Move::Random(value, c));
                proof {
                    assert(node == mk_child(spawn_b(self.board, value, c as int), Move::Random(
                        value,
                        c,
                    )));
                    assert(rcv[c as int] == node);
                }
                nodes.push(node);
                proof {
                    assert(rcv.take(c + 1 as int) =~= rcv.take(c as int).push(node));
                    assert(nodes@ =~= old(nodes)@ + rcv.take(c + 1 as int));
                }
                c = c + 1;
            }
        }
        proof {
            crate::board::lemma_zeros_bridge(self.board.board, 16);
            assert(rcv.take(c as int) =~= rcv);
            assert(final(nodes)@ =~= old(nodes)@ + rcv);
        }
    }

    /// All chance children: exactly `random_children_full(self.board)`.
    fn next_random_moves_full(&self) -> (nodes: Vec<Node>)
        requires
            board_wf(self.board),
            self.turn is Human,
            self.board.move_count < u16::MAX,
        ensures
            nodes@ == random_children_full(self.board),
            nodes@.len() == 2 * zeros_g(self.board@.cells),
            forall|i: int| 0 <= i < nodes@.len() ==> node_wf(#[trigger] nodes@[i]) && child_rel(
                *self,
                nodes@[i],
            ) && nodes@[i].value == 0 && nodes@[i].children is None,
    {
        proof {
            crate::board::lemma_zeros_bridge(self.board.board, 16);
            crate::board::lemma_zeros_g_bounds(grid_seq(self.board.board), 0, 16);
            lemma_zeros_le_16(grid_seq(self.board.board));
        }
        let mut nodes: Vec<Node> = Vec::new();
        self.next_random_moves_value(&mut nodes, 1);
        self.next_random_moves_value(&mut nodes, 2);
        proof {
            assert(nodes@ =~= random_children_full(self.board));
        }
        nodes
    }

    /// The first `limit` chance children in scan order: exactly
    /// `random_children_limit(self.board, limit)`.
    fn next_random_moves_limit(&self, limit: u8) -> (nodes: Vec<Node>)
        requires
            board_wf(self.board),
            self.turn is Human,
            self.board.move_count < u16::MAX,
        ensures
            nodes@ == random_children_limit(self.board, limit),
            nodes@.len() <= 255,
            forall|i: int| 0 <= i < nodes@.len() ==> node_wf(#[trigger] nodes@[i]) && child_rel(
                *self,
                nodes@[i],
            ) && nodes@[i].value == 0 && nodes@[i].children is None,
    {
        proof {
            crate::board::lemma_zeros_bridge(self.board.board, 16);
            crate::board::lemma_zeros_g_bounds(grid_seq(self.board.board), 0, 16);
            lemma_zeros_le_16(grid_seq(self.board.board));
        }
        let ghost zc = zeros_g(self.board@.cells);
        let mut nodes: Vec<Node> = Vec::new();
        self.next_random_moves_value(&mut nodes, 1);
        nodes.truncate(limit as usize);
        proof {
            if zc >= limit {
                assert(nodes@ =~= random_children_value(self.board, 1).take(limit as int));
            } else {
                assert(nodes@ =~= random_children_value(self.board, 1));
            }
        }
        if nodes.len() < limit as usize {
            let miss = limit as usize - nodes.len();
            let mut extra: Vec<Node> = Vec::new();
            self.next_random_moves_value(&mut extra, 2);
            extra.truncate(miss);
            proof {
                if miss <= zc {
                    assert(extra@ =~= random_children_value(self.board, 2).take(miss as int));
                } else {
                    assert(extra@ =~= random_children_value(self.board, 2));
                    assert(extra@ =~= random_children_value(self.board, 2).take(zc));
                }
            }
            nodes.append(&mut extra);
        }
        proof {
            assert(nodes@ =~= random_children_limit(self.board, limit));
        }
        nodes
    }

    /// Sampled chance children: exactly `random_children_mc(self.board,
    /// limit)` — `min(limit, empty_count)` draws from a sampler seeded by
    /// the position itself, the slot range shrinking by one per draw, so
    /// the session's own generator is never touched.
    #[verifier::rlimit(100)]
    #[verifier::spinoff_prover]
    fn next_random_moves_montecarlo(&self, limit: u8) -> (nodes: Vec<Node>)
        requires
            board_wf(self.board),
            self.turn is Human,
            self.board.move_count < u16::MAX,
        ensures
            nodes@ == random_children_mc(self.board, limit),
            nodes@.len() == if limit <= zeros_g(self.board@.cells) {
                limit as int
            } else {
                zeros_g(self.board@.cells)
            },
            forall|i: int| 0 <= i < nodes@.len() ==> node_wf(#[trigger] nodes@[i]) && child_rel(
                *self,
                nodes@[i],
            ) && nodes@[i].value == 0 && nodes@[i].children is None,
    {
        let ghost b = self.board;
        let id = self.board.get_board_id();
        let mut rnd = crate::random::Rnd::with_seed((id % 4294967296) as u32);
        let mut empty_count = self.board.empty_count();
        proof {
            assert(rnd.seed == mc_seed(b));
            crate::board::lemma_zeros_bridge(self.board.board, 16);
            crate::board::lemma_zeros_g_bounds(grid_seq(self.board.board), 0, 16);
            lemma_zeros_le_16(grid_seq(self.board.board));
        }
        let mut draw = limit;
        if empty_count < draw {
            draw = empty_count;
        }
        let ghost zc = zeros_g(b@.cells);
        let ghost cnt = draw as int;
        let mut nodes: Vec<Node> = Vec::new();
        proof {
            assert(mc_children(b, mc_seed(b), zc as u8, cnt) =~= nodes@ + mc_children(
                b,
                rnd.seed,
                empty_count,
                cnt,
            ));
        }
        for it in 0..draw
            invariant
                board_wf(b),
                b == self.board,
                self.turn is Human,
                b.move_count < u16::MAX,
                crate::random::rnd_wf(rnd),
                zc == zeros_g(b@.cells),
                draw <= zc,
                cnt == draw as int,
                cnt == if limit <= zc {
                    limit as int
                } else {
                    zc
                },
                empty_count == zc - it,
                nodes@.len() == it,
                mc_children(b, mc_seed(b), zc as u8, cnt) == nodes@ + mc_children(
                    b,
                    rnd.seed,
                    empty_count,
                    cnt - it,
                ),
                forall|i: int| 0 <= i < nodes@.len() ==> node_wf(#[trigger] nodes@[i])
                    && child_rel(*self, nodes@[i]) && nodes@[i].value == 0 && nodes@[i].children
                    is None,
        {
            let ghost seed0 = rnd.seed;
            let ghost ec0 = empty_count;
            let next_move = rnd.next_move(empty_count);
            let mut nb = self.board;
            proof {
                crate::board::lemma_zeros_bridge(self.board.board, 16);
            }
            nb.set_move(next_move);
            let node = Node::with_board(nb, Move::from_tuple(next_move));
            proof {
                assert(nb@ == spawn_bm(b@, next_move.0, next_move.1 as int));
                crate::board::lemma_board_of(b, spawn_bm(b@, next_move.0, next_move.1 as int), nb);
                assert(node == mk_child(
                    spawn_b(b, spec_move_value(seed0), spec_move_pos(seed0, ec0) as int),
                    Move::Random(spec_move_value(seed0), spec_move_pos(seed0, ec0)),
                ));
                assert(mc_children(b, seed0, ec0, cnt - it) == seq![node] + mc_children(
                    b,
                    rnd.seed,
                    (ec0 - 1) as u8,
                    cnt - it - 1,
                ));
                assert(nodes@.push(node) + mc_children(b, rnd.seed, (ec0 - 1) as u8, cnt - it - 1)
                    =~= nodes@ + mc_children(b, seed0, ec0, cnt - it));
            }
            nodes.push(node);
            empty_count = empty_count - 1;
        }
        proof {
            assert(mc_children(b, rnd.seed, empty_count, 0) =~= Seq::<Node>::empty());
            assert(nodes@ + Seq::<Node>::empty() =~= nodes@);
            assert(nodes@ == random_children_mc(b, limit));
        }
        nodes
    }
}


/// A 16-cell grid has at most 16 zeros.
proof fn lemma_zeros_le_16(g: Seq<u8>)
    ensures
        zeros_g(g) <= 16,
{
    lemma_zeros_upto_le(g, 16);
}

/// At most `k` zeros among the first `k` cells.
proof fn lemma_zeros_upto_le(g: Seq<u8>, k: int)
    requires
        0 <= k,
    ensures
        crate::board::zeros_g_upto(g, k) <= k,
    decreases k,
{
    if k > 0 {
        lemma_zeros_upto_le(g, k - 1);
    }
}

/// The fold dominates every child it has seen: an upper bound for the
/// maximizing layer, a lower bound for the minimizing one.
proof fn lemma_fold_ge(
    cs: Seq<Node>,
    w: Weights,
    rm: RandomCompleteness,
    depth: int,
    max_player: bool,
    i: int,
    j: int,
)
    requires
        depth >= 1,
        0 <= j < i <= cs.len(),
    ensures
        max_player ==> fold_val(cs, w, rm, depth, max_player, i) >= search_val(
            cs[j],
            w,
            rm,
            depth - 1,
            !max_player,
        ),
        !max_player ==> fold_val(cs, w, rm, depth, max_player, i) <= search_val(
            cs[j],
            w,
            rm,
            depth - 1,
            !max_player,
        ),
    decreases i,
{
    if i > 1 && j < i - 1 {
        lemma_fold_ge(cs, w, rm, depth, max_player, i - 1, j);
    }
}

/// The negamax fold dominates every sign-flipped child value it has seen.
proof fn lemma_nega_fold_ge(
    cs: Seq<Node>,
    w: Weights,
    rm: RandomCompleteness,
    depth: int,
    color: int,
    i: int,
    j: int,
)
    requires
        depth >= 1,
        0 <= j < i <= cs.len(),
    ensures
        nega_fold(cs, w, rm, depth, color, i) >= -nega_val(cs[j], w, rm, depth - 1, -color),
    decreases i,
{
    if i > 1 && j < i - 1 {
        lemma_nega_fold_ge(cs, w, rm, depth, color, i - 1, j);
    }
}

/// A child relation only reads the parent's board and turn.
proof fn lemma_child_rel_same_parent(p1: Node, p2: Node, c: Node)
    requires
        child_rel(p1, c),
        p2.board == p1.board,
        p2.turn == p1.turn,
    ensures
        child_rel(p2, c),
{
}

/// Changing a node's cached value (or restoring its children) keeps the
/// tree well-formed.
proof fn lemma_wf_same_shape(a: Node, b: Node)
    requires
        node_wf(a),
        b.board == a.board,
        b.turn == a.turn,
        b.children == a.children,
        -2_001_000_000 <= b.value <= 2_001_000_000,
    ensures
        node_wf(b),
{
    if a.children is Some {
        lemma_wf_children(a);
        assert forall|i: int| 0 <= i < b.children->Some_0@.len() implies node_wf(
            #[trigger] b.children->Some_0@[i],
        ) && child_rel(b, b.children->Some_0@[i]) by {
            lemma_child_rel_same_parent(a, b, a.children->Some_0@[i]);
        }
    }
}

/// Clamp a score into the safe range.
fn clamp_cap_i32(x: i32) -> (r: i32)
    ensures
        r as int == clamp_cap(x as int),
{
    if x > 2_001_000_000 {
        2_001_000_000
    } else if x < -2_001_000_000 {
        -2_001_000_000
    } else {
        x
    }
}

impl Node {
    /// Expand a node once: build its children per the chance-node policy
    /// (or the four directions), order them by static evaluation when move
    /// ordering is on, and store them; an expansion with no child stores
    /// nothing.  An already expanded node is left alone.
    pub(crate) fn gen_next_nodes(&mut self, config: &EngineConfig, cache: &SlideCache)
        requires
            node_wf(*old(self)),
            crate::slide_cache::table_complete(cache.table@),
            old(self).board.score <= u32::MAX - 262144,
            old(self).board.move_count < u16::MAX,
        ensures
            node_wf(*final(self)),
            final(self).board == old(self).board,
            final(self).turn == old(self).turn,
            final(self).value == old(self).value,
            old(self).children is Some ==> final(self).children == old(self).children,
            old(self).children is None ==> {
                let ex = spec_expand(*old(self), config.random_mode);
                &&& (final(self).children is None <==> ex.len() == 0)
                &&& (ex.len() > 0 ==> final(self).children is Some
                    && final(self).children->Some_0@.len() == ex.len())
                &&& (!config.order_moves && ex.len() > 0 ==> final(self).children == Some(
                    final(self).children->Some_0,
                ) && final(self).children->Some_0@ == ex)
                &&& (config.order_moves && ex.len() > 0 ==> {
                    let cs = final(self).children->Some_0@;
                    &&& (forall|i: int, j: int|
                        0 <= i < j < cs.len() ==> (#[trigger] cs[i]).value >= (
                        #[trigger] cs[j]).value)
                    &&& (forall|i: int|
                        0 <= i < cs.len() ==> (#[trigger] cs[i]).value as int
                            == crate::evaluation::eval_spec(config.eval_fn, cs[i].board))
                })
            },
    {
        if self.children.is_none() {
            let ghost pre = *self;
            let mut nodes: Vec<Node> = if self.turn.is_human() {
                match config.random_mode {
                    RandomCompleteness::Full => self.next_random_moves_full(),
                    RandomCompleteness::Ordered(count) => self.next_random_moves_limit(count),
                    RandomCompleteness::MonteCarlo(count) => self.next_random_moves_montecarlo(
                        count,
                    ),
                }
            } else {
                self.next_human_moves(cache)
            };
            proof {
                crate::board::lemma_zeros_bridge(self.board.board, 16);
                lemma_zeros_le_16(grid_seq(self.board.board));
                crate::board::lemma_zeros_g_bounds(grid_seq(self.board.board), 0, 16);
                assert(nodes@ == spec_expand(pre, config.random_mode));
                assert(nodes@.len() <= 255);
            }
            if nodes.len() > 0 {
                if config.order_moves {
                    let n = nodes.len();
                    let mut evald: Vec<Node> = Vec::new();
                    while nodes.len() > 0
                        invariant
                            board_wf(self.board),
                            evald@.len() + nodes@.len() == n,
                            n <= 255,
                            forall|i: int| 0 <= i < nodes@.len() ==> node_wf(
                                #[trigger] nodes@[i],
                            ) && child_rel(*self, nodes@[i]) && nodes@[i].value == 0
                                && nodes@[i].children is None,
                            forall|i: int| 0 <= i < evald@.len() ==> node_wf(
                                #[trigger] evald@[i],
                            ) && child_rel(*self, evald@[i]) && evald@[i].value as int
                                == crate::evaluation::eval_spec(config.eval_fn, evald@[i].board)
                                && evald@[i].children is None,
                        decreases nodes@.len(),
                    {
                        let mut nd = nodes.remove(0);
                        let ghost nd0 = nd;
                        let v = crate::evaluation::evaluate(config.eval_fn, &nd);
                        nd.value = v;
                        proof {
                            lemma_wf_same_shape(nd0, nd);
                            lemma_child_rel_same_parent(*self, *self, nd0);
                            assert(child_rel(*self, nd));
                        }
                        evald.push(nd);
                    }
                    sort_children_by_value(&mut evald, Ghost(*self), Ghost(config.eval_fn));
                    nodes = evald;
                }
                self.children = Some(nodes);
                proof {
                    assert forall|i: int|
                        0 <= i < self.children->Some_0@.len() implies node_wf(
                        #[trigger] self.children->Some_0@[i],
                    ) && child_rel(*self, self.children->Some_0@[i]) by {}
                }
            }
        }
    }

    /// The best move by plain minimax: maximize at player layers, minimize
    /// at chance layers, evaluate at the horizon and on lost boards, and
    /// penalize a side left without a move.  Without move ordering the
    /// returned score and chosen child are exactly those of the
    /// mathematical search over the tree as it stood.
    pub(crate) fn minimax(
        &mut self,
        config: &EngineConfig,
        depth: u16,
        max_player: bool,
        cache: &SlideCache,
    ) -> (bm: BestMove)
        requires
            node_wf(*old(self)),
            crate::slide_cache::table_complete(cache.table@),
            old(self).board.score + 262144 * (depth as int) <= u32::MAX,
            old(self).board.move_count + (depth as int) <= 65535,
        ensures
            node_wf(*final(self)),
            final(self).board == old(self).board,
            final(self).turn == old(self).turn,
            -2_001_000_000 <= bm.score <= 2_001_000_000,
            crate::moves::stats_wf(bm.stat),
            depth >= 1 && old(self).board.state == crate::board::State::InGame ==> (final(self).children is Some <==> spec_children(*old(self), config.random_mode).len() > 0),
            depth >= 1 && old(self).board.state == crate::board::State::InGame && final(self).children is Some ==> (bm.local_id as int) < final(self).children->Some_0@.len()
                && final(self).children->Some_0@[bm.local_id as int].turn == bm.turn,
            !config.order_moves ==> bm.score == search_val(
                *old(self),
                config.eval_fn,
                config.random_mode,
                depth as int,
                max_player,
            ),
            (!config.order_moves && depth >= 1 && old(self).board.state
                == crate::board::State::InGame && spec_children(
                *old(self),
                config.random_mode,
            ).len() > 0) ==> {
                let cs = spec_children(*old(self), config.random_mode);
                let w = config.eval_fn;
                let rm = config.random_mode;
                bm.local_id as int == fold_idx(cs, w, rm, depth as int, max_player, cs.len() as int)
                    && bm.turn == cs[fold_idx(cs, w, rm, depth as int, max_player, cs.len() as int)].turn
            },
        decreases depth, 1int,
    {
        let lose = match self.board.state {
            crate::board::State::Lose => true,
            crate::board::State::InGame => false,
        };
        if depth == 0 || lose {
            let ghost pre = *self;
            let e = crate::evaluation::evaluate(config.eval_fn, self);
            self.value = e;
            proof {
                lemma_wf_same_shape(pre, *self);
            }
            return self.as_terminal_leaf();
        }
        self.minimax_part(config, depth, max_player, cache)
    }

    /// One expand-and-scan step of `minimax`: grow the children, recurse
    /// into each, and keep the first strictly best.
    #[verifier::rlimit(100)]
    #[verifier::spinoff_prover]
    fn minimax_part(
        &mut self,
        config: &EngineConfig,
        depth: u16,
        max_player: bool,
        cache: &SlideCache,
    ) -> (bm: BestMove)
        requires
            node_wf(*old(self)),
            crate::slide_cache::table_complete(cache.table@),
            old(self).board.score + 262144 * (depth as int) <= u32::MAX,
            old(self).board.move_count + (depth as int) <= 65535,
            depth >= 1,
            old(self).board.state == crate::board::State::InGame,
        ensures
            node_wf(*final(self)),
            final(self).board == old(self).board,
            final(self).turn == old(self).turn,
            -2_001_000_000 <= bm.score <= 2_001_000_000,
            crate::moves::stats_wf(bm.stat),
            final(self).children is Some <==> spec_children(
                *old(self),
                config.random_mode,
            ).len() > 0,
            final(self).children is Some ==> (bm.local_id as int) < final(self).children->Some_0@.len() && final(self).children->Some_0@[bm.local_id as int].turn
                == bm.turn,
            !config.order_moves ==> bm.score == search_val(
                *old(self),
                config.eval_fn,
                config.random_mode,
                depth as int,
                max_player,
            ),
            (!config.order_moves && spec_children(*old(self), config.random_mode).len() > 0)
                ==> {
                let cs = spec_children(*old(self), config.random_mode);
                let w = config.eval_fn;
                let rm = config.random_mode;
                bm.local_id as int == fold_idx(cs, w, rm, depth as int, max_player, cs.len() as int)
                    && bm.turn == cs[fold_idx(cs, w, rm, depth as int, max_player, cs.len() as int)].turn
            },
        decreases depth, 0int,
    {
        let ghost pre = *old(self);
        let ghost w = config.eval_fn;
        let ghost rm = config.random_mode;
        self.gen_next_nodes(config, cache);
        let ghost cs0 = spec_children(pre, rm);
        let ghost post_gen = *self;
        let mut taken: Option<Vec<Node>> = None;
        core::mem::swap(&mut taken, &mut self.children);
        match taken {
            None => {
                // the side to move has nothing left: penalized leaf
                let e = crate::evaluation::evaluate(config.eval_fn, self);
                let penalized = if max_player {
                    clamp_cap_i32(e - PENALTY)
                } else {
                    clamp_cap_i32(e + PENALTY)
                };
                self.value = penalized;
                proof {
                    lemma_wf_same_shape(pre, *self);
                }
                self.as_terminal_leaf()
            },
            Some(mut rest) => {
                proof {
                    assert(Some(rest) == post_gen.children);
                    if !config.order_moves {
                        assert(rest@ == cs0);
                    }
                    lemma_wf_children(post_gen);
                    assert forall|i: int| 0 <= i < rest@.len() implies node_wf(
                        #[trigger] rest@[i],
                    ) && child_rel(pre, rest@[i]) by {
                        lemma_child_rel_same_parent(post_gen, pre, rest@[i]);
                    }
                }
                let n = rest.len();
                let mut out: Vec<Node> = Vec::new();
                let mut best = BestMove::new(
                    if max_player {
                        i32::MIN
                    } else {
                        i32::MAX
                    },
                );
                let mut index: usize = 0;
                while rest.len() > 0
                    invariant
                        node_wf(pre),
                        crate::slide_cache::table_complete(cache.table@),
                        pre.board.score + 262144 * (depth as int) <= u32::MAX,
                        pre.board.move_count + (depth as int) <= 65535,
                        depth >= 1,
                        w == config.eval_fn,
                        rm == config.random_mode,
                        self.board == pre.board,
                        self.turn == pre.turn,
                        out@.len() == index,
                        index + rest@.len() == n,
                        1 <= n <= 255,
                        !config.order_moves ==> n == cs0.len(),
                        !config.order_moves ==> rest@ == cs0.subrange(index as int, n as int),
                        forall|i: int| 0 <= i < rest@.len() ==> node_wf(#[trigger] rest@[i])
                            && child_rel(pre, rest@[i]),
                        forall|i: int| 0 <= i < out@.len() ==> node_wf(#[trigger] out@[i])
                            && child_rel(pre, out@[i]),
                        crate::moves::stats_wf(best.stat),
                        index == 0 ==> best.score == (if max_player {
                            i32::MIN
                        } else {
                            i32::MAX
                        }),
                        index >= 1 ==> -2_001_000_000 <= best.score <= 2_001_000_000,
                        index >= 1 ==> (best.local_id as int) < index && out@[best.local_id as int].turn == best.turn,
                        (!config.order_moves && index >= 1) ==> best.score == fold_val(
                            cs0,
                            w,
                            rm,
                            depth as int,
                            max_player,
                            index as int,
                        ) && best.local_id as int == fold_idx(
                            cs0,
                            w,
                            rm,
                            depth as int,
                            max_player,
                            index as int,
                        ) && best.turn == cs0[fold_idx(
                            cs0,
                            w,
                            rm,
                            depth as int,
                            max_player,
                            index as int,
                        )].turn,
                    decreases rest@.len(),
                {
                    let mut ch = rest.remove(0);
                    let ghost ch_pre = ch;
                    proof {
                        assert(child_rel(pre, ch));
                        crate::board::lemma_wf_cells_ok(pre.board);
                        if ch.turn is Human {
                            crate::board::lemma_slide_gain_bound(
                                pre.board@.cells,
                                ch.turn->Human_0,
                            );
                        }
                        assert(ch.board@.score <= pre.board.score + 262144);
                        assert(ch.board@.move_count == pre.board.move_count + 1);
                    }
                    let bm_child = ch.minimax(config, depth - 1, !max_player, cache);
                    if max_player {
                        max_score_move(bm_child, &mut best, &ch, index);
                    } else {
                        min_score_move(bm_child, &mut best, &ch, index);
                    }
                    proof {
                        lemma_child_rel_same_parent(pre, pre, ch_pre);
                        assert(child_rel(pre, ch));
                        if !config.order_moves {
                            assert(ch_pre == cs0[index as int]);
                            assert(rest@ =~= cs0.subrange(index + 1 as int, n as int));
                        }
                    }
                    out.push(ch);
                    index = index + 1;
                }
                proof {
                    if !config.order_moves {
                        assert(index as int == cs0.len());
                    }
                }
                self.children = Some(out);
                self.value = best.score;
                proof {
                    assert(node_wf(*self)) by {
                        assert forall|i: int|
                            0 <= i < self.children->Some_0@.len() implies node_wf(
                            #[trigger] self.children->Some_0@[i],
                        ) && child_rel(*self, self.children->Some_0@[i]) by {
                            lemma_child_rel_same_parent(pre, *self, self.children->Some_0@[i]);
                        }
                    }
                }
                best
            },
        }
    }

    /// The best move by negamax: the minimax recursion with a sign-
    /// flipping color, so one maximizing path serves both layers.  Without
    /// move ordering the score is exactly the negamax value of the tree as
    /// it stood — the color-signed minimax value on penalty-free positions
    /// (see `lemma_minimax_negamax_equiv`).
    #[verifier::rlimit(100)]
    #[verifier::spinoff_prover]
    pub(crate) fn negamax(
        &mut self,
        config: &EngineConfig,
        depth: u16,
        color: i8,
        cache: &SlideCache,
    ) -> (bm: BestMove)
        requires
            node_wf(*old(self)),
            crate::slide_cache::table_complete(cache.table@),
            old(self).board.score + 262144 * (depth as int) <= u32::MAX,
            old(self).board.move_count + (depth as int) <= 65535,
            color == 1 || color == -1,
        ensures
            node_wf(*final(self)),
            final(self).board == old(self).board,
            final(self).turn == old(self).turn,
            -2_001_000_000 <= bm.score <= 2_001_000_000,
            crate::moves::stats_wf(bm.stat),
            depth >= 1 && old(self).board.state == crate::board::State::InGame ==> (final(self).children is Some <==> spec_children(*old(self), config.random_mode).len() > 0),
            depth >= 1 && old(self).board.state == crate::board::State::InGame && final(self).children is Some ==> (bm.local_id as int) < final(self).children->Some_0@.len()
                && final(self).children->Some_0@[bm.local_id as int].turn == bm.turn,
            !config.order_moves ==> bm.score == nega_val(
                *old(self),
                config.eval_fn,
                config.random_mode,
                depth as int,
                color as int,
            ),
            (!config.order_moves && depth >= 1 && old(self).board.state
                == crate::board::State::InGame && spec_children(
                *old(self),
                config.random_mode,
            ).len() > 0) ==> {
                let cs = spec_children(*old(self), config.random_mode);
                let w = config.eval_fn;
                let rm = config.random_mode;
                bm.local_id as int == nega_idx(cs, w, rm, depth as int, color as int, cs.len() as int)
                    && bm.turn == cs[nega_idx(cs, w, rm, depth as int, color as int, cs.len() as int)].turn
            },
        decreases depth,
    {
        let ghost pre = *old(self);
        let ghost w = config.eval_fn;
        let ghost rm = config.random_mode;
        let lose = match self.board.state {
            crate::board::State::Lose => true,
            crate::board::State::InGame => false,
        };
        if depth == 0 || lose {
            let e = crate::evaluation::evaluate(config.eval_fn, self);
            let signed = if color == 1 {
                e
            } else {
                -e
            };
            self.value = signed;
            proof {
                lemma_wf_same_shape(pre, *self);
            }
            return self.as_terminal_leaf();
        }
        self.gen_next_nodes(config, cache);
        let ghost cs0 = spec_children(pre, rm);
        let ghost post_gen = *self;
        let mut taken: Option<Vec<Node>> = None;
        core::mem::swap(&mut taken, &mut self.children);
        match taken {
            None => {
                let e = crate::evaluation::evaluate(config.eval_fn, self);
                let t = clamp_cap_i32(e - PENALTY);
                let signed = if color == 1 {
                    t
                } else {
                    -t
                };
                self.value = signed;
                proof {
                    assert(signed as int == clamp_cap((color as int) * (eval_cached(w, pre)
                        - PENALTY)));
                    lemma_wf_same_shape(pre, *self);
                }
                self.as_terminal_leaf()
            },
            Some(mut rest) => {
                proof {
                    assert(Some(rest) == post_gen.children);
                    if !config.order_moves {
                        assert(rest@ == cs0);
                    }
                    lemma_wf_children(post_gen);
                    assert forall|i: int| 0 <= i < rest@.len() implies node_wf(
                        #[trigger] rest@[i],
                    ) && child_rel(pre, rest@[i]) by {
                        lemma_child_rel_same_parent(post_gen, pre, rest@[i]);
                    }
                }
                let n = rest.len();
                let mut out: Vec<Node> = Vec::new();
                let mut best = BestMove::new(i32::MIN);
                let mut index: usize = 0;
                while rest.len() > 0
                    invariant
                        node_wf(pre),
                        crate::slide_cache::table_complete(cache.table@),
                        pre.board.score + 262144 * (depth as int) <= u32::MAX,
                        pre.board.move_count + (depth as int) <= 65535,
                        depth >= 1,
                        color == 1 || color == -1,
                        w == config.eval_fn,
                        rm == config.random_mode,
                        self.board == pre.board,
                        self.turn == pre.turn,
                        out@.len() == index,
                        index + rest@.len() == n,
                        1 <= n <= 255,
                        !config.order_moves ==> n == cs0.len(),
                        !config.order_moves ==> rest@ == cs0.subrange(index as int, n as int),
                        forall|i: int| 0 <= i < rest@.len() ==> node_wf(#[trigger] rest@[i])
                            && child_rel(pre, rest@[i]),
                        forall|i: int| 0 <= i < out@.len() ==> node_wf(#[trigger] out@[i])
                            && child_rel(pre, out@[i]),
                        crate::moves::stats_wf(best.stat),
                        index == 0 ==> best.score == i32::MIN,
                        index >= 1 ==> -2_001_000_000 <= best.score <= 2_001_000_000,
                        index >= 1 ==> (best.local_id as int) < index && out@[best.local_id as int].turn == best.turn,
                        (!config.order_moves && index >= 1) ==> best.score == nega_fold(
                            cs0,
                            w,
                            rm,
                            depth as int,
                            color as int,
                            index as int,
                        ) && best.local_id as int == nega_idx(
                            cs0,
                            w,
                            rm,
                            depth as int,
                            color as int,
                            index as int,
                        ) && best.turn == cs0[nega_idx(
                            cs0,
                            w,
                            rm,
                            depth as int,
                            color as int,
                            index as int,
                        )].turn,
                    decreases rest@.len(),
                {
                    let mut ch = rest.remove(0);
                    let ghost ch_pre = ch;
                    proof {
                        assert(child_rel(pre, ch));
                        crate::board::lemma_wf_cells_ok(pre.board);
                        if ch.turn is Human {
                            crate::board::lemma_slide_gain_bound(
                                pre.board@.cells,
                                ch.turn->Human_0,
                            );
                        }
                    }
                    let neg_color: i8 = if color == 1 {
                        -1
                    } else {
                        1
                    };
                    let bm_child = ch.negamax(config, depth - 1, neg_color, cache).negated();
                    max_score_move(bm_child, &mut best, &ch, index);
                    proof {
                        lemma_child_rel_same_parent(pre, pre, ch_pre);
                        if !config.order_moves {
                            assert(ch_pre == cs0[index as int]);
                            assert(rest@ =~= cs0.subrange(index + 1 as int, n as int));
                        }
                    }
                    out.push(ch);
                    index = index + 1;
                }
                self.children = Some(out);
                self.value = best.score;
                proof {
                    assert(node_wf(*self)) by {
                        assert forall|i: int|
                            0 <= i < self.children->Some_0@.len() implies node_wf(
                            #[trigger] self.children->Some_0@[i],
                        ) && child_rel(*self, self.children->Some_0@[i]) by {
                            lemma_child_rel_same_parent(pre, *self, self.children->Some_0@[i]);
                        }
                    }
                }
                best
            },
        }
    }
}

/// Order the children best-static-value-first: afterwards the values are
/// non-increasing, and every child still carries its own static
/// evaluation and stays a legal successor.
#[verifier::rlimit(100)]
#[verifier::spinoff_prover]
fn sort_children_by_value(v: &mut Vec<Node>, parent: Ghost<Node>, w: Ghost<Weights>)
    requires
        forall|i: int| 0 <= i < old(v)@.len() ==> node_wf(#[trigger] old(v)@[i]) && child_rel(
            parent@,
            old(v)@[i],
        ) && old(v)@[i].value as int == crate::evaluation::eval_spec(w@, old(v)@[i].board)
            && old(v)@[i].children is None,
        old(v)@.len() <= 255,
    ensures
        final(v)@.len() == old(v)@.len(),
        forall|i: int| 0 <= i < final(v)@.len() ==> node_wf(#[trigger] final(v)@[i]) && child_rel(
            parent@,
            final(v)@[i],
        ) && final(v)@[i].value as int == crate::evaluation::eval_spec(w@, final(v)@[i].board)
            && final(v)@[i].children is None,
        forall|i: int, j: int| 0 <= i < j < final(v)@.len() ==> (#[trigger] final(v)@[i]).value
            >= (#[trigger] final(v)@[j]).value,
{
    let len = v.len();
    for pass in 0..len
        invariant
            v@.len() == len,
            len <= 255,
            forall|i: int| 0 <= i < v@.len() ==> node_wf(#[trigger] v@[i]) && child_rel(
                parent@,
                v@[i],
            ) && v@[i].value as int == crate::evaluation::eval_spec(w@, v@[i].board)
                && v@[i].children is None,
            // the last `pass` slots hold a sorted tail...
            forall|i: int, j: int| len - pass <= i < j < len ==> (#[trigger] v@[i]).value >= (
            #[trigger] v@[j]).value,
            // ...that every earlier element dominates
            forall|i: int, j: int| 0 <= i < len - pass && len - pass <= j < len ==> (
            #[trigger] v@[i]).value >= (#[trigger] v@[j]).value,
    {
        let mut b: usize = 0;
        while b + 1 < len
            invariant
                v@.len() == len,
                len <= 255,
                pass < len,
                b <= len,
                forall|i: int| 0 <= i < v@.len() ==> node_wf(#[trigger] v@[i]) && child_rel(
                    parent@,
                    v@[i],
                ) && v@[i].value as int == crate::evaluation::eval_spec(w@, v@[i].board)
                    && v@[i].children is None,
                forall|i: int, j: int| len - pass <= i < j < len ==> (#[trigger] v@[i]).value
                    >= (#[trigger] v@[j]).value,
                forall|i: int, j: int| 0 <= i < len - pass && len - pass <= j < len ==> (
                #[trigger] v@[i]).value >= (#[trigger] v@[j]).value,
                // the running element is the smallest seen so far
                forall|i: int| 0 <= i <= b && b < len ==> (#[trigger] v@[i]).value >= v@[
                    b as int
                ].value,
                // once the scan passed the tail boundary, the slot before
                // it already holds the minimum of the leading part
                (len - pass >= 1 && b >= len - pass) ==> forall|i: int|
                    0 <= i < len - pass ==> (#[trigger] v@[i]).value >= v@[len - pass - 1].value,
            decreases len - b,
        {
            if v[b].value < v[b + 1].value {
                let ghost before = v@;
                let x = v.remove(b);
                v.insert(b + 1, x);
                proof {
                    assert(v@ =~= before.update(b as int, before[b + 1]).update(
                        b + 1,
                        before[b as int],
                    ));
                }
            }
            b = b + 1;
        }
        proof {
            // the pass carried the minimum of the unsorted prefix to its end
            assert forall|i: int, j: int|
                len - pass - 1 <= i < j < len implies (#[trigger] v@[i]).value >= (
            #[trigger] v@[j]).value by {}
        }
    }
}
impl Node {
    /// Minimax with alpha-beta pruning: identical to `minimax` except that
    /// siblings provably irrelevant to the window `[alpha, beta]` are cut.
    /// Without move ordering the result is fail-soft exact: a score inside
    /// the window is the plain minimax value with the same chosen child,
    /// and a score at or outside a bound bounds that value from the
    /// matching side — so at a full window pruning never changes the
    /// answer.
    pub(crate) fn minimax_alphabeta(
        &mut self,
        config: &EngineConfig,
        depth: u16,
        alpha: i32,
        beta: i32,
        max_player: bool,
        cache: &SlideCache,
    ) -> (bm: BestMove)
        requires
            node_wf(*old(self)),
            crate::slide_cache::table_complete(cache.table@),
            old(self).board.score + 262144 * (depth as int) <= u32::MAX,
            old(self).board.move_count + (depth as int) <= 65535,
            i32::MIN < alpha < beta,
        ensures
            node_wf(*final(self)),
            final(self).board == old(self).board,
            final(self).turn == old(self).turn,
            -2_001_000_000 <= bm.score <= 2_001_000_000,
            crate::moves::stats_wf(bm.stat),
            depth >= 1 && old(self).board.state == crate::board::State::InGame ==> (final(self).children is Some <==> spec_children(*old(self), config.random_mode).len() > 0),
            depth >= 1 && old(self).board.state == crate::board::State::InGame && final(self).children is Some ==> (bm.local_id as int) < final(self).children->Some_0@.len()
                && final(self).children->Some_0@[bm.local_id as int].turn == bm.turn,
            !config.order_moves && alpha < bm.score < beta ==> bm.score == search_val(
                *old(self),
                config.eval_fn,
                config.random_mode,
                depth as int,
                max_player,
            ),
            !config.order_moves && bm.score <= alpha ==> search_val(
                *old(self),
                config.eval_fn,
                config.random_mode,
                depth as int,
                max_player,
            ) <= bm.score,
            !config.order_moves && bm.score >= beta ==> search_val(
                *old(self),
                config.eval_fn,
                config.random_mode,
                depth as int,
                max_player,
            ) >= bm.score,
            (!config.order_moves && alpha < bm.score < beta && depth >= 1 && old(self).board.state
                == crate::board::State::InGame && spec_children(*old(self), config.random_mode).len() > 0) ==> {
                let cs = spec_children(*old(self), config.random_mode);
                let w = config.eval_fn;
                let rm = config.random_mode;
                bm.local_id as int == fold_idx(cs, w, rm, depth as int, max_player, cs.len() as int)
                    && bm.turn == cs[fold_idx(cs, w, rm, depth as int, max_player, cs.len() as int)].turn
            },
        decreases depth, 1int,
    {
        let lose = match self.board.state {
            crate::board::State::Lose => true,
            crate::board::State::InGame => false,
        };
        if depth == 0 || lose {
            let ghost pre = *self;
            let e = crate::evaluation::evaluate(config.eval_fn, self);
            self.value = e;
            proof {
                lemma_wf_same_shape(pre, *self);
            }
            return self.as_terminal_leaf();
        }
        if max_player {
            self.minimax_ab_max(config, depth, alpha, beta, cache)
        } else {
            self.minimax_ab_min(config, depth, alpha, beta, cache)
        }
    }

    /// The maximizing scan of `minimax_alphabeta`.
    #[verifier::rlimit(100)]
    #[verifier::spinoff_prover]
    fn minimax_ab_max(
        &mut self,
        config: &EngineConfig,
        depth: u16,
        alpha: i32,
        beta: i32,
        cache: &SlideCache,
    ) -> (bm: BestMove)
        requires
            node_wf(*old(self)),
            crate::slide_cache::table_complete(cache.table@),
            old(self).board.score + 262144 * (depth as int) <= u32::MAX,
            old(self).board.move_count + (depth as int) <= 65535,
            i32::MIN < alpha < beta,
            depth >= 1,
            old(self).board.state == crate::board::State::InGame,
        ensures
            node_wf(*final(self)),
            final(self).board == old(self).board,
            final(self).turn == old(self).turn,
            -2_001_000_000 <= bm.score <= 2_001_000_000,
            crate::moves::stats_wf(bm.stat),
            final(self).children is Some <==> spec_children(*old(self), config.random_mode).len() > 0,
            final(self).children is Some ==> (bm.local_id as int) < final(self).children->Some_0@.len()
                && final(self).children->Some_0@[bm.local_id as int].turn == bm.turn,
            !config.order_moves && alpha < bm.score < beta ==> bm.score == search_val(
                *old(self),
                config.eval_fn,
                config.random_mode,
                depth as int,
                true,
            ),
            !config.order_moves && bm.score <= alpha ==> search_val(
                *old(self),
                config.eval_fn,
                config.random_mode,
                depth as int,
                true,
            ) <= bm.score,
            !config.order_moves && bm.score >= beta ==> search_val(
                *old(self),
                config.eval_fn,
                config.random_mode,
                depth as int,
                true,
            ) >= bm.score,
            (!config.order_moves && alpha < bm.score < beta && spec_children(*old(self), config.random_mode).len() > 0) ==> {
                let cs = spec_children(*old(self), config.random_mode);
                let w = config.eval_fn;
                let rm = config.random_mode;
                bm.local_id as int == fold_idx(cs, w, rm, depth as int, true, cs.len() as int)
                    && bm.turn == cs[fold_idx(cs, w, rm, depth as int, true, cs.len() as int)].turn
            },
        decreases depth, 0int,
    {
        let ghost pre = *old(self);
        let ghost w = config.eval_fn;
        let ghost rm = config.random_mode;
        self.gen_next_nodes(config, cache);
        let ghost cs0 = spec_children(pre, rm);
        let ghost post_gen = *self;
        let mut taken: Option<Vec<Node>> = None;
        core::mem::swap(&mut taken, &mut self.children);
        match taken {
            None => {
                let e = crate::evaluation::evaluate(config.eval_fn, self);
                let penalized = clamp_cap_i32(e - PENALTY);
                self.value = penalized;
                proof {
                    lemma_wf_same_shape(pre, *self);
                }
                self.as_terminal_leaf()
            },
            Some(mut rest) => {
                proof {
                    assert(Some(rest) == post_gen.children);
                    if !config.order_moves {
                        assert(rest@ == cs0);
                    }
                    lemma_wf_children(post_gen);
                    assert forall|i: int| 0 <= i < rest@.len() implies node_wf(
                        #[trigger] rest@[i],
                    ) && child_rel(pre, rest@[i]) by {
                        lemma_child_rel_same_parent(post_gen, pre, rest@[i]);
                    }
                }
                let n = rest.len();
                let mut out: Vec<Node> = Vec::new();
                let mut best = BestMove::new(i32::MIN);
                let mut index: usize = 0;
                let mut alpha_cur = alpha;
                let mut done = false;
                while !done && rest.len() > 0
                    invariant
                        node_wf(pre),
                        crate::slide_cache::table_complete(cache.table@),
                        pre.board.score + 262144 * (depth as int) <= u32::MAX,
                        pre.board.move_count + (depth as int) <= 65535,
                        depth >= 1,
                        pre.board.state == crate::board::State::InGame,
                        i32::MIN < alpha < beta,
                        w == config.eval_fn,
                        rm == config.random_mode,
                        cs0 == spec_children(pre, rm),
                        self.board == pre.board,
                        self.turn == pre.turn,
                        out@.len() == index,
                        index + rest@.len() == n,
                        1 <= n <= 255,
                        !config.order_moves ==> n == cs0.len(),
                        !config.order_moves ==> rest@ == cs0.subrange(index as int, n as int),
                        forall|i: int| 0 <= i < rest@.len() ==> node_wf(#[trigger] rest@[i])
                            && child_rel(pre, rest@[i]),
                        forall|i: int| 0 <= i < out@.len() ==> node_wf(#[trigger] out@[i])
                            && child_rel(pre, out@[i]),
                        crate::moves::stats_wf(best.stat),
                        index == 0 ==> best.score == i32::MIN && !done,
                        index >= 1 ==> -2_001_000_000 <= best.score <= 2_001_000_000,
                        index >= 1 ==> (best.local_id as int) < index && out@[best.local_id as int].turn
                            == best.turn,
                        alpha_cur == (if best.score > alpha {
                            best.score
                        } else {
                            alpha
                        }),
                        !done ==> alpha_cur < beta,
                        done ==> index >= 1 && best.score >= beta,
                        (!config.order_moves && index >= 1 && best.score <= alpha) ==> fold_val(
                            cs0,
                            w,
                            rm,
                            depth as int,
                            true,
                            index as int,
                        ) <= best.score,
                        (!config.order_moves && !done && index >= 1 && best.score > alpha)
                            ==> best.score
                            == fold_val(cs0, w, rm, depth as int, true, index as int)
                            && best.local_id as int == fold_idx(
                            cs0,
                            w,
                            rm,
                            depth as int,
                            true,
                            index as int,
                        ) && best.turn == cs0[fold_idx(
                            cs0,
                            w,
                            rm,
                            depth as int,
                            true,
                            index as int,
                        )].turn,
                        (!config.order_moves && done) ==> fold_val(
                            cs0,
                            w,
                            rm,
                            depth as int,
                            true,
                            cs0.len() as int,
                        ) >= best.score,
                    decreases rest@.len(),
                {
                    let mut ch = rest.remove(0);
                    let ghost ch_pre = ch;
                    let ghost i0 = index as int;
                    let ghost best0 = best;
                    proof {
                        assert(child_rel(pre, ch));
                        crate::board::lemma_wf_cells_ok(pre.board);
                        if ch.turn is Human {
                            crate::board::lemma_slide_gain_bound(
                                pre.board@.cells,
                                ch.turn->Human_0,
                            );
                        }
                    }
                    let ghost a_entry = alpha_cur;
                    let bm_child = ch.minimax_alphabeta(
                        config,
                        depth - 1,
                        alpha_cur,
                        beta,
                        false,
                        cache,
                    );
                    max_score_move(bm_child, &mut best, &ch, index);
                    out.push(ch);
                    index = index + 1;
                    if best.score > alpha_cur {
                        alpha_cur = best.score;
                    }
                    if alpha_cur >= beta {
                        best.stat.cut_nodes = crate::moves::sat_add_u32(best.stat.cut_nodes, 1);
                        done = true;
                    }
                    proof {
                        lemma_child_rel_same_parent(pre, pre, ch_pre);
                        if !config.order_moves {
                            assert(ch_pre == cs0[i0]);
                            assert(rest@ =~= cs0.subrange(index as int, n as int));
                            let c = search_val(cs0[i0], w, rm, depth as int - 1, false);
                            let ctil = bm_child.score as int;
                            if i0 == 0 {
                                assert(fold_val(cs0, w, rm, depth as int, true, 1) == c);
                                assert(fold_idx(cs0, w, rm, depth as int, true, 1) == 0);
                            } else {
                                assert(fold_val(cs0, w, rm, depth as int, true, i0 + 1) == (
                                if c > fold_val(cs0, w, rm, depth as int, true, i0) {
                                    c
                                } else {
                                    fold_val(cs0, w, rm, depth as int, true, i0)
                                }));
                                assert(fold_idx(cs0, w, rm, depth as int, true, i0 + 1) == (
                                if c > fold_val(cs0, w, rm, depth as int, true, i0) {
                                    i0
                                } else {
                                    fold_idx(cs0, w, rm, depth as int, true, i0)
                                }));
                            }
                            if !done {
                                assert(best.score < beta);
                                assert(ctil <= best.score);
                                if ctil > a_entry {
                                    assert(ctil < beta);
                                    assert(c == ctil);
                                } else {
                                    assert(c <= ctil);
                                }
                            }
                            if done {
                                assert(best.score == ctil);
                                assert(ctil >= beta);
                                assert(c >= ctil);
                                lemma_fold_ge(
                                    cs0,
                                    w,
                                    rm,
                                    depth as int,
                                    true,
                                    cs0.len() as int,
                                    i0,
                                );
                            }
                        }
                    }
                }
                out.append(&mut rest);
                self.children = Some(out);
                self.value = best.score;
                proof {
                    assert(node_wf(*self)) by {
                        assert forall|i: int|
                            0 <= i < self.children->Some_0@.len() implies node_wf(
                            #[trigger] self.children->Some_0@[i],
                        ) && child_rel(*self, self.children->Some_0@[i]) by {
                            lemma_child_rel_same_parent(pre, *self, self.children->Some_0@[i]);
                        }
                    }
                }
                best
            },
        }
    }
}

impl Node {
    /// The minimizing scan of `minimax_alphabeta`.
    #[verifier::rlimit(100)]
    #[verifier::spinoff_prover]
    fn minimax_ab_min(
        &mut self,
        config: &EngineConfig,
        depth: u16,
        alpha: i32,
        beta: i32,
        cache: &SlideCache,
    ) -> (bm: BestMove)
        requires
            node_wf(*old(self)),
            crate::slide_cache::table_complete(cache.table@),
            old(self).board.score + 262144 * (depth as int) <= u32::MAX,
            old(self).board.move_count + (depth as int) <= 65535,
            i32::MIN < alpha < beta,
            depth >= 1,
            old(self).board.state == crate::board::State::InGame,
        ensures
            node_wf(*final(self)),
            final(self).board == old(self).board,
            final(self).turn == old(self).turn,
            -2_001_000_000 <= bm.score <= 2_001_000_000,
            crate::moves::stats_wf(bm.stat),
            final(self).children is Some <==> spec_children(*old(self), config.random_mode).len() > 0,
            final(self).children is Some ==> (bm.local_id as int) < final(self).children->Some_0@.len()
                && final(self).children->Some_0@[bm.local_id as int].turn == bm.turn,
            !config.order_moves && alpha < bm.score < beta ==> bm.score == search_val(
                *old(self),
                config.eval_fn,
                config.random_mode,
                depth as int,
                false,
            ),
            !config.order_moves && bm.score <= alpha ==> search_val(
                *old(self),
                config.eval_fn,
                config.random_mode,
                depth as int,
                false,
            ) <= bm.score,
            !config.order_moves && bm.score >= beta ==> search_val(
                *old(self),
                config.eval_fn,
                config.random_mode,
                depth as int,
                false,
            ) >= bm.score,
            (!config.order_moves && alpha < bm.score < beta && spec_children(*old(self), config.random_mode).len() > 0) ==> {
                let cs = spec_children(*old(self), config.random_mode);
                let w = config.eval_fn;
                let rm = config.random_mode;
                bm.local_id as int == fold_idx(cs, w, rm, depth as int, false, cs.len() as int)
                    && bm.turn == cs[fold_idx(cs, w, rm, depth as int, false, cs.len() as int)].turn
            },
        decreases depth, 0int,
    {
        let ghost pre = *old(self);
        let ghost w = config.eval_fn;
        let ghost rm = config.random_mode;
        self.gen_next_nodes(config, cache);
        let ghost cs0 = spec_children(pre, rm);
        let ghost post_gen = *self;
        let mut taken: Option<Vec<Node>> = None;
        core::mem::swap(&mut taken, &mut self.children);
        match taken {
            None => {
                let e = crate::evaluation::evaluate(config.eval_fn, self);
                let penalized = clamp_cap_i32(e + PENALTY);
                self.value = penalized;
                proof {
                    lemma_wf_same_shape(pre, *self);
                }
                self.as_terminal_leaf()
            },
            Some(mut rest) => {
                proof {
                    assert(Some(rest) == post_gen.children);
                    if !config.order_moves {
                        assert(rest@ == cs0);
                    }
                    lemma_wf_children(post_gen);
                    assert forall|i: int| 0 <= i < rest@.len() implies node_wf(
                        #[trigger] rest@[i],
                    ) && child_rel(pre, rest@[i]) by {
                        lemma_child_rel_same_parent(post_gen, pre, rest@[i]);
                    }
                }
                let n = rest.len();
                let mut out: Vec<Node> = Vec::new();
                let mut best = BestMove::new(i32::MAX);
                let mut index: usize = 0;
                let mut beta_cur = beta;
                let mut done = false;
                while !done && rest.len() > 0
                    invariant
                        node_wf(pre),
                        crate::slide_cache::table_complete(cache.table@),
                        pre.board.score + 262144 * (depth as int) <= u32::MAX,
                        pre.board.move_count + (depth as int) <= 65535,
                        depth >= 1,
                        pre.board.state == crate::board::State::InGame,
                        i32::MIN < alpha < beta,
                        w == config.eval_fn,
                        rm == config.random_mode,
                        cs0 == spec_children(pre, rm),
                        self.board == pre.board,
                        self.turn == pre.turn,
                        out@.len() == index,
                        index + rest@.len() == n,
                        1 <= n <= 255,
                        !config.order_moves ==> n == cs0.len(),
                        !config.order_moves ==> rest@ == cs0.subrange(index as int, n as int),
                        forall|i: int| 0 <= i < rest@.len() ==> node_wf(#[trigger] rest@[i])
                            && child_rel(pre, rest@[i]),
                        forall|i: int| 0 <= i < out@.len() ==> node_wf(#[trigger] out@[i])
                            && child_rel(pre, out@[i]),
                        crate::moves::stats_wf(best.stat),
                        index == 0 ==> best.score == i32::MAX && !done,
                        index >= 1 ==> -2_001_000_000 <= best.score <= 2_001_000_000,
                        index >= 1 ==> (best.local_id as int) < index && out@[best.local_id as int].turn
                            == best.turn,
                        beta_cur == (if best.score < beta {
                            best.score
                        } else {
                            beta
                        }),
                        !done ==> alpha < beta_cur,
                        done ==> index >= 1 && best.score <= alpha,
                        (!config.order_moves && index >= 1 && best.score >= beta) ==> fold_val(
                            cs0,
                            w,
                            rm,
                            depth as int,
                            false,
                            index as int,
                        ) >= best.score,
                        (!config.order_moves && !done && index >= 1 && best.score < beta)
                            ==> best.score
                            == fold_val(cs0, w, rm, depth as int, false, index as int)
                            && best.local_id as int == fold_idx(
                            cs0,
                            w,
                            rm,
                            depth as int,
                            false,
                            index as int,
                        ) && best.turn == cs0[fold_idx(
                            cs0,
                            w,
                            rm,
                            depth as int,
                            false,
                            index as int,
                        )].turn,
                        (!config.order_moves && done) ==> fold_val(
                            cs0,
                            w,
                            rm,
                            depth as int,
                            false,
                            cs0.len() as int,
                        ) <= best.score,
                    decreases rest@.len(),
                {
                    let mut ch = rest.remove(0);
                    let ghost ch_pre = ch;
                    let ghost i0 = index as int;
                    proof {
                        assert(child_rel(pre, ch));
                        crate::board::lemma_wf_cells_ok(pre.board);
                        if ch.turn is Human {
                            crate::board::lemma_slide_gain_bound(
                                pre.board@.cells,
                                ch.turn->Human_0,
                            );
                        }
                    }
                    let ghost b_entry = beta_cur;
                    let bm_child = ch.minimax_alphabeta(
                        config,
                        depth - 1,
                        alpha,
                        beta_cur,
                        true,
                        cache,
                    );
                    min_score_move(bm_child, &mut best, &ch, index);
                    out.push(ch);
                    index = index + 1;
                    if best.score < beta_cur {
                        beta_cur = best.score;
                    }
                    if alpha >= beta_cur {
                        best.stat.cut_nodes = crate::moves::sat_add_u32(best.stat.cut_nodes, 1);
                        done = true;
                    }
                    proof {
                        lemma_child_rel_same_parent(pre, pre, ch_pre);
                        if !config.order_moves {
                            assert(ch_pre == cs0[i0]);
                            assert(rest@ =~= cs0.subrange(index as int, n as int));
                            let c = search_val(cs0[i0], w, rm, depth as int - 1, true);
                            let ctil = bm_child.score as int;
                            if i0 == 0 {
                                assert(fold_val(cs0, w, rm, depth as int, false, 1) == c);
                                assert(fold_idx(cs0, w, rm, depth as int, false, 1) == 0);
                            } else {
                                assert(fold_val(cs0, w, rm, depth as int, false, i0 + 1) == (
                                if c < fold_val(cs0, w, rm, depth as int, false, i0) {
                                    c
                                } else {
                                    fold_val(cs0, w, rm, depth as int, false, i0)
                                }));
                                assert(fold_idx(cs0, w, rm, depth as int, false, i0 + 1) == (
                                if c < fold_val(cs0, w, rm, depth as int, false, i0) {
                                    i0
                                } else {
                                    fold_idx(cs0, w, rm, depth as int, false, i0)
                                }));
                            }
                            if !done {
                                assert(best.score > alpha);
                                assert(ctil >= best.score);
                                if ctil < b_entry {
                                    assert(ctil > alpha);
                                    assert(c == ctil);
                                } else {
                                    assert(c >= ctil);
                                }
                            }
                            if done {
                                assert(best.score == ctil);
                                assert(ctil <= alpha);
                                assert(c <= ctil);
                                lemma_fold_ge(
                                    cs0,
                                    w,
                                    rm,
                                    depth as int,
                                    false,
                                    cs0.len() as int,
                                    i0,
                                );
                            }
                        }
                    }
                }
                out.append(&mut rest);
                self.children = Some(out);
                self.value = best.score;
                proof {
                    assert(node_wf(*self)) by {
                        assert forall|i: int|
                            0 <= i < self.children->Some_0@.len() implies node_wf(
                            #[trigger] self.children->Some_0@[i],
                        ) && child_rel(*self, self.children->Some_0@[i]) by {
                            lemma_child_rel_same_parent(pre, *self, self.children->Some_0@[i]);
                        }
                    }
                }
                best
            },
        }
    }

    /// Negamax with alpha-beta pruning: the pruned search expressed with
    /// the sign-flipping color.  Fail-soft exact against the negamax value
    /// in the same three cases as `minimax_alphabeta`.
    #[verifier::rlimit(100)]
    #[verifier::spinoff_prover]
    pub(crate) fn negamax_alphabeta(
        &mut self,
        config: &EngineConfig,
        depth: u16,
        alpha: i32,
        beta: i32,
        color: i8,
        cache: &SlideCache,
    ) -> (bm: BestMove)
        requires
            node_wf(*old(self)),
            crate::slide_cache::table_complete(cache.table@),
            old(self).board.score + 262144 * (depth as int) <= u32::MAX,
            old(self).board.move_count + (depth as int) <= 65535,
            i32::MIN < alpha < beta,
            color == 1 || color == -1,
        ensures
            node_wf(*final(self)),
            final(self).board == old(self).board,
            final(self).turn == old(self).turn,
            -2_001_000_000 <= bm.score <= 2_001_000_000,
            crate::moves::stats_wf(bm.stat),
            depth >= 1 && old(self).board.state == crate::board::State::InGame ==> (final(self).children is Some <==> spec_children(*old(self), config.random_mode).len() > 0),
            depth >= 1 && old(self).board.state == crate::board::State::InGame && final(self).children is Some ==> (bm.local_id as int) < final(self).children->Some_0@.len()
                && final(self).children->Some_0@[bm.local_id as int].turn == bm.turn,
            !config.order_moves && alpha < bm.score < beta ==> bm.score == nega_val(
                *old(self),
                config.eval_fn,
                config.random_mode,
                depth as int,
                color as int,
            ),
            !config.order_moves && bm.score <= alpha ==> nega_val(
                *old(self),
                config.eval_fn,
                config.random_mode,
                depth as int,
                color as int,
            ) <= bm.score,
            !config.order_moves && bm.score >= beta ==> nega_val(
                *old(self),
                config.eval_fn,
                config.random_mode,
                depth as int,
                color as int,
            ) >= bm.score,
            (!config.order_moves && alpha < bm.score < beta && depth >= 1 && old(self).board.state
                == crate::board::State::InGame && spec_children(*old(self), config.random_mode).len() > 0) ==> {
                let cs = spec_children(*old(self), config.random_mode);
                let w = config.eval_fn;
                let rm = config.random_mode;
                bm.local_id as int == nega_idx(cs, w, rm, depth as int, color as int, cs.len() as int)
                    && bm.turn == cs[nega_idx(cs, w, rm, depth as int, color as int, cs.len() as int)].turn
            },
        decreases depth,
    {
        let ghost pre = *old(self);
        let ghost w = config.eval_fn;
        let ghost rm = config.random_mode;
        let lose = match self.board.state {
            crate::board::State::Lose => true,
            crate::board::State::InGame => false,
        };
        if depth == 0 || lose {
            let e = crate::evaluation::evaluate(config.eval_fn, self);
            let signed = if color == 1 {
                e
            } else {
                -e
            };
            self.value = signed;
            proof {
                lemma_wf_same_shape(pre, *self);
            }
            return self.as_terminal_leaf();
        }
        self.gen_next_nodes(config, cache);
        let ghost cs0 = spec_children(pre, rm);
        let ghost post_gen = *self;
        let mut taken: Option<Vec<Node>> = None;
        core::mem::swap(&mut taken, &mut self.children);
        match taken {
            None => {
                let e = crate::evaluation::evaluate(config.eval_fn, self);
                let t = clamp_cap_i32(e - PENALTY);
                let signed = if color == 1 {
                    t
                } else {
                    -t
                };
                self.value = signed;
                proof {
                    assert(signed as int == clamp_cap((color as int) * (eval_cached(w, pre)
                        - PENALTY)));
                    lemma_wf_same_shape(pre, *self);
                }
                self.as_terminal_leaf()
            },
            Some(mut rest) => {
                proof {
                    assert(Some(rest) == post_gen.children);
                    if !config.order_moves {
                        assert(rest@ == cs0);
                    }
                    lemma_wf_children(post_gen);
                    assert forall|i: int| 0 <= i < rest@.len() implies node_wf(
                        #[trigger] rest@[i],
                    ) && child_rel(pre, rest@[i]) by {
                        lemma_child_rel_same_parent(post_gen, pre, rest@[i]);
                    }
                }
                let n = rest.len();
                let mut out: Vec<Node> = Vec::new();
                let mut best = BestMove::new(i32::MIN);
                let mut index: usize = 0;
                let mut alpha_cur = alpha;
                let mut done = false;
                while !done && rest.len() > 0
                    invariant
                        node_wf(pre),
                        crate::slide_cache::table_complete(cache.table@),
                        pre.board.score + 262144 * (depth as int) <= u32::MAX,
                        pre.board.move_count + (depth as int) <= 65535,
                        depth >= 1,
                        pre.board.state == crate::board::State::InGame,
                        i32::MIN < alpha < beta,
                        color == 1 || color == -1,
                        w == config.eval_fn,
                        rm == config.random_mode,
                        cs0 == spec_children(pre, rm),
                        self.board == pre.board,
                        self.turn == pre.turn,
                        out@.len() == index,
                        index + rest@.len() == n,
                        1 <= n <= 255,
                        !config.order_moves ==> n == cs0.len(),
                        !config.order_moves ==> rest@ == cs0.subrange(index as int, n as int),
                        forall|i: int| 0 <= i < rest@.len() ==> node_wf(#[trigger] rest@[i])
                            && child_rel(pre, rest@[i]),
                        forall|i: int| 0 <= i < out@.len() ==> node_wf(#[trigger] out@[i])
                            && child_rel(pre, out@[i]),
                        crate::moves::stats_wf(best.stat),
                        index == 0 ==> best.score == i32::MIN && !done,
                        index >= 1 ==> -2_001_000_000 <= best.score <= 2_001_000_000,
                        index >= 1 ==> (best.local_id as int) < index && out@[best.local_id as int].turn
                            == best.turn,
                        alpha_cur == (if best.score > alpha {
                            best.score
                        } else {
                            alpha
                        }),
                        !done ==> alpha_cur < beta,
                        done ==> index >= 1 && best.score >= beta,
                        (!config.order_moves && index >= 1 && best.score <= alpha) ==> nega_fold(
                            cs0,
                            w,
                            rm,
                            depth as int,
                            color as int,
                            index as int,
                        ) <= best.score,
                        (!config.order_moves && !done && index >= 1 && best.score > alpha)
                            ==> best.score
                            == nega_fold(cs0, w, rm, depth as int, color as int, index as int)
                            && best.local_id as int == nega_idx(
                            cs0,
                            w,
                            rm,
                            depth as int,
                            color as int,
                            index as int,
                        ) && best.turn == cs0[nega_idx(
                            cs0,
                            w,
                            rm,
                            depth as int,
                            color as int,
                            index as int,
                        )].turn,
                        (!config.order_moves && done) ==> nega_fold(
                            cs0,
                            w,
                            rm,
                            depth as int,
                            color as int,
                            cs0.len() as int,
                        ) >= best.score,
                    decreases rest@.len(),
                {
                    let mut ch = rest.remove(0);
                    let ghost ch_pre = ch;
                    let ghost i0 = index as int;
                    proof {
                        assert(child_rel(pre, ch));
                        crate::board::lemma_wf_cells_ok(pre.board);
                        if ch.turn is Human {
                            crate::board::lemma_slide_gain_bound(
                                pre.board@.cells,
                                ch.turn->Human_0,
                            );
                        }
                    }
                    let neg_color: i8 = if color == 1 {
                        -1
                    } else {
                        1
                    };
                    let ghost a_entry = alpha_cur;
                    let bm_child = ch.negamax_alphabeta(
                        config,
                        depth - 1,
                        -beta,
                        -alpha_cur,
                        neg_color,
                        cache,
                    ).negated();
                    max_score_move(bm_child, &mut best, &ch, index);
                    out.push(ch);
                    index = index + 1;
                    if best.score > alpha_cur {
                        alpha_cur = best.score;
                    }
                    if alpha_cur >= beta {
                        best.stat.cut_nodes = crate::moves::sat_add_u32(best.stat.cut_nodes, 1);
                        done = true;
                    }
                    proof {
                        lemma_child_rel_same_parent(pre, pre, ch_pre);
                        if !config.order_moves {
                            assert(ch_pre == cs0[i0]);
                            assert(rest@ =~= cs0.subrange(index as int, n as int));
                            let c = -nega_val(cs0[i0], w, rm, depth as int - 1, -(color as int));
                            let ctil = bm_child.score as int;
                            if i0 == 0 {
                                assert(nega_fold(cs0, w, rm, depth as int, color as int, 1) == c);
                                assert(nega_idx(cs0, w, rm, depth as int, color as int, 1) == 0);
                            } else {
                                assert(nega_fold(cs0, w, rm, depth as int, color as int, i0 + 1)
                                    == (if c > nega_fold(
                                    cs0,
                                    w,
                                    rm,
                                    depth as int,
                                    color as int,
                                    i0,
                                ) {
                                    c
                                } else {
                                    nega_fold(cs0, w, rm, depth as int, color as int, i0)
                                }));
                                assert(nega_idx(cs0, w, rm, depth as int, color as int, i0 + 1)
                                    == (if c > nega_fold(
                                    cs0,
                                    w,
                                    rm,
                                    depth as int,
                                    color as int,
                                    i0,
                                ) {
                                    i0
                                } else {
                                    nega_idx(cs0, w, rm, depth as int, color as int, i0)
                                }));
                            }
                            if !done {
                                assert(best.score < beta);
                                assert(ctil <= best.score);
                                if ctil > a_entry {
                                    assert(ctil < beta);
                                    assert(c == ctil);
                                } else {
                                    assert(c <= ctil);
                                }
                            }
                            if done {
                                assert(best.score == ctil);
                                assert(ctil >= beta);
                                assert(c >= ctil);
                                lemma_nega_fold_ge(
                                    cs0,
                                    w,
                                    rm,
                                    depth as int,
                                    color as int,
                                    cs0.len() as int,
                                    i0,
                                );
                            }
                        }
                    }
                }
                out.append(&mut rest);
                self.children = Some(out);
                self.value = best.score;
                proof {
                    assert(node_wf(*self)) by {
                        assert forall|i: int|
                            0 <= i < self.children->Some_0@.len() implies node_wf(
                            #[trigger] self.children->Some_0@[i],
                        ) && child_rel(*self, self.children->Some_0@[i]) by {
                            lemma_child_rel_same_parent(pre, *self, self.children->Some_0@[i]);
                        }
                    }
                }
                best
            },
        }
    }
}

} // verus!
