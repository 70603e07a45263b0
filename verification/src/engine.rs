//! The engine: retains the search tree across real moves, asks the
//! configured search for the best direction, and reconciles the tree with
//! the move and the spawn that actually happened.

use crate::board;
use crate::board::{slide_bm, slide_moves, spawn_bm, zeros_g, Board};
use crate::direction::Direction;
use crate::engine_config::{Algorithm, EngineConfig};
use crate::game;
use crate::game::Game;
use crate::moves::{BestMove, Move, Statistics};
use crate::node::{
    child_rel, fold_idx, has_any_move, lemma_human_children_any, lemma_wf_children, nega_idx,
    nega_val, node_wf, search_val, spec_children, Node,
};
use crate::slide_cache::{table_complete, SlideCache};
use vstd::prelude::*;

verus! {

/// The search engine: the retained tree and the fixed configuration.
pub struct Engine {
    pub root: Node,
    pub config: EngineConfig,
}

impl Engine {
    /// Wrap the session's position as a fresh, unexpanded search root; its
    /// placeholder turn marks it as a chance-layer node, so the first
    /// expansion branches on the player's directions.
    pub fn from_game(game: &Game, config: EngineConfig) -> (e: Engine)
        requires
            game::game_wf(*game),
        ensures
            node_wf(e.root),
            e.root.board.board == game.board,
            e.root.board.score == game.score,
            e.root.board.move_count == game.move_count,
            e.root.board.state == board::State::InGame <==> game.state == game::State::InGame,
            e.root.turn == Move::Random(0u8, 0u8),
            e.root.value == 0,
            e.root.children is None,
            e.config == config,
    {
        let state = match game.state {
            game::State::InGame => board::State::InGame,
            game::State::Lose => board::State::Lose,
        };
        let b = Board { board: game.board, state, score: game.score, move_count: game.move_count };
        Engine { root: Node::with_board(b, Move::default()), config }
    }

    /// Run the configured search and commit its move: the winning child
    /// becomes the new root (its siblings are kept only until the spawn is
    /// reconciled), and the chosen direction, its score and the gathered
    /// statistics are returned.  Searching a lost board, or with an
    /// unimplemented algorithm, is a caller error.  Without move ordering
    /// the direction and score are exactly those of the mathematical
    /// search — equal for the pruned and unpruned variant of either
    /// algorithm, since the full window makes the fail-soft result exact.
    #[verifier::rlimit(100)]
    #[verifier::spinoff_prover]
    pub fn best_move(&mut self, cache: &SlideCache) -> (r: (Direction, i32, Statistics))
        requires
            node_wf(old(self).root),
            !(old(self).root.turn is Human),
            old(self).root.board.state == board::State::InGame,
            has_any_move(old(self).root.board@.cells),
            old(self).config.depth >= 1,
            old(self).config.algorithm == Algorithm::Minimax || old(self).config.algorithm
                == Algorithm::MinimaxAlphaBeta || old(self).config.algorithm == Algorithm::Negamax
                || old(self).config.algorithm == Algorithm::NegamaxAlphaBeta,
            table_complete(cache.table@),
            old(self).root.board.score + 262144 * (old(self).config.depth as int) <= u32::MAX,
            old(self).root.board.move_count + (old(self).config.depth as int) <= 65535,
        ensures
            node_wf(final(self).root),
            final(self).config == old(self).config,
            crate::moves::stats_wf(r.2),
            -2_001_000_000 <= r.1 <= 2_001_000_000,
            // the chosen direction really moves, and the new root is the
            // chosen child's subtree: the old board slid that way
            slide_moves(old(self).root.board@.cells, r.0),
            final(self).root.turn == Move::Human(r.0),
            final(self).root.board@ == slide_bm(old(self).root.board@, r.0),
            // without move ordering, the score and direction are exactly
            // the mathematical search's, per configured algorithm
            !old(self).config.order_moves && (old(self).config.algorithm == Algorithm::Minimax
                || old(self).config.algorithm == Algorithm::MinimaxAlphaBeta) ==> {
                let cs = spec_children(old(self).root, old(self).config.random_mode);
                let w = old(self).config.eval_fn;
                let rm = old(self).config.random_mode;
                let d = old(self).config.depth as int;
                r.1 == search_val(old(self).root, w, rm, d, true) && Move::Human(r.0) == cs[
                    fold_idx(cs, w, rm, d, true, cs.len() as int)
                ].turn
            },
            !old(self).config.order_moves && (old(self).config.algorithm == Algorithm::Negamax
                || old(self).config.algorithm == Algorithm::NegamaxAlphaBeta) ==> {
                let cs = spec_children(old(self).root, old(self).config.random_mode);
                let w = old(self).config.eval_fn;
                let rm = old(self).config.random_mode;
                let d = old(self).config.depth as int;
                r.1 == nega_val(old(self).root, w, rm, d, 1) && Move::Human(r.0) == cs[
                    nega_idx(cs, w, rm, d, 1, cs.len() as int)
                ].turn
            },
    {
        let ghost root0 = self.root;
        proof {
            lemma_human_children_any(root0.board);
            if root0.children is Some {
                lemma_wf_children(root0);
            }
            assert(spec_children(root0, self.config.random_mode).len() > 0);
        }
        let depth = self.config.depth;
        let best_move = match self.config.algorithm {
            Algorithm::Minimax => self.root.minimax(&self.config, depth, true, cache),
            Algorithm::MinimaxAlphaBeta => self.root.minimax_alphabeta(
                &self.config,
                depth,
                i32::MIN + 1,
                i32::MAX,
                true,
                cache,
            ),
            Algorithm::Negamax => self.root.negamax(&self.config, depth, 1, cache),
            Algorithm::NegamaxAlphaBeta => self.root.negamax_alphabeta(
                &self.config,
                depth,
                i32::MIN + 1,
                i32::MAX,
                1,
                cache,
            ),
            Algorithm::NegaScout => {
                proof {
                    assert(false);
                }
                BestMove::new(0)
            },
            Algorithm::ExpectiMinimax => {
                proof {
                    assert(false);
                }
                BestMove::new(0)
            },
        };
        proof {
            assert(self.root.children is Some);
            lemma_wf_children(self.root);
        }
        let mut taken: Option<Vec<Node>> = None;
        core::mem::swap(&mut taken, &mut self.root.children);
        match taken {
            Some(mut vec) => {
                proof {
                    assert(child_rel(self.root, vec@[best_move.local_id as int]));
                }
                let next_move = vec.swap_remove(best_move.local_id as usize);
                self.root = next_move;
            },
            None => {
                proof {
                    assert(false);
                }
            },
        }
        match best_move.turn {
            Move::Human(dir) => (dir, best_move.score, best_move.stat),
            Move::Random(_, _) => {
                proof {
                    assert(false);
                }
                (Direction::Left, best_move.score, best_move.stat)
            },
        }
    }

    /// Reconcile the retained tree with the spawn that actually happened:
    /// a matching child subtree (with everything already computed below
    /// it) becomes the root, else a fresh node for the spawned board does.
    pub fn make_random_move(&mut self, random_move: Move)
        requires
            node_wf(old(self).root),
            old(self).root.turn is Human,
            random_move matches Move::Random(v, pos) && (v == 1 || v == 2) && (pos as int)
                < zeros_g(old(self).root.board@.cells),
            old(self).root.board.move_count < u16::MAX,
        ensures
            node_wf(final(self).root),
            final(self).config == old(self).config,
            final(self).root.turn == random_move,
            final(self).root.board@ == spawn_bm(
                old(self).root.board@,
                random_move->Random_0,
                random_move->Random_1 as int,
            ),
            old(self).root.children is Some && (exists|i: int|
                0 <= i < old(self).root.children->Some_0@.len() && (#[trigger] old(
                    self,
                ).root.children->Some_0@[i]).turn == random_move) ==> exists|i: int|
                0 <= i < old(self).root.children->Some_0@.len() && (#[trigger] old(
                    self,
                ).root.children->Some_0@[i]) == final(self).root,
            (final(self).root.value == 0 && final(self).root.children is None) || (old(
                self,
            ).root.children is Some && exists|i: int|
                0 <= i < old(self).root.children->Some_0@.len() && (#[trigger] old(
                    self,
                ).root.children->Some_0@[i]) == final(self).root
                    && old(self).root.children->Some_0@[i].turn == random_move),
    {
        let next = self.root.find_next_random_move(random_move);
        self.root = next;
    }
}

} // verus!
