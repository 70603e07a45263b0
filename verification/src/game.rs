//! The game session: the canonical board, its seeded tile generator, and
//! the human-move / random-move cycle.  The slide here recomputes each line
//! directly; it agrees with the table-driven transition of `Board` because
//! both meet the same line specification.

use crate::board::{
    can_move_spec, find_nth_zero, grid_seq, has_h_pair, has_v_pair, hline, lemma_changed_iff,
    lemma_moved_leaves_zero, lemma_nth_zero, lemma_stuck, lemma_zeros_after_update,
    lemma_zeros_bridge, line_eff, line_eff_changed, line_eff_score, line_index, line_of_g,
    line_pos, nth_zero, scan_adjacent, slide_cells, slide_gain, slide_moves, spawn_cells, vline,
    zero_grid, zeros_g,
};
use crate::direction::Direction;
use crate::matrix;
use crate::matrix::{cell, cells_within, row_nibbles, zero_count, Matrix};
use crate::random::{rnd_wf, spec_move_pos, spec_move_value, spec_next, Rnd};
use crate::slide_cache::slide_line;
use vstd::prelude::*;

verus! {

/// Whether the session is still in play.
#[derive(Debug, PartialEq, Eq, Structural, Clone, Copy)]
pub enum State {
    InGame,
    Lose,
}

/// Number of cells of the board.
pub const CELL_COUNT: u8 = 16;

/// One game in progress.
pub struct Game {
    pub board: Matrix,
    pub rnd: Rnd,
    pub state: State,
    pub score: u32,
    pub move_count: u16,
}

/// A well-formed session: valid cells and a reduced generator state.
pub open spec fn game_wf(g: Game) -> bool {
    cells_within(g.board, 15) && rnd_wf(g.rnd)
}

/// The generator state of a session (kept abstract: the generator itself is
/// not part of the public board state).
pub closed spec fn rnd_state(g: Game) -> u32 {
    g.rnd.seed
}

/// The effective slide of one line, computed directly rather than through
/// the table: lines whose merge would pass exponent 15 stay put, exactly as
/// they do under the table (which stores no entry for them).
fn slide_line_eff(m: [u8; 4]) -> (res: ([u8; 4], u32, bool))
    requires
        row_nibbles(m@),
    ensures
        res.0@ == line_eff(m@),
        res.1 == line_eff_score(m@),
        res.2 == line_eff_changed(m@),
        row_nibbles(res.0@),
        res.1 <= 65536,
{
    proof {
        reveal(line_eff);
        reveal(line_eff_score);
        reveal(line_eff_changed);
        crate::slide_cache::lemma_entry_line(m@);
    }
    let (out, score, moved) = slide_line(m);
    if !moved {
        (m, 0, false)
    } else if out[0] > 15 || out[1] > 15 || out[2] > 15 || out[3] > 15 {
        (m, 0, false)
    } else {
        (out, score, true)
    }
}

impl Game {
    /// Create a new start position: an empty board seeded with two random
    /// tiles drawn from `seed`.
    pub fn start_new(seed: u32) -> (g: Game)
        ensures
            game_wf(g),
            g.state == State::InGame,
            g.score == 0,
            g.move_count == 0,
            grid_seq(g.board) == spawn_cells(
                spawn_cells(
                    zero_grid(),
                    spec_move_value(seed % 6075),
                    spec_move_pos(seed % 6075, 16) as int,
                ),
                spec_move_value(spec_next(seed % 6075)),
                spec_move_pos(spec_next(seed % 6075), 15) as int,
            ),
            rnd_state(g) == spec_next(spec_next(seed % 6075)),
    {
        let rnd = Rnd::with_seed(seed);
        let b: Matrix = [[0u8; 4]; 4];
        let mut start_position = Game {
            board: b,
            rnd,
            state: State::InGame,
            score: 0,
            move_count: 0,
        };
        proof {
            assert(grid_seq(start_position.board) =~= zero_grid());
            lemma_zeros_bridge(start_position.board, 16);
            assert(zeros_g(zero_grid()) == 16) by {
                reveal_with_fuel(crate::board::zeros_g_upto, 17);
            }
        }
        let next_move = start_position.rnd.next_move(CELL_COUNT);
        start_position.set_move(next_move);
        proof {
            let g1 = grid_seq(start_position.board);
            lemma_nth_zero(zero_grid(), next_move.1 as int);
            lemma_zeros_after_update(
                zero_grid(),
                16,
                nth_zero(zero_grid(), next_move.1 as int),
                next_move.0,
            );
        }
        let next_move = start_position.rnd.next_move(CELL_COUNT - 1);
        start_position.set_move(next_move);
        start_position
    }

    /// Rebuild a session around a search node's position, detecting a lost
    /// board; the generator restarts from a fixed state.
    pub(crate) fn from_node(node: &crate::node::Node) -> (g: Game)
        requires
            crate::board::board_wf(node.board),
        ensures
            game_wf(g),
            g.board == node.board.board,
            g.score == node.board.score,
            g.move_count == node.board.move_count,
            g.state == (if can_move_spec(g.board) {
                State::InGame
            } else {
                State::Lose
            }),
            rnd_state(g) == 0,
    {
        let mut game = Game {
            board: node.board.board,
            rnd: Rnd::with_seed(0),
            state: State::InGame,
            score: node.board.score,
            move_count: node.board.move_count,
        };
        if !game.can_move() {
            game.state = State::Lose;
        }
        game
    }

    /// Make the human move, then exactly one random spawn when it changed
    /// the board; a refused move changes nothing.
    pub fn make_move(&mut self, dir: Direction) -> (moved: bool)
        requires
            game_wf(*old(self)),
            old(self).score <= u32::MAX - 262144,
            old(self).move_count < u16::MAX,
        ensures
            game_wf(*final(self)),
            moved == (old(self).state == State::InGame && slide_moves(
                grid_seq(old(self).board),
                dir,
            )),
            !moved ==> *final(self) == *old(self),
            moved ==> ({
                let g0 = grid_seq(old(self).board);
                let gs = slide_cells(g0, dir);
                let v = spec_move_value(rnd_state(*old(self)));
                let p = spec_move_pos(rnd_state(*old(self)), zeros_g(gs) as u8);
                &&& grid_seq(final(self).board) == spawn_cells(gs, v, p as int)
                &&& final(self).score == old(self).score + slide_gain(g0, dir)
                &&& final(self).move_count == old(self).move_count + 1
                &&& final(self).state == (if can_move_spec(final(self).board) {
                    State::InGame
                } else {
                    State::Lose
                })
                &&& rnd_state(*final(self)) == spec_next(rnd_state(*old(self)))
            }),
    {
        let ghost g0 = grid_seq(self.board);
        let move_made = self.human_move(dir);
        if move_made {
            proof {
                lemma_moved_leaves_zero(g0, dir);
                lemma_zeros_bridge(self.board, 16);
            }
            self.random_move();
        } else {
            proof {
                crate::board::lemma_grid_eq_mat(self.board, old(self).board);
            }
        }
        move_made
    }

    /// Make the human move.  Returns whether the board changed; a lost game
    /// or a direction that moves nothing is refused.
    #[verifier::rlimit(60)]
    pub fn human_move(&mut self, dir: Direction) -> (moved: bool)
        requires
            game_wf(*old(self)),
            old(self).score <= u32::MAX - 262144,
            old(self).move_count < u16::MAX,
        ensures
            game_wf(*final(self)),
            moved == (old(self).state == State::InGame && slide_moves(
                grid_seq(old(self).board),
                dir,
            )),
            grid_seq(final(self).board) == if moved {
                slide_cells(grid_seq(old(self).board), dir)
            } else {
                grid_seq(old(self).board)
            },
            final(self).score == old(self).score + if moved {
                slide_gain(grid_seq(old(self).board), dir)
            } else {
                0
            },
            final(self).move_count == old(self).move_count + if moved {
                1int
            } else {
                0
            },
            final(self).state == old(self).state,
            final(self).rnd == old(self).rnd,
            rnd_state(*final(self)) == rnd_state(*old(self)),
    {
        let ghost g0 = grid_seq(self.board);
        if self.state == State::Lose {
            return false;
        }
        let can_move = self.empty_count() > 0u8 || self.can_move_dir(dir);
        if !can_move {
            proof {
                lemma_zeros_bridge(self.board, 16);
                lemma_stuck(self.board, dir);
                lemma_changed_iff(g0, dir);
                lemma_slide_gain_zero(g0, dir);
            }
            return false;
        }
        let moved = self.slide_to(dir);
        proof {
            if !moved {
                lemma_slide_gain_zero(g0, dir);
                assert(grid_seq(self.board) =~= g0);
            }
        }
        if moved {
            self.move_count = self.move_count + 1;
            return moved;
        }
        moved
    }

    /// Slide the whole board toward `dir`, line by line.
    fn slide_to(&mut self, dir: Direction) -> (moved: bool)
        requires
            game_wf(*old(self)),
            old(self).score <= u32::MAX - 262144,
        ensures
            game_wf(*final(self)),
            grid_seq(final(self).board) == if moved {
                slide_cells(grid_seq(old(self).board), dir)
            } else {
                grid_seq(old(self).board)
            },
            final(self).score == old(self).score + slide_gain(grid_seq(old(self).board), dir),
            moved == slide_moves(grid_seq(old(self).board), dir),
            final(self).state == old(self).state,
            final(self).move_count == old(self).move_count,
            final(self).rnd == old(self).rnd,
    {
        let moved = match dir {
            Direction::Left => self.slide_rows(dir, false),
            Direction::Right => self.slide_rows(dir, true),
            Direction::Up => self.slide_columns(dir, false),
            Direction::Down => self.slide_columns(dir, true),
        };
        proof {
            reveal(crate::board::slide_moves);
            if !moved {
                assert(grid_seq(self.board) =~= grid_seq(old(self).board));
            }
        }
        moved
    }

    /// Slide all four rows horizontally.
    #[verifier::rlimit(100)]
    #[verifier::spinoff_prover]
    fn slide_rows(&mut self, dir: Direction, rev: bool) -> (moved: bool)
        requires
            game_wf(*old(self)),
            old(self).score <= u32::MAX - 262144,
            dir == if rev {
                Direction::Right
            } else {
                Direction::Left
            },
        ensures
            game_wf(*final(self)),
            grid_seq(final(self).board) == slide_cells(grid_seq(old(self).board), dir),
            final(self).score == old(self).score + slide_gain(grid_seq(old(self).board), dir),
            moved == slide_moves(grid_seq(old(self).board), dir),
            final(self).state == old(self).state,
            final(self).move_count == old(self).move_count,
            final(self).rnd == old(self).rnd,
    {
        let ghost g0 = grid_seq(self.board);
        proof {
            lemma_changed_iff(g0, dir);
        }
        let moved = self.slide_rows_all(rev);
        proof {
            reveal(crate::board::slide_cells);
            reveal(crate::board::slide_gain);
            reveal(crate::board::slide_moves);
            assert(hline(g0, 0, rev) =~= line_of_g(g0, dir, 0));
            assert(hline(g0, 1, rev) =~= line_of_g(g0, dir, 1));
            assert(hline(g0, 2, rev) =~= line_of_g(g0, dir, 2));
            assert(hline(g0, 3, rev) =~= line_of_g(g0, dir, 3));
            assert forall|k: int| 0 <= k < 16 implies #[trigger] grid_seq(self.board)[k]
                == slide_cells(g0, dir)[k] by {
                let a = k / 4;
                let b = k % 4;
                assert(4 * a + b == k);
                assert(cell(self.board, a, b) == line_eff(hline(g0, a, rev))[if rev {
                    3 - b
                } else {
                    b
                }]);
                assert(hline(g0, a, rev) == line_of_g(g0, dir, a));
                assert(line_index(dir, k) == a);
                assert(line_pos(dir, k) == if rev {
                    3 - b
                } else {
                    b
                });
            }
            assert(grid_seq(self.board) =~= slide_cells(g0, dir));
        }
        moved
    }

    /// Slide the four rows in order; the shared row slide serves both
    /// horizontal directions through the mirrored read.
    fn slide_rows_all(&mut self, rev: bool) -> (moved: bool)
        requires
            game_wf(*old(self)),
            old(self).score <= u32::MAX - 262144,
        ensures
            game_wf(*final(self)),
            forall|a: int, b: int| 0 <= a < 4 && 0 <= b < 4 ==> #[trigger] cell(
                final(self).board,
                a,
                b,
            ) == line_eff(hline(grid_seq(old(self).board), a, rev))[if rev {
                3 - b
            } else {
                b
            }],
            final(self).score == old(self).score + line_eff_score(
                hline(grid_seq(old(self).board), 0, rev),
            ) + line_eff_score(hline(grid_seq(old(self).board), 1, rev)) + line_eff_score(
                hline(grid_seq(old(self).board), 2, rev),
            ) + line_eff_score(hline(grid_seq(old(self).board), 3, rev)),
            moved == (line_eff_changed(hline(grid_seq(old(self).board), 0, rev))
                || line_eff_changed(hline(grid_seq(old(self).board), 1, rev))
                || line_eff_changed(hline(grid_seq(old(self).board), 2, rev))
                || line_eff_changed(hline(grid_seq(old(self).board), 3, rev))),
            final(self).state == old(self).state,
            final(self).move_count == old(self).move_count,
            final(self).rnd == old(self).rnd,
    {
        let ghost g0 = grid_seq(self.board);
        let m0 = self.slide_h(0, rev);
        proof {
            assert(hline(grid_seq(self.board), 1, rev) =~= hline(g0, 1, rev));
            assert(hline(grid_seq(self.board), 2, rev) =~= hline(g0, 2, rev));
            assert(hline(grid_seq(self.board), 3, rev) =~= hline(g0, 3, rev));
        }
        let m1 = self.slide_h(1, rev);
        proof {
            assert(hline(grid_seq(self.board), 2, rev) =~= hline(g0, 2, rev));
            assert(hline(grid_seq(self.board), 3, rev) =~= hline(g0, 3, rev));
        }
        let m2 = self.slide_h(2, rev);
        proof {
            assert(hline(grid_seq(self.board), 3, rev) =~= hline(g0, 3, rev));
        }
        let m3 = self.slide_h(3, rev);
        m0 || m1 || m2 || m3
    }

    /// Slide all four columns vertically.
    #[verifier::rlimit(100)]
    #[verifier::spinoff_prover]
    fn slide_columns(&mut self, dir: Direction, rev: bool) -> (moved: bool)
        requires
            game_wf(*old(self)),
            old(self).score <= u32::MAX - 262144,
            dir == if rev {
                Direction::Down
            } else {
                Direction::Up
            },
        ensures
            game_wf(*final(self)),
            grid_seq(final(self).board) == slide_cells(grid_seq(old(self).board), dir),
            final(self).score == old(self).score + slide_gain(grid_seq(old(self).board), dir),
            moved == slide_moves(grid_seq(old(self).board), dir),
            final(self).state == old(self).state,
            final(self).move_count == old(self).move_count,
            final(self).rnd == old(self).rnd,
    {
        let ghost g0 = grid_seq(self.board);
        proof {
            lemma_changed_iff(g0, dir);
        }
        let moved = self.slide_cols_all(rev);
        proof {
            reveal(crate::board::slide_cells);
            reveal(crate::board::slide_gain);
            reveal(crate::board::slide_moves);
            assert forall|j: int| 0 <= j < 4 implies #[trigger] vline(g0, j, rev) == line_of_g(
                g0,
                dir,
                j,
            ) by {
                assert(vline(g0, j, rev) =~= line_of_g(g0, dir, j));
            }
            assert forall|k: int| 0 <= k < 16 implies #[trigger] grid_seq(self.board)[k]
                == slide_cells(g0, dir)[k] by {
                let a = k / 4;
                let b = k % 4;
                assert(4 * a + b == k);
                assert(cell(self.board, a, b) == line_eff(vline(g0, b, rev))[if rev {
                    3 - a
                } else {
                    a
                }]);
                assert(line_index(dir, k) == b);
                assert(line_pos(dir, k) == if rev {
                    3 - a
                } else {
                    a
                });
            }
            assert(grid_seq(self.board) =~= slide_cells(g0, dir));
        }
        moved
    }

    /// Slide the four columns in order.
    fn slide_cols_all(&mut self, rev: bool) -> (moved: bool)
        requires
            game_wf(*old(self)),
            old(self).score <= u32::MAX - 262144,
        ensures
            game_wf(*final(self)),
            forall|a: int, b: int| 0 <= a < 4 && 0 <= b < 4 ==> #[trigger] cell(
                final(self).board,
                a,
                b,
            ) == line_eff(vline(grid_seq(old(self).board), b, rev))[if rev {
                3 - a
            } else {
                a
            }],
            final(self).score == old(self).score + line_eff_score(
                vline(grid_seq(old(self).board), 0, rev),
            ) + line_eff_score(vline(grid_seq(old(self).board), 1, rev)) + line_eff_score(
                vline(grid_seq(old(self).board), 2, rev),
            ) + line_eff_score(vline(grid_seq(old(self).board), 3, rev)),
            moved == (line_eff_changed(vline(grid_seq(old(self).board), 0, rev))
                || line_eff_changed(vline(grid_seq(old(self).board), 1, rev))
                || line_eff_changed(vline(grid_seq(old(self).board), 2, rev))
                || line_eff_changed(vline(grid_seq(old(self).board), 3, rev))),
            final(self).state == old(self).state,
            final(self).move_count == old(self).move_count,
            final(self).rnd == old(self).rnd,
    {
        let ghost g0 = grid_seq(self.board);
        let m0 = self.slide_v(0, rev);
        proof {
            assert(vline(grid_seq(self.board), 1, rev) =~= vline(g0, 1, rev));
            assert(vline(grid_seq(self.board), 2, rev) =~= vline(g0, 2, rev));
            assert(vline(grid_seq(self.board), 3, rev) =~= vline(g0, 3, rev));
        }
        let m1 = self.slide_v(1, rev);
        proof {
            assert(vline(grid_seq(self.board), 2, rev) =~= vline(g0, 2, rev));
            assert(vline(grid_seq(self.board), 3, rev) =~= vline(g0, 3, rev));
        }
        let m2 = self.slide_v(2, rev);
        proof {
            assert(vline(grid_seq(self.board), 3, rev) =~= vline(g0, 3, rev));
        }
        let m3 = self.slide_v(3, rev);
        m0 || m1 || m2 || m3
    }

    /// Slide row `j` leftward (or rightward when `rev`), directly.
    fn slide_h(&mut self, j: usize, rev: bool) -> (moved: bool)
        requires
            game_wf(*old(self)),
            j < 4,
            old(self).score <= u32::MAX - 65536,
        ensures
            game_wf(*final(self)),
            forall|a: int, b: int| 0 <= a < 4 && 0 <= b < 4 ==> #[trigger] cell(
                final(self).board,
                a,
                b,
            ) == (if a == j {
                line_eff(hline(grid_seq(old(self).board), j as int, rev))[if rev {
                    3 - b
                } else {
                    b
                }]
            } else {
                cell(old(self).board, a, b)
            }),
            final(self).score == old(self).score + line_eff_score(
                hline(grid_seq(old(self).board), j as int, rev),
            ),
            0 <= line_eff_score(hline(grid_seq(old(self).board), j as int, rev)) <= 65536,
            moved == line_eff_changed(hline(grid_seq(old(self).board), j as int, rev)),
            final(self).state == old(self).state,
            final(self).move_count == old(self).move_count,
            final(self).rnd == old(self).rnd,
    {
        let ghost g0 = grid_seq(self.board);
        let ghost oriented = hline(g0, j as int, rev);
        let r = self.board[j];
        let row: [u8; 4] = if rev {
            [r[3], r[2], r[1], r[0]]
        } else {
            r
        };
        proof {
            assert forall|b: int| 0 <= b < 4 implies g0[4 * j + b] == cell(
                self.board,
                j as int,
                b,
            ) by {
                assert((4 * j + b) / 4 == j && (4 * j + b) % 4 == b);
            }
            assert(row@ =~= oriented);
            crate::board::lemma_line_eff_props(oriented);
        }
        let (out, gain, moved) = slide_line_eff(row);
        let back: [u8; 4] = if rev {
            [out[3], out[2], out[1], out[0]]
        } else {
            out
        };
        matrix::set_row(&mut self.board, j, back);
        self.score = self.score + gain;
        proof {
            assert forall|b: int| 0 <= b < 4 implies cell(self.board, j as int, b) == line_eff(
                oriented,
            )[if rev {
                3 - b
            } else {
                b
            }] by {
                if rev {
                    assert(back@[b] == out@[3 - b]);
                }
            }
        }
        moved
    }

    /// Slide column `i` upward (or downward when `rev`), directly.
    fn slide_v(&mut self, i: usize, rev: bool) -> (moved: bool)
        requires
            game_wf(*old(self)),
            i < 4,
            old(self).score <= u32::MAX - 65536,
        ensures
            game_wf(*final(self)),
            forall|a: int, b: int| 0 <= a < 4 && 0 <= b < 4 ==> #[trigger] cell(
                final(self).board,
                a,
                b,
            ) == (if b == i {
                line_eff(vline(grid_seq(old(self).board), i as int, rev))[if rev {
                    3 - a
                } else {
                    a
                }]
            } else {
                cell(old(self).board, a, b)
            }),
            final(self).score == old(self).score + line_eff_score(
                vline(grid_seq(old(self).board), i as int, rev),
            ),
            0 <= line_eff_score(vline(grid_seq(old(self).board), i as int, rev)) <= 65536,
            moved == line_eff_changed(vline(grid_seq(old(self).board), i as int, rev)),
            final(self).state == old(self).state,
            final(self).move_count == old(self).move_count,
            final(self).rnd == old(self).rnd,
    {
        let ghost g0 = grid_seq(self.board);
        let ghost oriented = vline(g0, i as int, rev);
        let c = [self.board[0][i], self.board[1][i], self.board[2][i], self.board[3][i]];
        let col: [u8; 4] = if rev {
            [c[3], c[2], c[1], c[0]]
        } else {
            c
        };
        proof {
            assert forall|a: int| 0 <= a < 4 implies g0[4 * a + i] == cell(
                self.board,
                a,
                i as int,
            ) by {
                assert((4 * a + i) / 4 == a && (4 * a + i) % 4 == i);
            }
            assert(col@ =~= oriented);
            crate::board::lemma_line_eff_props(oriented);
        }
        let (out, gain, moved) = slide_line_eff(col);
        let back: [u8; 4] = if rev {
            [out[3], out[2], out[1], out[0]]
        } else {
            out
        };
        matrix::set_col(&mut self.board, i, back);
        self.score = self.score + gain;
        proof {
            assert forall|a: int| 0 <= a < 4 implies cell(self.board, a, i as int) == line_eff(
                oriented,
            )[if rev {
                3 - a
            } else {
                a
            }] by {
                if rev {
                    assert(back@[a] == out@[3 - a]);
                }
            }
        }
        moved
    }

    /// Is any move possible.
    pub fn can_move(&self) -> (r: bool)
        ensures
            r == can_move_spec(self.board),
    {
        self.empty_count() > 0u8 || self.can_move_dir(Direction::Left) || self.can_move_dir(
            Direction::Up,
        )
    }

    /// Is there an adjacent equal pair along the axis of `dir`.
    fn can_move_dir(&self, dir: Direction) -> (r: bool)
        ensures
            dir == Direction::Left || dir == Direction::Right ==> r == has_h_pair(self.board),
            dir == Direction::Up || dir == Direction::Down ==> r == has_v_pair(self.board),
    {
        scan_adjacent(&self.board, dir)
    }

    /// Put a random tile in an empty cell; detects the loss that a spawn
    /// can force.  `None` on a board already lost.
    pub fn random_move(&mut self) -> (res: Option<(u8, u8)>)
        requires
            game_wf(*old(self)),
            old(self).state == State::Lose || zeros_g(grid_seq(old(self).board)) >= 1,
        ensures
            game_wf(*final(self)),
            old(self).state == State::Lose ==> res is None && *final(self) == *old(self),
            old(self).state == State::InGame ==> {
                let v = spec_move_value(rnd_state(*old(self)));
                let p = spec_move_pos(
                    rnd_state(*old(self)),
                    zeros_g(grid_seq(old(self).board)) as u8,
                );
                res == Some((v, p)) && grid_seq(final(self).board) == spawn_cells(
                    grid_seq(old(self).board),
                    v,
                    p as int,
                ) && final(self).state == (if can_move_spec(final(self).board) {
                    State::InGame
                } else {
                    State::Lose
                }) && final(self).score == old(self).score && final(self).move_count == old(
                    self,
                ).move_count && rnd_state(*final(self)) == spec_next(rnd_state(*old(self)))
            },
    {
        if self.state == State::Lose {
            return None;
        }
        proof {
            lemma_zeros_bridge(self.board, 16);
        }
        let empty_count = self.empty_count();
        let next_move = self.rnd.next_move(empty_count);
        self.set_move(next_move);
        if !self.can_move() {
            self.state = State::Lose;
        }
        Some(next_move)
    }

    /// Put `value` into the `pos`-th empty cell in row-major scan order.
    fn set_move(&mut self, game_move: (u8, u8))
        requires
            game_wf(*old(self)),
            1 <= game_move.0 <= 15,
            (game_move.1 as int) < zeros_g(grid_seq(old(self).board)),
        ensures
            game_wf(*final(self)),
            grid_seq(final(self).board) == spawn_cells(
                grid_seq(old(self).board),
                game_move.0,
                game_move.1 as int,
            ),
            final(self).state == old(self).state,
            final(self).score == old(self).score,
            final(self).move_count == old(self).move_count,
            final(self).rnd == old(self).rnd,
    {
        let (value, pos) = game_move;
        let k = find_nth_zero(&self.board, pos);
        matrix::set_cell(&mut self.board, k / 4, k % 4, value);
        proof {
            assert(grid_seq(self.board) =~= spawn_cells(
                grid_seq(old(self).board),
                value,
                pos as int,
            ));
        }
    }

    /// Count the number of empty cells.
    pub fn empty_count(&self) -> (c: u8)
        ensures
            c == zero_count(self.board),
            c == zeros_g(grid_seq(self.board)),
    {
        proof {
            lemma_zeros_bridge(self.board, 16);
        }
        matrix::empty_count(&self.board)
    }

    /// The displayed value of the largest tile.
    pub fn max_cell(&self) -> (r: u16)
        requires
            game_wf(*self),
        ensures
            r == crate::slide_cache::pow2int(matrix::grid_max(self.board)),
    {
        let e = matrix::max_cell(&self.board);
        let mut v: u16 = 1;
        for k in 0..e
            invariant
                e <= 15,
                v == crate::slide_cache::pow2int(k as int),
                v <= 32768,
        {
            proof {
                crate::slide_cache::lemma_pow2_mono(k + 1 as int, 15);
                assert(crate::slide_cache::pow2int(15) == 32768) by {
                    reveal_with_fuel(crate::slide_cache::pow2int, 16);
                }
            }
            v = v * 2;
        }
        v
    }
}

/// When nothing moves, no line gains any score.
proof fn lemma_slide_gain_zero(g: Seq<u8>, dir: Direction)
    requires
        crate::board::cells_ok(g),
        !slide_moves(g, dir),
    ensures
        slide_gain(g, dir) == 0,
{
    lemma_changed_iff(g, dir);
    reveal(crate::board::slide_gain);
    reveal(line_eff_score);
    reveal(line_eff_changed);
    assert(!line_eff_changed(line_of_g(g, dir, 0)));
    assert(!line_eff_changed(line_of_g(g, dir, 1)));
    assert(!line_eff_changed(line_of_g(g, dir, 2)));
    assert(!line_eff_changed(line_of_g(g, dir, 3)));
}

} // verus!
