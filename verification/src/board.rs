//! The board: a 4x4 grid of tile exponents with its cumulative score, move
//! count and game state, and the table-driven slide transition.

use crate::direction::Direction;
use crate::matrix;
use crate::matrix::{cell, cells_within, row_nibbles, unpack_row, zero_count, zeros_upto, Matrix};
use crate::slide_cache::{
    slide_changes, slide_ok, slide_row, slide_score, table_complete, SlideCache,
};
use vstd::prelude::*;

verus! {

/// Whether the game is still going.
#[derive(Debug, PartialEq, Eq, Structural, Clone, Copy)]
pub enum State {
    InGame,
    Lose,
}

impl Default for State {
    /// A fresh board is in play.
    fn default() -> (s: Self)
        ensures
            s == State::InGame,
    {
        State::InGame
    }
}

/// A game position: the grid, its state, the cumulative merge score and the
/// number of moves made.
#[derive(Debug, Clone, Copy)]
pub struct Board {
    pub board: Matrix,
    pub state: State,
    pub score: u32,
    pub move_count: u16,
}

/// The grid flattened to 16 cells in row-major order; the form the
/// mathematical board model works on.
pub open spec fn grid_seq(m: Matrix) -> Seq<u8> {
    Seq::new(16, |k: int| cell(m, k / 4, k % 4))
}

/// A well-formed flattened grid: 16 cells, each a nibble.
pub open spec fn cells_ok(g: Seq<u8>) -> bool {
    g.len() == 16 && forall|k: int| 0 <= k < 16 ==> #[trigger] g[k] <= 15
}

/// A well-formed board: every cell a valid tile exponent.
pub open spec fn board_wf(b: Board) -> bool {
    cells_within(b.board, 15)
}

/// The mathematical value of a board.
#[verifier::ext_equal]
pub ghost struct BoardModel {
    pub cells: Seq<u8>,
    pub state: State,
    pub score: int,
    pub move_count: int,
}

impl View for Board {
    type V = BoardModel;

    open spec fn view(&self) -> BoardModel {
        BoardModel {
            cells: grid_seq(self.board),
            state: self.state,
            score: self.score as int,
            move_count: self.move_count as int,
        }
    }
}

/// Row `j` of the grid read in slide order for a horizontal slide: left to
/// right for a leftward slide, right to left for a rightward one.
pub open spec fn hline(g: Seq<u8>, j: int, rev: bool) -> Seq<u8> {
    if rev {
        seq![g[4 * j + 3], g[4 * j + 2], g[4 * j + 1], g[4 * j]]
    } else {
        seq![g[4 * j], g[4 * j + 1], g[4 * j + 2], g[4 * j + 3]]
    }
}

/// Column `i` of the grid read in slide order for a vertical slide: top to
/// bottom for an upward slide, bottom to top for a downward one.
pub open spec fn vline(g: Seq<u8>, i: int, rev: bool) -> Seq<u8> {
    if rev {
        seq![g[i + 12], g[i + 8], g[i + 4], g[i]]
    } else {
        seq![g[i], g[i + 4], g[i + 8], g[i + 12]]
    }
}

/// Line `j` of the grid read in slide order for direction `dir`: rows for
/// the horizontal directions, columns for the vertical ones, reversed for
/// `Right` and `Down` so that the shared leftward slide serves all four.
pub open spec fn line_of_g(g: Seq<u8>, dir: Direction, j: int) -> Seq<u8> {
    match dir {
        Direction::Left => seq![g[4 * j], g[4 * j + 1], g[4 * j + 2], g[4 * j + 3]],
        Direction::Right => seq![g[4 * j + 3], g[4 * j + 2], g[4 * j + 1], g[4 * j]],
        Direction::Up => seq![g[j], g[j + 4], g[j + 8], g[j + 12]],
        Direction::Down => seq![g[j + 12], g[j + 8], g[j + 4], g[j]],
    }
}

/// Which line cell `k` belongs to under direction `dir`.
pub open spec fn line_index(dir: Direction, k: int) -> int {
    match dir {
        Direction::Left => k / 4,
        Direction::Right => k / 4,
        Direction::Up => k % 4,
        Direction::Down => k % 4,
    }
}

/// Where cell `k` sits within its line under direction `dir`.
pub open spec fn line_pos(dir: Direction, k: int) -> int {
    match dir {
        Direction::Left => k % 4,
        Direction::Right => 3 - k % 4,
        Direction::Up => k / 4,
        Direction::Down => 3 - k / 4,
    }
}

/// The effective slide of one line: the slid line where the slide changes it
/// and every merged cell stays a nibble; the line itself otherwise (a line
/// whose merge would pass exponent 15 has no table entry and stays put).
#[verifier::opaque]
pub open spec fn line_eff(s: Seq<u8>) -> Seq<u8> {
    if slide_changes(s) && slide_ok(s) {
        slide_row(s)
    } else {
        s
    }
}

/// The score the effective slide of one line gains.
#[verifier::opaque]
pub open spec fn line_eff_score(s: Seq<u8>) -> int {
    if slide_changes(s) && slide_ok(s) {
        slide_score(s)
    } else {
        0
    }
}

/// Whether the effective slide changes the line.
#[verifier::opaque]
pub open spec fn line_eff_changed(s: Seq<u8>) -> bool {
    slide_changes(s) && slide_ok(s)
}

/// The whole grid slid toward `dir`: every line slid in place.
#[verifier::opaque]
pub open spec fn slide_cells(g: Seq<u8>, dir: Direction) -> Seq<u8> {
    Seq::new(16, |k: int| line_eff(line_of_g(g, dir, line_index(dir, k)))[line_pos(dir, k)])
}

/// The score a slide of the whole grid gains: the gains of its four lines.
#[verifier::opaque]
pub open spec fn slide_gain(g: Seq<u8>, dir: Direction) -> int {
    line_eff_score(line_of_g(g, dir, 0)) + line_eff_score(line_of_g(g, dir, 1)) + line_eff_score(
        line_of_g(g, dir, 2),
    ) + line_eff_score(line_of_g(g, dir, 3))
}

/// A slide changes the grid exactly when it changes one of the lines.
#[verifier::opaque]
pub open spec fn slide_moves(g: Seq<u8>, dir: Direction) -> bool {
    slide_cells(g, dir) != g
}

/// The board model after a slide toward `dir`: the grid slid, the gain added
/// to the score, and the move counted when anything changed.
pub open spec fn slide_bm(bm: BoardModel, dir: Direction) -> BoardModel {
    BoardModel {
        cells: slide_cells(bm.cells, dir),
        state: bm.state,
        score: bm.score + slide_gain(bm.cells, dir),
        move_count: if slide_moves(bm.cells, dir) {
            bm.move_count + 1
        } else {
            bm.move_count
        },
    }
}

/// The flattened index of the `p`-th zero cell at or after `k` in row-major
/// order (16 when there is none).
pub open spec fn nth_zero_from(g: Seq<u8>, k: int, p: int) -> int
    decreases 16 - k,
{
    if k < 0 || k >= 16 {
        16
    } else if g[k] == 0 {
        if p == 0 {
            k
        } else {
            nth_zero_from(g, k + 1, p - 1)
        }
    } else {
        nth_zero_from(g, k + 1, p)
    }
}

/// The flattened index of the `p`-th zero cell in row-major order.
pub open spec fn nth_zero(g: Seq<u8>, p: int) -> int {
    nth_zero_from(g, 0, p)
}

/// Number of zero cells among the first `k` of the flattened grid.
pub open spec fn zeros_g_upto(g: Seq<u8>, k: int) -> int
    decreases k,
{
    if k <= 0 {
        0
    } else {
        zeros_g_upto(g, k - 1) + if g[k - 1] == 0 {
            1int
        } else {
            0int
        }
    }
}

/// Number of zero cells of the flattened grid.
pub open spec fn zeros_g(g: Seq<u8>) -> int {
    zeros_g_upto(g, 16)
}

/// The board model after a tile of exponent `v` spawns in the `p`-th empty
/// cell: one cell filled, the move counted, score and state unchanged.
pub open spec fn spawn_bm(bm: BoardModel, v: u8, p: int) -> BoardModel {
    BoardModel {
        cells: spawn_cells(bm.cells, v, p),
        state: bm.state,
        score: bm.score,
        move_count: bm.move_count + 1,
    }
}

/// The flattened grid counts zeros exactly as the matrix does.
pub proof fn lemma_zeros_bridge(m: Matrix, k: int)
    requires
        0 <= k <= 16,
    ensures
        zeros_g_upto(grid_seq(m), k) == zeros_upto(m, k),
    decreases k,
{
    if k > 0 {
        lemma_zeros_bridge(m, k - 1);
    }
}

/// There is at least one horizontally adjacent equal pair.
pub open spec fn has_h_pair(m: Matrix) -> bool {
    exists|j: int, i: int| 0 <= j < 4 && 0 <= i < 3 && #[trigger] cell(m, j, i) == cell(m, j, i + 1)
}

/// There is at least one vertically adjacent equal pair.
pub open spec fn has_v_pair(m: Matrix) -> bool {
    exists|j: int, i: int| 0 <= j < 3 && 0 <= i < 4 && #[trigger] cell(m, j, i) == cell(m, j + 1, i)
}

/// Some human move can still change the board: an empty cell, or two equal
/// cells side by side in one of the two axes.
pub open spec fn can_move_spec(m: Matrix) -> bool {
    zero_count(m) > 0 || has_h_pair(m) || has_v_pair(m)
}

impl Board {
    /// Create the empty starting board.
    pub fn new() -> (b: Board)
        ensures
            board_wf(b),
            forall|j: int, i: int| 0 <= j < 4 && 0 <= i < 4 ==> #[trigger] cell(b.board, j, i)
                == 0,
            b.state == State::InGame,
            b.score == 0,
            b.move_count == 0,
    {
        Board { board: [[0u8; 4]; 4], state: State::InGame, score: 0, move_count: 0 }
    }

    /// Is any move possible: an empty cell, or an adjacent equal pair in
    /// either axis (the two scanned axes cover all four directions).
    pub fn can_move(&self) -> (r: bool)
        ensures
            r == can_move_spec(self.board),
    {
        self.empty_count() > 0u8 || self.can_move_dir(Direction::Left) || self.can_move_dir(
            Direction::Up,
        )
    }

    /// Is there an adjacent equal pair along the axis of `dir`.
    pub fn can_move_dir(&self, dir: Direction) -> (r: bool)
        ensures
            dir == Direction::Left || dir == Direction::Right ==> r == has_h_pair(self.board),
            dir == Direction::Up || dir == Direction::Down ==> r == has_v_pair(self.board),
    {
        scan_adjacent(&self.board, dir)
    }

    /// Put `value` into the `pos`-th empty cell in row-major scan order.
    /// The caller must hand an index below the current empty-cell count.
    pub fn set_move(&mut self, game_move: (u8, u8))
        requires
            board_wf(*old(self)),
            1 <= game_move.0 <= 15,
            game_move.1 < zero_count(old(self).board),
            old(self).move_count < u16::MAX,
    ensures
            board_wf(*final(self)),
            final(self)@ == spawn_bm(old(self)@, game_move.0, game_move.1 as int),
            final(self).state == old(self).state,
            final(self).score == old(self).score,
            final(self).move_count == old(self).move_count + 1,
    {
        let (value, pos) = game_move;
        proof {
            lemma_zeros_bridge(old(self).board, 16);
        }
        let k = find_nth_zero(&self.board, pos);
        matrix::set_cell(&mut self.board, k / 4, k % 4, value);
        self.move_count = self.move_count + 1;
        proof {
            assert(grid_seq(self.board) =~= grid_seq(old(self).board).update(
                nth_zero(grid_seq(old(self).board), pos as int),
                value,
            ));
            assert(self@ =~= spawn_bm(old(self)@, value, pos as int));
        }
    }

    /// Count the number of empty cells.
    pub fn empty_count(&self) -> (c: u8)
        ensures
            c == zero_count(self.board),
            c == zeros_g(self@.cells),
    {
        proof {
            lemma_zeros_bridge(self.board, 16);
        }
        matrix::empty_count(&self.board)
    }

    /// The displayed value of the largest tile: `2^e` for the largest
    /// exponent `e` on the board.
    pub fn max_cell(&self) -> (r: u16)
        requires
            board_wf(*self),
        ensures
            r == crate::slide_cache::pow2int(matrix::grid_max(self.board)),
    {
        let e = matrix::max_cell(&self.board);
        let mut v: u16 = 1;
        for k in 0..e
            invariant
                e <= 15,
                v == crate::slide_cache::pow2int(k as int),
                v <= 32768,
        {
            proof {
                crate::slide_cache::lemma_pow2_mono(k + 1 as int, 15);
                assert(crate::slide_cache::pow2int(15) == 32768) by {
                    reveal_with_fuel(crate::slide_cache::pow2int, 16);
                }
            }
            v = v * 2;
        }
        v
    }

    /// Get the whole board as a 64-bit id, one nibble per cell.
    pub fn get_board_id(&self) -> (id: u64)
        requires
            board_wf(*self),
        ensures
            id == matrix::pack_board(self.board),
    {
        matrix::to_u64(&self.board)
    }
}

/// Find the flattened index of the `pos`-th empty cell.
pub(crate) fn find_nth_zero(m: &Matrix, pos: u8) -> (k: usize)
    requires
        (pos as int) < zeros_g(grid_seq(*m)),
    ensures
        k == nth_zero(grid_seq(*m), pos as int),
        k < 16,
        cell(*m, k as int / 4, k as int % 4) == 0,
{
    let ghost g = grid_seq(*m);
    let mut c: u8 = 0;
    for k in 0..16usize
        invariant
            c <= pos,
            (pos as int) < zeros_g(g),
            g == grid_seq(*m),
            zeros_g_upto(g, k as int) == c,
            nth_zero(g, pos as int) == nth_zero_from(g, k as int, pos - c),
    {
        let j = k / 4;
        let i = k % 4;
        if m[j][i] == 0 {
            if c == pos {
                assert(nth_zero_from(g, k as int, 0) == k);
                return k;
            }
            c = c + 1;
        }
        proof {
            assert(g[k as int] == cell(*m, k as int / 4, k as int % 4));
        }
    }
    proof {
        lemma_zeros_g_mono(g, 16);
        assert(false);
    }
    0
}

/// Prefix zero counts never exceed the full count.
proof fn lemma_zeros_g_mono(g: Seq<u8>, k: int)
    requires
        0 <= k <= 16,
    ensures
        zeros_g_upto(g, k) <= zeros_g(g),
    decreases 16 - k,
{
    if k < 16 {
        lemma_zeros_g_mono(g, k + 1);
    }
}

/// The cell of the grid that line `j`, position `p` denotes under `dir`.
pub open spec fn cell_at(dir: Direction, j: int, p: int) -> int {
    match dir {
        Direction::Left => 4 * j + p,
        Direction::Right => 4 * j + 3 - p,
        Direction::Up => j + 4 * p,
        Direction::Down => j + 4 * (3 - p),
    }
}

/// Reading a cell through its line gives the cell itself.
pub proof fn lemma_line_cell(g: Seq<u8>, dir: Direction, k: int)
    requires
        g.len() == 16,
        0 <= k < 16,
    ensures
        line_of_g(g, dir, line_index(dir, k))[line_pos(dir, k)] == g[k],
        0 <= line_index(dir, k) < 4,
        0 <= line_pos(dir, k) < 4,
        cell_at(dir, line_index(dir, k), line_pos(dir, k)) == k,
{
    assert(4 * (k / 4) + k % 4 == k);
}

/// Line coordinates map back to grid cells.
pub proof fn lemma_cell_at(g: Seq<u8>, dir: Direction, j: int, p: int)
    requires
        g.len() == 16,
        0 <= j < 4,
        0 <= p < 4,
    ensures
        0 <= cell_at(dir, j, p) < 16,
        line_index(dir, cell_at(dir, j, p)) == j,
        line_pos(dir, cell_at(dir, j, p)) == p,
        line_of_g(g, dir, j)[p] == g[cell_at(dir, j, p)],
{
}

/// The slide changes the grid exactly when it changes one of the four
/// lines.
pub proof fn lemma_changed_iff(g: Seq<u8>, dir: Direction)
    requires
        cells_ok(g),
    ensures
        slide_moves(g, dir) <==> exists|j: int|
            0 <= j < 4 && line_eff_changed(#[trigger] line_of_g(g, dir, j)),
{
    reveal(slide_cells);
    reveal(slide_moves);
    reveal(line_eff);
    reveal(line_eff_changed);
    assert forall|j: int| 0 <= j < 4 implies (line_of_g(g, dir, j).len() == 4 && row_nibbles(
        line_of_g(g, dir, j),
    ) && line_eff(line_of_g(g, dir, j)).len() == 4) by {
        lemma_cell_at(g, dir, j, 0);
        lemma_cell_at(g, dir, j, 1);
        lemma_cell_at(g, dir, j, 2);
        lemma_cell_at(g, dir, j, 3);
        crate::slide_cache::lemma_slide_row_len(line_of_g(g, dir, j));
    }
    if exists|j: int| 0 <= j < 4 && line_eff_changed(#[trigger] line_of_g(g, dir, j)) {
        let j = choose|j: int| 0 <= j < 4 && line_eff_changed(#[trigger] line_of_g(g, dir, j));
        let line = line_of_g(g, dir, j);
        assert(exists|p: int| 0 <= p < 4 && line_eff(line)[p] != line[p]) by {
            if forall|p: int| 0 <= p < 4 ==> #[trigger] line_eff(line)[p] == line[p] {
                assert(line_eff(line) =~= line);
                assert(slide_row(line) == line);
            }
        }
        let p = choose|p: int| 0 <= p < 4 && line_eff(line)[p] != line[p];
        lemma_cell_at(g, dir, j, p);
        assert(slide_cells(g, dir)[cell_at(dir, j, p)] != g[cell_at(dir, j, p)]);
        assert(slide_moves(g, dir));
    } else {
        assert forall|k: int| 0 <= k < 16 implies #[trigger] slide_cells(g, dir)[k] == g[k] by {
            lemma_line_cell(g, dir, k);
            let j = line_index(dir, k);
            assert(!line_eff_changed(line_of_g(g, dir, j)));
            assert(line_eff(line_of_g(g, dir, j)) == line_of_g(g, dir, j));
        }
        assert(slide_cells(g, dir) =~= g);
    }
}

impl Board {
    /// Slide row `j` through the transition table: encode the row (mirrored
    /// for a rightward slide), look its entry up, and decode the stored
    /// result; rows without an entry stay put.
    fn slide_row_tbl(&mut self, j: usize, rev: bool, cache: &SlideCache) -> (moved: bool)
        requires
            board_wf(*old(self)),
            table_complete(cache.table@),
            j < 4,
            old(self).score <= u32::MAX - 65536,
        ensures
            board_wf(*final(self)),
            forall|a: int, b: int| 0 <= a < 4 && 0 <= b < 4 ==> #[trigger] cell(
                final(self).board,
                a,
                b,
            ) == (if a == j {
                line_eff(hline(grid_seq(old(self).board), j as int, rev))[if rev {
                    3 - b
                } else {
                    b
                }]
            } else {
                cell(old(self).board, a, b)
            }),
            final(self).score == old(self).score + line_eff_score(
                hline(grid_seq(old(self).board), j as int, rev),
            ),
            0 <= line_eff_score(hline(grid_seq(old(self).board), j as int, rev)) <= 65536,
            moved == line_eff_changed(hline(grid_seq(old(self).board), j as int, rev)),
            final(self).state == old(self).state,
            final(self).move_count == old(self).move_count,
    {
        proof {
            reveal(line_eff);
            reveal(line_eff_score);
            reveal(line_eff_changed);
        }
        let ghost g0 = grid_seq(self.board);
        let ghost oriented = hline(g0, j as int, rev);
        let row: [u8; 4] = self.board[j];
        proof {
            assert forall|b: int| 0 <= b < 4 implies g0[4 * j + b] == cell(
                self.board,
                j as int,
                b,
            ) by {
                assert((4 * j + b) / 4 == j && (4 * j + b) % 4 == b);
            }
            assert(row@ =~= hline(g0, j as int, false));
            if rev {
                assert(crate::matrix::rev_row(row@) =~= oriented);
            }
            assert(row_nibbles(oriented));
            assert(oriented.len() == 4);
        }
        let id: u16 = if rev {
            matrix::to_u16_rev(row)
        } else {
            matrix::to_u16(row)
        };
        proof {
            crate::matrix::lemma_unpack_pack(oriented);
            crate::slide_cache::lemma_entry_line(oriented);
        }
        let item = cache.table[id as usize];
        proof {
            assert(item == crate::slide_cache::entry_for(oriented));
        }
        if item.line != 0 {
            let mut newrow = row;
            proof {
                crate::slide_cache::lemma_slide_row_len(oriented);
                crate::matrix::lemma_unpack_pack(slide_row(oriented));
            }
            if rev {
                matrix::from_u16_rev(&mut newrow, item.line);
            } else {
                matrix::from_u16(&mut newrow, item.line);
            }
            matrix::set_row(&mut self.board, j, newrow);
            let gain: u32 = if item.score == 0 {
                0
            } else {
                (item.score as u32) + 1
            };
            proof {
                assert(gain == slide_score(oriented));
            }
            self.score = self.score + gain;
            proof {
                assert forall|b: int| 0 <= b < 4 implies cell(self.board, j as int, b)
                    == line_eff(oriented)[if rev {
                    3 - b
                } else {
                    b
                }] by {
                    if rev {
                        assert(newrow@[b] == crate::matrix::rev_row(unpack_row(
                            item.line as int,
                        ))[b]);
                    }
                }
            }
            true
        } else {
            proof {
                assert(!line_eff_changed(oriented));
                assert(line_eff(oriented) == oriented);
                assert forall|b: int| 0 <= b < 4 implies cell(self.board, j as int, b)
                    == line_eff(oriented)[if rev {
                    3 - b
                } else {
                    b
                }] by {
                    if rev {
                        assert(oriented[3 - b] == g0[4 * j + 3 - (3 - b)]);
                    }
                }
            }
            false
        }
    }

    /// Slide every row of the board through the table, leftward or (when
    /// `rev`) rightward.
    fn slide_board(&mut self, rev: bool, cache: &SlideCache) -> (moved: bool)
        requires
            board_wf(*old(self)),
            table_complete(cache.table@),
            old(self).score <= u32::MAX - 262144,
        ensures
            board_wf(*final(self)),
            forall|a: int, b: int| 0 <= a < 4 && 0 <= b < 4 ==> #[trigger] cell(
                final(self).board,
                a,
                b,
            ) == line_eff(hline(grid_seq(old(self).board), a, rev))[if rev {
                3 - b
            } else {
                b
            }],
            final(self).score == old(self).score + line_eff_score(
                hline(grid_seq(old(self).board), 0, rev),
            ) + line_eff_score(hline(grid_seq(old(self).board), 1, rev)) + line_eff_score(
                hline(grid_seq(old(self).board), 2, rev),
            ) + line_eff_score(hline(grid_seq(old(self).board), 3, rev)),
            moved == (line_eff_changed(hline(grid_seq(old(self).board), 0, rev))
                || line_eff_changed(hline(grid_seq(old(self).board), 1, rev))
                || line_eff_changed(hline(grid_seq(old(self).board), 2, rev))
                || line_eff_changed(hline(grid_seq(old(self).board), 3, rev))),
            final(self).state == old(self).state,
            final(self).move_count == old(self).move_count,
    {
        let ghost g0 = grid_seq(self.board);
        let m0 = self.slide_row_tbl(0, rev, cache);
        proof {
            assert(hline(grid_seq(self.board), 1, rev) =~= hline(g0, 1, rev));
            assert(hline(grid_seq(self.board), 2, rev) =~= hline(g0, 2, rev));
            assert(hline(grid_seq(self.board), 3, rev) =~= hline(g0, 3, rev));
        }
        let ghost s1 = *self;
        let m1 = self.slide_row_tbl(1, rev, cache);
        proof {
            assert(hline(grid_seq(self.board), 2, rev) =~= hline(g0, 2, rev));
            assert(hline(grid_seq(self.board), 3, rev) =~= hline(g0, 3, rev));
        }
        let ghost s2 = *self;
        let m2 = self.slide_row_tbl(2, rev, cache);
        proof {
            assert(hline(grid_seq(self.board), 3, rev) =~= hline(g0, 3, rev));
        }
        let ghost s3 = *self;
        let m3 = self.slide_row_tbl(3, rev, cache);
        m0 || m1 || m2 || m3
    }

    /// Slide the board toward `dir` through the table; vertical slides
    /// transpose, slide rows, and transpose back.  Counts the move when
    /// anything changed.
    /// Slide the board leftward or rightward through the table.
    #[verifier::rlimit(100)]
    fn slide_h_to(&mut self, dir: Direction, rev: bool, cache: &SlideCache) -> (moved: bool)
        requires
            board_wf(*old(self)),
            table_complete(cache.table@),
            old(self).score <= u32::MAX - 262144,
            dir == if rev {
                Direction::Right
            } else {
                Direction::Left
            },
        ensures
            board_wf(*final(self)),
            final(self)@.cells == slide_cells(old(self)@.cells, dir),
            final(self)@.score == old(self)@.score + slide_gain(old(self)@.cells, dir),
            final(self).state == old(self).state,
            final(self).move_count == old(self).move_count,
            moved == slide_moves(old(self)@.cells, dir),
    {
        let ghost g0 = grid_seq(self.board);
        proof {
            lemma_changed_iff(g0, dir);
        }
        let moved = self.slide_board(rev, cache);
        proof {
            reveal(slide_cells);
            reveal(slide_gain);
            reveal(slide_moves);
            assert forall|j: int| 0 <= j < 4 implies #[trigger] hline(g0, j, rev) == line_of_g(
                g0,
                dir,
                j,
            ) by {
                assert(hline(g0, j, rev) =~= line_of_g(g0, dir, j));
            }
            assert forall|k: int| 0 <= k < 16 implies #[trigger] grid_seq(self.board)[k]
                == slide_cells(g0, dir)[k] by {
                let a = k / 4;
                let b = k % 4;
                assert(4 * a + b == k);
                assert(cell(self.board, a, b) == line_eff(hline(g0, a, rev))[if rev {
                    3 - b
                } else {
                    b
                }]);
                assert(line_index(dir, k) == a);
                assert(line_pos(dir, k) == if rev {
                    3 - b
                } else {
                    b
                });
            }
            assert(grid_seq(self.board) =~= slide_cells(g0, dir));
        }
        moved
    }

    /// Slide the board upward or downward: transpose, slide the rows, and
    /// transpose back.
    #[verifier::rlimit(100)]
    fn slide_v_to(&mut self, dir: Direction, rev: bool, cache: &SlideCache) -> (moved: bool)
        requires
            board_wf(*old(self)),
            table_complete(cache.table@),
            old(self).score <= u32::MAX - 262144,
            dir == if rev {
                Direction::Down
            } else {
                Direction::Up
            },
        ensures
            board_wf(*final(self)),
            final(self)@.cells == slide_cells(old(self)@.cells, dir),
            final(self)@.score == old(self)@.score + slide_gain(old(self)@.cells, dir),
            final(self).state == old(self).state,
            final(self).move_count == old(self).move_count,
            moved == slide_moves(old(self)@.cells, dir),
    {
        let ghost g0 = grid_seq(self.board);
        proof {
            lemma_changed_iff(g0, dir);
        }
        matrix::transpose(&mut self.board);
        let ghost gt = grid_seq(self.board);
        proof {
            assert forall|k: int| 0 <= k < 16 implies #[trigger] gt[k] == g0[4 * (k % 4) + k
                / 4] by {
                assert(gt[k] == cell(self.board, k / 4, k % 4));
                assert(cell(self.board, k / 4, k % 4) == cell(old(self).board, k % 4, k / 4));
                assert((4 * (k % 4) + k / 4) / 4 == k % 4 && (4 * (k % 4) + k / 4) % 4 == k / 4);
            }
            assert(board_wf(*self)) by {
                assert forall|a: int, b: int| 0 <= a < 4 && 0 <= b < 4 implies #[trigger] cell(
                    self.board,
                    a,
                    b,
                ) <= 15 by {
                    assert(cell(self.board, a, b) == cell(old(self).board, b, a));
                }
            }
            lemma_transpose_lines(g0, gt, rev, dir);
        }
        let moved = self.slide_board(rev, cache);
        let ghost b2 = self.board;
        matrix::transpose(&mut self.board);
        proof {
            reveal(slide_cells);
            reveal(slide_gain);
            reveal(slide_moves);
            assert forall|k: int| 0 <= k < 16 implies #[trigger] grid_seq(self.board)[k]
                == slide_cells(g0, dir)[k] by {
                let a = k / 4;
                let b = k % 4;
                assert(4 * a + b == k);
                assert(cell(self.board, a, b) == cell(b2, b, a));
                assert(cell(b2, b, a) == line_eff(hline(gt, b, rev))[if rev {
                    3 - a
                } else {
                    a
                }]);
                assert(hline(gt, b, rev) == line_of_g(g0, dir, b));
                assert(line_index(dir, k) == b);
                assert(line_pos(dir, k) == if rev {
                    3 - a
                } else {
                    a
                });
            }
            assert(grid_seq(self.board) =~= slide_cells(g0, dir));
            assert(board_wf(*self)) by {
                assert forall|a: int, b: int| 0 <= a < 4 && 0 <= b < 4 implies #[trigger] cell(
                    self.board,
                    a,
                    b,
                ) <= 15 by {
                    assert(cell(self.board, a, b) == cell(b2, b, a));
                }
            }
        }
        moved
    }

    /// Slide the board toward `dir` through the table; vertical slides
    /// transpose, slide rows, and transpose back.  Counts the move when
    /// anything changed.
    pub fn slide_to(&mut self, dir: Direction, cache: &SlideCache) -> (moved: bool)
        requires
            board_wf(*old(self)),
            table_complete(cache.table@),
            old(self).score <= u32::MAX - 262144,
            old(self).move_count < u16::MAX,
        ensures
            board_wf(*final(self)),
            final(self)@ == slide_bm(old(self)@, dir),
            moved == slide_moves(old(self)@.cells, dir),
    {
        let moved = match dir {
            Direction::Left => self.slide_h_to(dir, false, cache),
            Direction::Right => self.slide_h_to(dir, true, cache),
            Direction::Up => self.slide_v_to(dir, false, cache),
            Direction::Down => self.slide_v_to(dir, true, cache),
        };
        if moved {
            self.move_count = self.move_count + 1;
        }
        proof {
            assert(final(self)@ =~= slide_bm(old(self)@, dir));
        }
        moved
    }
}

/// After a transpose, the rows of the transposed grid read in slide order
/// are exactly the columns of the original grid read in slide order.
proof fn lemma_transpose_lines(g0: Seq<u8>, gt: Seq<u8>, rev: bool, dir: Direction)
    requires
        g0.len() == 16,
        gt.len() == 16,
        forall|k: int| 0 <= k < 16 ==> #[trigger] gt[k] == g0[4 * (k % 4) + k / 4],
        dir == if rev {
            Direction::Down
        } else {
            Direction::Up
        },
    ensures
        forall|j: int| 0 <= j < 4 ==> #[trigger] hline(gt, j, rev) == line_of_g(g0, dir, j),
{
    assert forall|j: int| 0 <= j < 4 implies #[trigger] hline(gt, j, rev) == line_of_g(
        g0,
        dir,
        j,
    ) by {
        assert(gt[4 * j] == g0[4 * ((4 * j) % 4) + (4 * j) / 4]);
        assert(gt[4 * j + 1] == g0[4 * ((4 * j + 1) % 4) + (4 * j + 1) / 4]);
        assert(gt[4 * j + 2] == g0[4 * ((4 * j + 2) % 4) + (4 * j + 2) / 4]);
        assert(gt[4 * j + 3] == g0[4 * ((4 * j + 3) % 4) + (4 * j + 3) / 4]);
        assert(hline(gt, j, rev) =~= line_of_g(g0, dir, j));
    }
}

/// The effective slide of a valid line is again a valid line.
pub proof fn lemma_line_eff_props(s: Seq<u8>)
    requires
        s.len() == 4,
        crate::matrix::row_nibbles(s),
    ensures
        line_eff(s).len() == 4,
        crate::matrix::row_nibbles(line_eff(s)),
        0 <= line_eff_score(s) <= 65536,
{
    reveal(line_eff);
    reveal(line_eff_score);
    crate::slide_cache::lemma_slide_row_len(s);
    crate::slide_cache::lemma_entry_line(s);
}

/// Scan the grid for an adjacent equal pair along the axis of `dir`.
pub(crate) fn scan_adjacent(m: &Matrix, dir: Direction) -> (r: bool)
    ensures
        dir == Direction::Left || dir == Direction::Right ==> r == has_h_pair(*m),
        dir == Direction::Up || dir == Direction::Down ==> r == has_v_pair(*m),
{
    let (x, y) = dir.get_mask();
    let jmax = 4 - y;
    let imax = 4 - x;
    for j in 0..jmax
        invariant
            (x, y) == crate::direction::spec_mask(dir),
            x <= 1 && y <= 1 && x + y == 1,
            jmax == 4 - y && imax == 4 - x,
            forall|a: int, b: int|
                0 <= a < j && 0 <= b < imax ==> #[trigger] cell(*m, a, b) != cell(
                    *m,
                    a + y,
                    b + x,
                ),
    {
        for i in 0..imax
            invariant
                (x, y) == crate::direction::spec_mask(dir),
                x <= 1 && y <= 1 && x + y == 1,
                jmax == 4 - y && imax == 4 - x,
                0 <= j < jmax,
                forall|a: int, b: int|
                    0 <= a < j && 0 <= b < imax ==> #[trigger] cell(*m, a, b) != cell(
                        *m,
                        a + y,
                        b + x,
                    ),
                forall|b: int|
                    0 <= b < i ==> #[trigger] cell(*m, j as int, b) != cell(*m, j + y, b + x),
        {
            if m[j][i] == m[j + y][i + x] {
                assert(cell(*m, j as int, i as int) == cell(*m, j + y, i + x));
                return true;
            }
        }
    }
    false
}

/// Zero counts of prefixes are nonnegative and never exceed the full count.
pub proof fn lemma_zeros_g_bounds(g: Seq<u8>, a: int, b: int)
    requires
        0 <= a <= b <= 16,
    ensures
        zeros_g_upto(g, a) <= zeros_g_upto(g, b),
        0 <= zeros_g_upto(g, a),
    decreases b - a, a + 1,
{
    if a < b {
        lemma_zeros_g_bounds(g, a + 1, b);
        lemma_zeros_g_bounds(g, a, a);
    } else if a > 0 {
        lemma_zeros_g_bounds(g, a - 1, a - 1);
    }
}

/// A zero cell makes the zero count positive.
pub proof fn lemma_zero_cell_counts(g: Seq<u8>, k: int)
    requires
        0 <= k < 16,
        g[k] == 0,
    ensures
        zeros_g(g) >= 1,
{
    lemma_zeros_g_bounds(g, 0, k);
    lemma_zeros_g_bounds(g, k + 1, 16);
    lemma_zeros_g_bounds(g, 0, k + 1);
}

/// Updating a zero cell to a tile lowers the zero count by one.
pub proof fn lemma_zeros_after_update(g: Seq<u8>, k: int, idx: int, v: u8)
    requires
        g.len() == 16,
        0 <= idx < 16,
        g[idx] == 0,
        v != 0,
        0 <= k <= 16,
    ensures
        zeros_g_upto(g.update(idx, v), k) == zeros_g_upto(g, k) - if idx < k {
            1int
        } else {
            0int
        },
    decreases k,
{
    if k > 0 {
        lemma_zeros_after_update(g, k - 1, idx, v);
    }
}

/// The `p`-th zero cell exists and is empty whenever `p` is below the zero
/// count.
pub proof fn lemma_nth_zero_from(g: Seq<u8>, k: int, p: int)
    requires
        g.len() == 16,
        0 <= k <= 16,
        0 <= p,
        zeros_g_upto(g, k) + p < zeros_g(g),
    ensures
        k <= nth_zero_from(g, k, p) < 16,
        g[nth_zero_from(g, k, p)] == 0,
    decreases 16 - k,
{
    if k >= 16 {
        lemma_zeros_g_bounds(g, 16, 16);
        assert(false);
    } else if g[k] == 0 {
        if p > 0 {
            lemma_nth_zero_from(g, k + 1, p - 1);
        }
    } else {
        lemma_nth_zero_from(g, k + 1, p);
    }
}

/// See `lemma_nth_zero_from`: the `p`-th zero cell of the whole grid.
pub proof fn lemma_nth_zero(g: Seq<u8>, p: int)
    requires
        g.len() == 16,
        0 <= p < zeros_g(g),
    ensures
        0 <= nth_zero(g, p) < 16,
        g[nth_zero(g, p)] == 0,
{
    lemma_nth_zero_from(g, 0, p);
}

/// The grid one spawn makes: the `p`-th empty cell filled with `v`.
pub open spec fn spawn_cells(g: Seq<u8>, v: u8, p: int) -> Seq<u8> {
    g.update(nth_zero(g, p), v)
}

/// The all-empty grid.
pub open spec fn zero_grid() -> Seq<u8> {
    Seq::new(16, |k: int| 0u8)
}

/// A full board with no adjacent equal pair along the axis of `dir` cannot
/// move toward `dir`: every line is already stable.
pub proof fn lemma_stuck(m: Matrix, dir: Direction)
    requires
        cells_within(m, 15),
        zeros_g(grid_seq(m)) == 0,
        dir == Direction::Left || dir == Direction::Right ==> !has_h_pair(m),
        dir == Direction::Up || dir == Direction::Down ==> !has_v_pair(m),
    ensures
        !slide_moves(grid_seq(m), dir),
{
    let g = grid_seq(m);
    reveal(line_eff_changed);
    reveal(slide_moves);
    reveal(slide_cells);
    assert forall|k: int| 0 <= k < 16 implies #[trigger] g[k] != 0 by {
        if g[k] == 0 {
            lemma_zero_cell_counts(g, k);
        }
    }
    assert forall|j: int| 0 <= j < 4 implies !line_eff_changed(#[trigger] line_of_g(
        g,
        dir,
        j,
    )) by {
        let line = line_of_g(g, dir, j);
        lemma_cell_at(g, dir, j, 0);
        lemma_cell_at(g, dir, j, 1);
        lemma_cell_at(g, dir, j, 2);
        lemma_cell_at(g, dir, j, 3);
        assert forall|p: int| 0 <= p < 3 implies #[trigger] line[p] != line[p + 1] by {
            if line[p] == line[p + 1] {
                let k1 = cell_at(dir, j, p);
                let k2 = cell_at(dir, j, p + 1);
                assert(g[k1] == g[k2]);
                assert(g[k1] == cell(m, k1 / 4, k1 % 4));
                assert(g[k2] == cell(m, k2 / 4, k2 % 4));
                match dir {
                    Direction::Left => {
                        assert(cell(m, k1 / 4, k1 % 4) == cell(m, k1 / 4, k1 % 4 + 1));
                    },
                    Direction::Right => {
                        assert(cell(m, k2 / 4, k2 % 4) == cell(m, k2 / 4, k2 % 4 + 1));
                    },
                    Direction::Up => {
                        assert(cell(m, k1 / 4, k1 % 4) == cell(m, k1 / 4 + 1, k1 % 4));
                    },
                    Direction::Down => {
                        assert(cell(m, k2 / 4, k2 % 4) == cell(m, k2 / 4 + 1, k2 % 4));
                    },
                }
            }
        }
        assert(crate::slide_cache::row_stable(line));
        crate::slide_cache::lemma_slide_stable(line);
    }
    lemma_changed_iff(g, dir);
}

/// Two grids that flatten equal are the same matrix.
pub proof fn lemma_grid_eq_mat(m1: Matrix, m2: Matrix)
    requires
        grid_seq(m1) == grid_seq(m2),
    ensures
        m1 == m2,
{
    assert forall|j: int| 0 <= j < 4 implies m1@[j] == m2@[j] by {
        assert forall|i: int| 0 <= i < 4 implies m1@[j]@[i] == m2@[j]@[i] by {
            assert(grid_seq(m1)[4 * j + i] == cell(m1, (4 * j + i) / 4, (4 * j + i) % 4));
            assert(grid_seq(m2)[4 * j + i] == cell(m2, (4 * j + i) / 4, (4 * j + i) % 4));
            assert((4 * j + i) / 4 == j && (4 * j + i) % 4 == i);
        }
        assert(m1@[j] =~= m2@[j]);
    }
    assert(m1 =~= m2);
}

/// A well-formed board flattens to a well-formed grid.
pub proof fn lemma_wf_cells_ok(b: Board)
    requires
        board_wf(b),
    ensures
        cells_ok(b@.cells),
{
    assert forall|k: int| 0 <= k < 16 implies #[trigger] grid_seq(b.board)[k] <= 15 by {
        assert(grid_seq(b.board)[k] == cell(b.board, k / 4, k % 4));
    }
}

/// One slide gains at most four maximal line scores.
pub proof fn lemma_slide_gain_bound(g: Seq<u8>, dir: Direction)
    requires
        cells_ok(g),
    ensures
        0 <= slide_gain(g, dir) <= 262144,
{
    reveal(slide_gain);
    reveal(line_eff_score);
    assert forall|j: int| 0 <= j < 4 implies 0 <= line_eff_score(#[trigger] line_of_g(g, dir, j))
        <= 65536 by {
        lemma_cell_at(g, dir, j, 0);
        lemma_cell_at(g, dir, j, 1);
        lemma_cell_at(g, dir, j, 2);
        lemma_cell_at(g, dir, j, 3);
        crate::slide_cache::lemma_entry_line(line_of_g(g, dir, j));
    }
    assert(0 <= line_eff_score(line_of_g(g, dir, 0)) <= 65536);
    assert(0 <= line_eff_score(line_of_g(g, dir, 1)) <= 65536);
    assert(0 <= line_eff_score(line_of_g(g, dir, 2)) <= 65536);
    assert(0 <= line_eff_score(line_of_g(g, dir, 3)) <= 65536);
}

/// A slide that changes the board leaves at least one empty cell behind.
pub proof fn lemma_moved_leaves_zero(g: Seq<u8>, dir: Direction)
    requires
        cells_ok(g),
        slide_moves(g, dir),
    ensures
        zeros_g(slide_cells(g, dir)) >= 1,
{
    reveal(slide_cells);
    lemma_changed_iff(g, dir);
    let j = choose|j: int| 0 <= j < 4 && line_eff_changed(#[trigger] line_of_g(g, dir, j));
    let line = line_of_g(g, dir, j);
    lemma_cell_at(g, dir, j, 0);
    lemma_cell_at(g, dir, j, 1);
    lemma_cell_at(g, dir, j, 2);
    lemma_cell_at(g, dir, j, 3);
    reveal(line_eff);
    reveal(line_eff_changed);
    crate::slide_cache::lemma_changed_tail_zero(line);
    let k = cell_at(dir, j, 3);
    assert(slide_cells(g, dir)[k] == line_eff(line)[3]);
    lemma_zero_cell_counts(slide_cells(g, dir), k);
}

/// The matrix `m` with its first `k` row-major cells replaced by the cells
/// of `g`; the spec-level way to build a grid value.
pub open spec fn mat_upd_upto(m: Matrix, g: Seq<u8>, k: int) -> Matrix
    decreases k,
{
    if k <= 0 {
        m
    } else {
        let prev = mat_upd_upto(m, g, k - 1);
        vstd::array::spec_array_update(
            prev,
            (k - 1) / 4,
            vstd::array::spec_array_update(prev[(k - 1) / 4], (k - 1) % 4, g[k - 1]),
        )
    }
}

/// What `mat_upd_upto` builds, cell by cell.
pub proof fn lemma_mat_upd(m: Matrix, g: Seq<u8>, k: int)
    requires
        0 <= k <= 16,
    ensures
        forall|a: int, b: int| 0 <= a < 4 && 0 <= b < 4 ==> #[trigger] cell(
            mat_upd_upto(m, g, k),
            a,
            b,
        ) == if 4 * a + b < k {
            g[4 * a + b]
        } else {
            cell(m, a, b)
        },
    decreases k,
{
    broadcast use vstd::array::group_array_axioms;

    if k > 0 {
        lemma_mat_upd(m, g, k - 1);
        let prev = mat_upd_upto(m, g, k - 1);
        let cur = mat_upd_upto(m, g, k);
        let j0 = (k - 1) / 4;
        let i0 = (k - 1) % 4;
        assert(cur@ == prev@.update(j0, vstd::array::spec_array_update(prev[j0], i0, g[k - 1])));
        assert(4 * j0 + i0 == k - 1);
        assert forall|a: int, b: int| 0 <= a < 4 && 0 <= b < 4 implies #[trigger] cell(cur, a, b)
            == if 4 * a + b < k {
            g[4 * a + b]
        } else {
            cell(m, a, b)
        } by {
            assert(cell(prev, a, b) == if 4 * a + b < k - 1 {
                g[4 * a + b]
            } else {
                cell(m, a, b)
            });
            if a == j0 {
                assert(cur@[a]@ == prev@[a]@.update(i0, g[k - 1]));
                if b == i0 {
                    assert(cell(cur, a, b) == g[k - 1]);
                    assert(4 * a + b == k - 1);
                } else {
                    assert(cell(cur, a, b) == prev@[a]@[b]);
                    assert(cell(cur, a, b) == cell(prev, a, b));
                    assert(4 * a + b != k - 1);
                }
            } else {
                assert(cur@[a] == prev@[a]);
                assert(cell(cur, a, b) == cell(prev, a, b));
                assert(4 * a + b != k - 1);
            }
        }
    }
}

/// The board value a model denotes, rebuilt over an arbitrary base grid.
pub open spec fn board_of(base: Board, bm: BoardModel) -> Board {
    Board {
        board: mat_upd_upto(base.board, bm.cells, 16),
        state: bm.state,
        score: bm.score as u32,
        move_count: bm.move_count as u16,
    }
}

/// The board after a slide, as a value.
pub open spec fn slide_b(b: Board, dir: Direction) -> Board {
    board_of(b, slide_bm(b@, dir))
}

/// The board after a spawn, as a value.
pub open spec fn spawn_b(b: Board, v: u8, p: int) -> Board {
    board_of(b, spawn_bm(b@, v, p))
}

/// A board whose model is `bm` is the (unique) board `board_of` builds
/// for it.
pub proof fn lemma_board_of(base: Board, bm: BoardModel, c: Board)
    requires
        c@ == bm,
        bm.cells.len() == 16,
    ensures
        c == board_of(base, bm),
{
    lemma_mat_upd(base.board, bm.cells, 16);
    let built = mat_upd_upto(base.board, bm.cells, 16);
    assert forall|k: int| 0 <= k < 16 implies #[trigger] grid_seq(built)[k] == bm.cells[k] by {
        assert(grid_seq(built)[k] == cell(built, k / 4, k % 4));
        assert(4 * (k / 4) + (k % 4) == k);
    }
    assert(grid_seq(built) =~= bm.cells);
    assert(grid_seq(c.board) == bm.cells);
    lemma_grid_eq_mat(c.board, built);
    assert(c.score == bm.score as u32 && c.move_count == bm.move_count as u16) by {
        assert(c@.score == c.score as int && c@.move_count == c.move_count as int);
    }
}

} // verus!
