//! Matrix utilities: the 4x4 grid of tile exponents, its packed integer
//! encodings, and the board-shape heuristics used by the evaluation function.

use vstd::prelude::*;

verus! {

/// Side length of the square board.
pub const BOARD_SIZE: usize = 4;

/// A 4x4 grid of tile exponents: cell `e` stands for the tile `2^e`,
/// `0` for an empty cell.
pub type Matrix = [[u8; 4]; 4];

/// Cell at row `j`, column `i`.
pub open spec fn cell(m: Matrix, j: int, i: int) -> u8 {
    m[j][i]
}

/// Every cell is at most `bound`.
pub open spec fn cells_within(m: Matrix, bound: u8) -> bool {
    forall|j: int, i: int| 0 <= j < 4 && 0 <= i < 4 ==> #[trigger] cell(m, j, i) <= bound
}

/// A row packs into 16 bits, one nibble per cell, leftmost cell highest.
pub open spec fn pack_row(r: Seq<u8>) -> int {
    r[0] * 4096 + r[1] * 256 + r[2] * 16 + r[3]
}

/// The row whose packed encoding is `id`: one nibble per cell,
/// leftmost cell highest.
pub open spec fn unpack_row(id: int) -> Seq<u8> {
    seq![
        ((id / 4096) % 16) as u8,
        ((id / 256) % 16) as u8,
        ((id / 16) % 16) as u8,
        (id % 16) as u8,
    ]
}

/// All four entries of a row are valid nibbles (at most 15).
pub open spec fn row_nibbles(r: Seq<u8>) -> bool {
    forall|k: int| 0 <= k < r.len() ==> #[trigger] r[k] <= 15
}

/// `r` reversed; used by the mirrored row encoding that serves the
/// rightward and downward slides.
pub open spec fn rev_row(r: Seq<u8>) -> Seq<u8> {
    seq![r[3], r[2], r[1], r[0]]
}

/// Write `v` into the cell at row `j`, column `i`, leaving the rest alone.
pub(crate) fn set_cell(m: &mut Matrix, j: usize, i: usize, v: u8)
    requires
        j < 4,
        i < 4,
    ensures
        forall|a: int, b: int| 0 <= a < 4 && 0 <= b < 4 ==> #[trigger] cell(*final(m), a, b) == (
        if a == j && b == i {
            v
        } else {
            cell(*old(m), a, b)
        }),
{
    m[j][i] = v;
    proof {
        assert forall|a: int, b: int| 0 <= a < 4 && 0 <= b < 4 && !(a == j && b == i) implies cell(
            *m,
            a,
            b,
        ) == cell(*old(m), a, b) by {
            assert(m@[a] == old(m)@[a] || a == j);
        }
    }
}

/// Write `v` into entry `i` of a 4-cell row, leaving the rest alone.
pub(crate) fn set_row_cell(r: &mut [u8; 4], i: usize, v: u8)
    requires
        i < 4,
    ensures
        final(r)@ == old(r)@.update(i as int, v),
{
    r[i] = v;
}

/// The largest exponent among the first `k` cells in row-major order.
pub open spec fn max_upto(m: Matrix, k: int) -> int
    decreases k,
{
    if k <= 0 {
        0
    } else {
        let c = cell(m, (k - 1) / 4, (k - 1) % 4) as int;
        let r = max_upto(m, k - 1);
        if c > r {
            c
        } else {
            r
        }
    }
}

/// The largest exponent on the grid.
pub open spec fn grid_max(m: Matrix) -> int {
    max_upto(m, 16)
}

/// Replace row `j` wholesale, leaving the other rows alone.
pub(crate) fn set_row(m: &mut Matrix, j: usize, r: [u8; 4])
    requires
        j < 4,
    ensures
        forall|a: int, b: int| 0 <= a < 4 && 0 <= b < 4 ==> #[trigger] cell(*final(m), a, b) == (
        if a == j {
            r@[b]
        } else {
            cell(*old(m), a, b)
        }),
{
    m[j] = r;
    proof {
        assert forall|a: int, b: int| 0 <= a < 4 && 0 <= b < 4 && a != j implies cell(*m, a, b)
            == cell(*old(m), a, b) by {
            assert(m@[a] == old(m)@[a]);
        }
    }
}

/// Replace column `i` wholesale, leaving the other columns alone.
pub(crate) fn set_col(m: &mut Matrix, i: usize, r: [u8; 4])
    requires
        i < 4,
    ensures
        forall|a: int, b: int| 0 <= a < 4 && 0 <= b < 4 ==> #[trigger] cell(*final(m), a, b) == (
        if b == i {
            r@[a]
        } else {
            cell(*old(m), a, b)
        }),
{
    set_cell(m, 0, i, r[0]);
    set_cell(m, 1, i, r[1]);
    set_cell(m, 2, i, r[2]);
    set_cell(m, 3, i, r[3]);
}

/// Max cell value.
pub fn max_cell(m: &Matrix) -> (max: u8)
    ensures
        max == grid_max(*m),
        forall|j: int, i: int| 0 <= j < 4 && 0 <= i < 4 ==> #[trigger] cell(*m, j, i) <= max,
        max == 0 || exists|j: int, i: int|
            0 <= j < 4 && 0 <= i < 4 && #[trigger] cell(*m, j, i) == max,
{
    let mut max: u8 = 0;
    for j in 0..4usize
        invariant
            max == max_upto(*m, 4 * j),
            forall|a: int, i: int| 0 <= a < j && 0 <= i < 4 ==> #[trigger] cell(*m, a, i) <= max,
            max == 0 || exists|a: int, i: int|
                0 <= a < 4 && 0 <= i < 4 && #[trigger] cell(*m, a, i) == max,
    {
        for i in 0..4usize
            invariant
                0 <= j < 4,
                max == max_upto(*m, 4 * j + i),
                forall|a: int, b: int| 0 <= a < j && 0 <= b < 4 ==> #[trigger] cell(*m, a, b)
                    <= max,
                forall|b: int| 0 <= b < i ==> #[trigger] cell(*m, j as int, b) <= max,
                max == 0 || exists|a: int, b: int|
                    0 <= a < 4 && 0 <= b < 4 && #[trigger] cell(*m, a, b) == max,
        {
            proof {
                let k = 4 * j + i;
                assert(cell(*m, k as int / 4, k as int % 4) == cell(*m, j as int, i as int));
            }
            if m[j][i] > max {
                max = m[j][i];
                assert(cell(*m, j as int, i as int) == max);
            }
        }
    }
    max
}

/// Number of zero cells among the first `k` cells in row-major order.
pub open spec fn zeros_upto(m: Matrix, k: int) -> int
    decreases k,
{
    if k <= 0 {
        0
    } else {
        zeros_upto(m, k - 1) + if cell(m, (k - 1) / 4, (k - 1) % 4) == 0 {
            1int
        } else {
            0int
        }
    }
}

/// Number of empty cells of the whole grid.
pub open spec fn zero_count(m: Matrix) -> int {
    zeros_upto(m, 16)
}

/// Count the number of empty cells.
pub fn empty_count(m: &Matrix) -> (c: u8)
    ensures
        c == zero_count(*m),
{
    let mut c: u8 = 0;
    for j in 0..4usize
        invariant
            c == zeros_upto(*m, 4 * j),
            c <= 4 * j,
    {
        for i in 0..4usize
            invariant
                0 <= j < 4,
                c == zeros_upto(*m, 4 * j + i),
                c <= 4 * j + i,
        {
            if m[j][i] == 0 {
                c = c + 1;
            }
            assert(cell(*m, (4 * j + i) as int / 4, (4 * j + i) as int % 4) == cell(
                *m,
                j as int,
                i as int,
            ));
        }
    }
    c
}

/// Transpose the matrix.
pub fn transpose(m: &mut Matrix)
    ensures
        forall|j: int, i: int| 0 <= j < 4 && 0 <= i < 4 ==> #[trigger] cell(*final(m), j, i)
            == cell(*old(m), i, j),
{
    let t: Matrix = [
        [m[0][0], m[1][0], m[2][0], m[3][0]],
        [m[0][1], m[1][1], m[2][1], m[3][1]],
        [m[0][2], m[1][2], m[2][2], m[3][2]],
        [m[0][3], m[1][3], m[2][3], m[3][3]],
    ];
    *m = t;
}

/// Mirror a matrix horizontally (reverse the order of the rows).
pub fn mirror_h(m: &mut Matrix)
    ensures
        forall|j: int, i: int| 0 <= j < 4 && 0 <= i < 4 ==> #[trigger] cell(*final(m), j, i)
            == cell(*old(m), 3 - j, i),
{
    let t: Matrix = [m[3], m[2], m[1], m[0]];
    *m = t;
}

/// Packed value of the first `k` cells in row-major order, one nibble each.
pub open spec fn pack_upto(m: Matrix, k: int) -> int
    decreases k,
{
    if k <= 0 {
        0
    } else {
        pack_upto(m, k - 1) * 16 + cell(m, (k - 1) / 4, (k - 1) % 4)
    }
}

/// The whole grid packed into 64 bits, one nibble per cell in row-major
/// order, the first cell highest.
pub open spec fn pack_board(m: Matrix) -> int {
    pack_upto(m, 16)
}

/// Convert to u64 id: one nibble per cell in row-major order.
pub fn to_u64(m: &Matrix) -> (res: u64)
    requires
        cells_within(*m, 15),
    ensures
        res == pack_board(*m),
{
    let mut res: u64 = 0;
    for j in 0..4usize
        invariant
            cells_within(*m, 15),
            res == pack_upto(*m, 4 * j),
    {
        for i in 0..4usize
            invariant
                0 <= j < 4,
                cells_within(*m, 15),
                res == pack_upto(*m, 4 * j + i),
        {
            proof {
                let k = 4 * j + i;
                assert(cell(*m, k as int / 4, k as int % 4) == cell(*m, j as int, i as int));
                lemma_pack_upto_bound(*m, k as int);
                lemma_pow16_mono(k as int, 15);
                assert(pow16(15) == 0x1000_0000_0000_0000) by {
                    reveal_with_fuel(pow16, 16);
                }
            }
            res = res * 16 + (m[j][i] as u64);
        }
    }
    res
}

/// `16^k` grows with `k`.
proof fn lemma_pow16_mono(a: int, b: int)
    requires
        a <= b,
    ensures
        pow16(a) <= pow16(b),
    decreases b - a,
{
    if a < b {
        lemma_pow16_mono(a, b - 1);
        lemma_pow16_pos(b - 1);
    }
}

/// The packed value of a nibble grid prefix stays below `16^k`.
proof fn lemma_pack_upto_bound(m: Matrix, k: int)
    requires
        cells_within(m, 15),
        0 <= k <= 16,
    ensures
        0 <= pack_upto(m, k),
        pack_upto(m, k) < pow16(k),
    decreases k,
{
    if k > 0 {
        lemma_pack_upto_bound(m, k - 1);
        assert(cell(m, (k - 1) / 4, (k - 1) % 4) <= 15);
    }
}

/// `16^k`.
pub open spec fn pow16(k: int) -> int
    decreases k,
{
    if k <= 0 {
        1
    } else {
        16 * pow16(k - 1)
    }
}

/// Create array from u64: one nibble per cell, the first cell taken from the
/// lowest nibble (note that `to_u64` reads the cells in the opposite order).
pub fn from_u64(pos: u64) -> (m: Matrix)
    ensures
        forall|j: int, i: int| 0 <= j < 4 && 0 <= i < 4 ==> #[trigger] cell(m, j, i) == (pos as int
            / pow16(4 * j + i)) % 16,
        cells_within(m, 15),
{
    let ghost pos0: u64 = pos;
    let mut m: Matrix = [[0u8; 4]; 4];
    let mut pos = pos;
    for j in 0..4usize
        invariant
            pos == pos0 as int / pow16(4 * j),
            forall|a: int, b: int| 0 <= a < j && 0 <= b < 4 ==> #[trigger] cell(m, a, b) == (
            pos0 as int / pow16(4 * a + b)) % 16,
            forall|a: int, b: int| 0 <= a < 4 && 0 <= b < 4 ==> #[trigger] cell(m, a, b) <= 15,
    {
        for i in 0..4usize
            invariant
                0 <= j < 4,
                pos == pos0 as int / pow16(4 * j + i),
                forall|a: int, b: int| (0 <= a < j && 0 <= b < 4) || (a == j && 0 <= b < i)
                    ==> #[trigger] cell(m, a, b) == (pos0 as int / pow16(4 * a + b)) % 16,
                forall|a: int, b: int| 0 <= a < 4 && 0 <= b < 4 ==> #[trigger] cell(m, a, b) <= 15,
        {
            set_cell(&mut m, j, i, (pos % 16) as u8);
            proof {
                lemma_div_chain(pos0 as int, 4 * j + i);
            }
            pos = pos / 16;
        }
    }
    m
}

/// Dividing by 16 once more steps the power: `(x / 16^k) / 16 == x / 16^(k+1)`.
proof fn lemma_div_chain(x: int, k: int)
    requires
        0 <= x,
        0 <= k,
    ensures
        (x / pow16(k)) / 16 == x / pow16(k + 1),
        pow16(k) > 0,
{
    lemma_pow16_pos(k);
    vstd::arithmetic::div_mod::lemma_div_denominator(x, pow16(k), 16);
}

/// `16^k` is positive.
proof fn lemma_pow16_pos(k: int)
    ensures
        pow16(k) >= 1,
    decreases k,
{
    if k > 0 {
        lemma_pow16_pos(k - 1);
    }
}

/// Convert a row to its u16 id: one nibble per cell, leftmost cell highest.
pub fn to_u16(m: [u8; 4]) -> (res: u16)
    requires
        row_nibbles(m@),
    ensures
        res == pack_row(m@),
{
    (m[0] as u16) * 4096 + (m[1] as u16) * 256 + (m[2] as u16) * 16 + (m[3] as u16)
}

/// Fill a row from its u16 id, leftmost cell from the highest nibble.
pub fn from_u16(m: &mut [u8; 4], pos: u16)
    ensures
        final(m)@ == unpack_row(pos as int),
        row_nibbles(final(m)@),
        pack_row(final(m)@) == pos,
{
    m[0] = (pos / 4096) as u8;
    m[1] = ((pos / 256) % 16) as u8;
    m[2] = ((pos / 16) % 16) as u8;
    m[3] = (pos % 16) as u8;
    proof {
        lemma_pack_unpack(pos as int);
        assert(final(m)@ =~= unpack_row(pos as int));
    }
}

/// Convert a row to its u16 id with the nibbles mirrored: leftmost cell
/// lowest.  Lets the same transition table serve the rightward and downward
/// slides.
pub fn to_u16_rev(m: [u8; 4]) -> (res: u16)
    requires
        row_nibbles(m@),
    ensures
        res == pack_row(rev_row(m@)),
{
    (m[0] as u16) + (m[1] as u16) * 16 + (m[2] as u16) * 256 + (m[3] as u16) * 4096
}

/// Fill a row from its u16 id with the nibbles mirrored: leftmost cell from
/// the lowest nibble.
pub fn from_u16_rev(m: &mut [u8; 4], pos: u16)
    ensures
        final(m)@ == rev_row(unpack_row(pos as int)),
        row_nibbles(final(m)@),
        pack_row(rev_row(final(m)@)) == pos,
{
    m[0] = (pos % 16) as u8;
    m[1] = ((pos / 16) % 16) as u8;
    m[2] = ((pos / 256) % 16) as u8;
    m[3] = (pos / 4096) as u8;
    proof {
        lemma_pack_unpack(pos as int);
        assert(final(m)@ =~= rev_row(unpack_row(pos as int)));
        assert(rev_row(final(m)@) =~= unpack_row(pos as int));
    }
}

/// Packing the unpacked row gives the id back, for any 16-bit id.
pub proof fn lemma_pack_unpack(id: int)
    requires
        0 <= id < 65536,
    ensures
        pack_row(unpack_row(id)) == id,
        row_nibbles(unpack_row(id)),
{
    assert(id / 4096 % 16 * 4096 + id / 256 % 16 * 256 + id / 16 % 16 * 16 + id % 16 == id)
        by (nonlinear_arith)
        requires
            0 <= id < 65536,
    ;
}

/// Row `j` is non-decreasing from left to right.
pub open spec fn row_non_decr(m: Matrix, j: int) -> bool {
    cell(m, j, 0) <= cell(m, j, 1) && cell(m, j, 1) <= cell(m, j, 2) && cell(m, j, 2) <= cell(
        m,
        j,
        3,
    )
}

/// Row `j` is non-increasing from left to right.
pub open spec fn row_non_incr(m: Matrix, j: int) -> bool {
    cell(m, j, 0) >= cell(m, j, 1) && cell(m, j, 1) >= cell(m, j, 2) && cell(m, j, 2) >= cell(
        m,
        j,
        3,
    )
}

/// Column `i` is non-decreasing from top to bottom.
pub open spec fn col_non_decr(m: Matrix, i: int) -> bool {
    cell(m, 0, i) <= cell(m, 1, i) && cell(m, 1, i) <= cell(m, 2, i) && cell(m, 2, i) <= cell(
        m,
        3,
        i,
    )
}

/// Column `i` is non-increasing from top to bottom.
pub open spec fn col_non_incr(m: Matrix, i: int) -> bool {
    cell(m, 0, i) >= cell(m, 1, i) && cell(m, 1, i) >= cell(m, 2, i) && cell(m, 2, i) >= cell(
        m,
        3,
        i,
    )
}

/// A line counts as monotone when it never rises or never falls
/// (a constant line is both).
pub open spec fn row_monotone(m: Matrix, j: int) -> bool {
    row_non_decr(m, j) || row_non_incr(m, j)
}

/// See `row_monotone`.
pub open spec fn col_monotone(m: Matrix, i: int) -> bool {
    col_non_decr(m, i) || col_non_incr(m, i)
}

/// Number of monotone rows among the first `j`.
pub open spec fn mono_rows_upto(m: Matrix, j: int) -> int
    decreases j,
{
    if j <= 0 {
        0
    } else {
        mono_rows_upto(m, j - 1) + if row_monotone(m, j - 1) {
            1int
        } else {
            0int
        }
    }
}

/// Number of monotone columns among the first `i`.
pub open spec fn mono_cols_upto(m: Matrix, i: int) -> int
    decreases i,
{
    if i <= 0 {
        0
    } else {
        mono_cols_upto(m, i - 1) + if col_monotone(m, i - 1) {
            1int
        } else {
            0int
        }
    }
}

/// Number of monotone lines of the grid: the 4 rows and the 4 columns,
/// each counted once, in the range 0..=8.
pub open spec fn monotonicity_spec(m: Matrix) -> int {
    mono_rows_upto(m, 4) + mono_cols_upto(m, 4)
}

/// Count the lines (4 rows plus 4 columns) that are entirely non-decreasing,
/// entirely non-increasing, or constant.
pub fn monotonicity(m: &Matrix) -> (c: i32)
    ensures
        c == monotonicity_spec(*m),
        0 <= c <= 8,
{
    let mut c: u8 = 0;
    for j in 0..4usize
        invariant
            c == mono_rows_upto(*m, j as int),
            c <= j,
    {
        let mut gt: u8 = 0;
        let mut eq: u8 = 0;
        for k in 0..3usize
            invariant
                0 <= j < 4,
                gt <= k,
                eq <= k,
                gt + eq <= k,
                (gt + eq == k) <==> (forall|p: int| 0 <= p < k ==> #[trigger] cell(*m, j as int, p) <= cell(
                    *m,
                    j as int,
                    p + 1,
                )),
                (gt == 0) <==> (forall|p: int| 0 <= p < k ==> #[trigger] cell(*m, j as int, p) >= cell(
                    *m,
                    j as int,
                    p + 1,
                )),
        {
            if m[j][k] < m[j][k + 1] {
                gt = gt + 1;
            }
            if m[j][k] == m[j][k + 1] {
                eq = eq + 1;
            }
            assert(cell(*m, j as int, k as int) == m[j as int][k as int]);
        }
        if gt + eq == 3 || gt == 0 {
            c = c + 1;
        }
    }
    for i in 0..4usize
        invariant
            c == mono_rows_upto(*m, 4) + mono_cols_upto(*m, i as int),
            c <= 4 + i,
    {
        let mut gt: u8 = 0;
        let mut eq: u8 = 0;
        for k in 0..3usize
            invariant
                0 <= i < 4,
                gt <= k,
                eq <= k,
                gt + eq <= k,
                (gt + eq == k) <==> (forall|p: int| 0 <= p < k ==> #[trigger] cell(*m, p, i as int) <= cell(
                    *m,
                    p + 1,
                    i as int,
                )),
                (gt == 0) <==> (forall|p: int| 0 <= p < k ==> #[trigger] cell(*m, p, i as int) >= cell(
                    *m,
                    p + 1,
                    i as int,
                )),
        {
            if m[k][i] < m[k + 1][i] {
                gt = gt + 1;
            }
            if m[k][i] == m[k + 1][i] {
                eq = eq + 1;
            }
            assert(cell(*m, k as int, i as int) == m[k as int][i as int]);
        }
        if gt + eq == 3 || gt == 0 {
            c = c + 1;
        }
    }
    c as i32
}

/// Absolute difference of two cells.
pub open spec fn absdiff(a: u8, b: u8) -> int {
    if a >= b {
        a - b
    } else {
        b - a
    }
}

/// Sum of the absolute differences of the 3 horizontally adjacent pairs
/// of row `j`.
pub open spec fn row_smooth(m: Matrix, j: int) -> int {
    absdiff(cell(m, j, 0), cell(m, j, 1)) + absdiff(cell(m, j, 1), cell(m, j, 2)) + absdiff(
        cell(m, j, 2),
        cell(m, j, 3),
    )
}

/// Sum of the absolute differences of the 3 vertically adjacent pairs
/// of column `i`.
pub open spec fn col_smooth(m: Matrix, i: int) -> int {
    absdiff(cell(m, 0, i), cell(m, 1, i)) + absdiff(cell(m, 1, i), cell(m, 2, i)) + absdiff(
        cell(m, 2, i),
        cell(m, 3, i),
    )
}

/// Smoothness of the first `j` rows.
pub open spec fn smooth_rows_upto(m: Matrix, j: int) -> int
    decreases j,
{
    if j <= 0 {
        0
    } else {
        smooth_rows_upto(m, j - 1) + row_smooth(m, j - 1)
    }
}

/// Smoothness of the first `i` columns.
pub open spec fn smooth_cols_upto(m: Matrix, i: int) -> int
    decreases i,
{
    if i <= 0 {
        0
    } else {
        smooth_cols_upto(m, i - 1) + col_smooth(m, i - 1)
    }
}

/// Sum of the absolute differences of every horizontally or vertically
/// adjacent pair of cells.
pub open spec fn smoothness_spec(m: Matrix) -> int {
    smooth_rows_upto(m, 4) + smooth_cols_upto(m, 4)
}

/// Absolute difference of two cells.
fn abs_diff(a: u8, b: u8) -> (d: u8)
    ensures
        d == absdiff(a, b),
{
    if a >= b {
        a - b
    } else {
        b - a
    }
}

/// Sum of absolute value of the difference between every pair of adjacent
/// cells, horizontally and vertically.
pub fn smoothness(m: &Matrix) -> (c: i32)
    ensures
        c == smoothness_spec(*m),
        0 <= c <= 6120,
{
    let mut c: i32 = 0;
    for j in 0..4usize
        invariant
            c == smooth_rows_upto(*m, j as int),
            0 <= c <= 765 * j,
    {
        c = c + (abs_diff(m[j][0], m[j][1]) as i32);
        c = c + (abs_diff(m[j][1], m[j][2]) as i32);
        c = c + (abs_diff(m[j][2], m[j][3]) as i32);
    }
    for i in 0..4usize
        invariant
            c == smooth_rows_upto(*m, 4) + smooth_cols_upto(*m, i as int),
            0 <= c <= 3060 + 765 * i,
    {
        c = c + (abs_diff(m[0][i], m[1][i]) as i32);
        c = c + (abs_diff(m[1][i], m[2][i]) as i32);
        c = c + (abs_diff(m[2][i], m[3][i]) as i32);
    }
    c
}

/// The fixed positional weight of the cell at row `j`, column `i`: biased
/// toward the upper-left corner in a serpentine pattern.
pub open spec fn snake_coeff(j: int, i: int) -> int {
    if j == 0 {
        if i == 0 {
            140
        } else if i == 1 {
            120
        } else if i == 2 {
            110
        } else {
            115
        }
    } else if j == 1 {
        if i == 0 {
            45
        } else if i == 1 {
            47
        } else if i == 2 {
            50
        } else {
            70
        }
    } else if j == 2 {
        if i == 0 {
            35
        } else if i == 1 {
            25
        } else if i == 2 {
            22
        } else {
            20
        }
    } else {
        if i == 0 {
            2
        } else if i == 1 {
            3
        } else if i == 2 {
            5
        } else {
            10
        }
    }
}

/// Dot product of the first `i` cells of row `j` with the first `i` weights
/// of snake row `sj`.
pub open spec fn snake_dot_upto(m: Matrix, j: int, sj: int, i: int) -> int
    decreases i,
{
    if i <= 0 {
        0
    } else {
        snake_dot_upto(m, j, sj, i - 1) + cell(m, j, i - 1) * snake_coeff(sj, i - 1)
    }
}

/// Sum over the first `j` rows of their dot products with snake row `sj`.
pub open spec fn snake_rows_upto(m: Matrix, sj: int, j: int) -> int
    decreases j,
{
    if j <= 0 {
        0
    } else {
        snake_rows_upto(m, sj, j - 1) + snake_dot_upto(m, j - 1, sj, 4)
    }
}

/// Sum over the first `sj` snake rows of their products with every grid row.
pub open spec fn snake_upto(m: Matrix, sj: int) -> int
    decreases sj,
{
    if sj <= 0 {
        0
    } else {
        snake_upto(m, sj - 1) + snake_rows_upto(m, sj - 1, 4)
    }
}

/// Sum, over every pair of a snake weight row and a grid row, of their
/// dot product.  Note that pairing every weight row with every grid row
/// makes the result insensitive to which row a cell stands in: only the
/// column positions weigh (each column is effectively weighted by the sum
/// of its four snake coefficients).
pub open spec fn snakeiness_spec(m: Matrix) -> int {
    snake_upto(m, 4)
}

/// The positional weight of the cell at row `j`, column `i`.
fn snake_coeff_at(j: usize, i: usize) -> (w: i32)
    requires
        j < 4,
        i < 4,
    ensures
        w == snake_coeff(j as int, i as int),
        2 <= w <= 140,
{
    let row: [i32; 4] = if j == 0 {
        [140, 120, 110, 115]
    } else if j == 1 {
        [45, 47, 50, 70]
    } else if j == 2 {
        [35, 25, 22, 20]
    } else {
        [2, 3, 5, 10]
    };
    row[i]
}

/// Weight the grid cells with the serpentine positional matrix: the sum of
/// the dot products of every grid row with every weight row (see
/// `snakeiness_spec`: the weighting is row-insensitive).
pub fn snakeiness(m: &Matrix) -> (c: i32)
    ensures
        c == snakeiness_spec(*m),
        0 <= c <= 2284800,
{
    let mut c: i32 = 0;
    for sj in 0..4usize
        invariant
            c == snake_upto(*m, sj as int),
            0 <= c <= 571200 * sj,
    {
        for j in 0..4usize
            invariant
                0 <= sj < 4,
                c == snake_upto(*m, sj as int) + snake_rows_upto(*m, sj as int, j as int),
                0 <= c <= 571200 * sj + 142800 * j,
        {
            for i in 0..4usize
                invariant
                    0 <= sj < 4,
                    0 <= j < 4,
                    c == snake_upto(*m, sj as int) + snake_rows_upto(*m, sj as int, j as int)
                        + snake_dot_upto(*m, j as int, sj as int, i as int),
                    0 <= c <= 571200 * sj + 142800 * j + 35700 * i,
            {
                let w = snake_coeff_at(sj, i);
                let v = m[j][i];
                proof {
                    assert(0 <= (v as int) * (w as int) <= 35700) by (nonlinear_arith)
                        requires
                            0 <= v <= 255,
                            2 <= w <= 140,
                    ;
                }
                c = c + (v as i32) * w;
            }
        }
    }
    c
}

/// Sum of the first `k` cells in row-major order.
pub open spec fn sum_upto(m: Matrix, k: int) -> int
    decreases k,
{
    if k <= 0 {
        0
    } else {
        sum_upto(m, k - 1) + cell(m, (k - 1) / 4, (k - 1) % 4)
    }
}

/// Sum of all cells.
pub open spec fn cell_sum(m: Matrix) -> int {
    sum_upto(m, 16)
}

/// Sum over the first `k` cells of `(16 * cell - cell_sum)^2`; 256 times the
/// squared deviation of those cells from the grid average.
pub open spec fn sqdev_upto(m: Matrix, k: int) -> int
    decreases k,
{
    if k <= 0 {
        0
    } else {
        let d = 16 * cell(m, (k - 1) / 4, (k - 1) % 4) - cell_sum(m);
        sqdev_upto(m, k - 1) + d * d
    }
}

/// 256 times the squared deviation of all cells from the grid average.
pub open spec fn sqdev_sum(m: Matrix) -> int {
    sqdev_upto(m, 16)
}

/// Largest `r` with `r * r <= n` (and `0` for negative `n`).
pub open spec fn spec_isqrt(n: int) -> int
    decreases n,
{
    if n <= 0 {
        0
    } else {
        let r = spec_isqrt(n - 1);
        if (r + 1) * (r + 1) <= n {
            r + 1
        } else {
            r
        }
    }
}

/// `spec_isqrt(n)` squares to at most `n`, and is the largest such number.
pub proof fn lemma_isqrt_bounds(n: int)
    requires
        0 <= n,
    ensures
        0 <= spec_isqrt(n),
        spec_isqrt(n) * spec_isqrt(n) <= n,
        n < (spec_isqrt(n) + 1) * (spec_isqrt(n) + 1),
    decreases n,
{
    if n > 0 {
        lemma_isqrt_bounds(n - 1);
        let r = spec_isqrt(n - 1);
        assert((r + 1) * (r + 1) + 1 <= (r + 2) * (r + 2)) by (nonlinear_arith)
            requires
                r >= 0,
        ;
    }
}

/// Any `r` with `r * r <= n < (r + 1) * (r + 1)` is `spec_isqrt(n)`.
pub proof fn lemma_isqrt_unique(n: int, r: int)
    requires
        0 <= r,
        r * r <= n,
        n < (r + 1) * (r + 1),
    ensures
        r == spec_isqrt(n),
{
    lemma_isqrt_bounds(n);
    let s = spec_isqrt(n);
    if r < s {
        assert((r + 1) * (r + 1) <= s * s) by (nonlinear_arith)
            requires
                0 <= r,
                r + 1 <= s,
        ;
    }
    if s < r {
        assert((s + 1) * (s + 1) <= r * r) by (nonlinear_arith)
            requires
                0 <= s,
                s + 1 <= r,
        ;
    }
}

/// Integer square root by bisection.
fn isqrt(n: u64) -> (r: u64)
    ensures
        r == spec_isqrt(n as int),
{
    let mut lo: u64 = 0;
    let mut hi: u64 = 4294967296;
    assert((hi as int) * (hi as int) > n) by (nonlinear_arith)
        requires
            hi == 4294967296,
            n < 0x1_0000_0000_0000_0000,
    ;
    while hi - lo > 1
        invariant
            lo < hi <= 4294967296,
            lo * lo <= n,
            (hi as int) * (hi as int) > n,
        decreases hi - lo,
    {
        let mid = lo + (hi - lo) / 2;
        assert((mid as int) * (mid as int) < 0x1_0000_0000_0000_0000) by (nonlinear_arith)
            requires
                0 <= mid <= 4294967295,
        ;
        if mid * mid <= n {
            lo = mid;
        } else {
            hi = mid;
        }
    }
    proof {
        lemma_isqrt_unique(n as int, lo as int);
    }
    lo
}

/// The deviation heuristic: the integer part of 29000 times the population
/// standard deviation of the 16 cell values.
pub open spec fn std_dev_spec(m: Matrix) -> int {
    spec_isqrt(841000000 * sqdev_sum(m)) / 16
}

/// 29000 times the standard deviation of the cell values, rounded down.
pub fn std_dev(m: &Matrix) -> (r: i32)
    ensures
        r == std_dev_spec(*m),
        0 <= r <= 29580000,
{
    let mut s: u32 = 0;
    for j in 0..4usize
        invariant
            s == sum_upto(*m, 4 * j),
            s <= 1020 * j,
    {
        for i in 0..4usize
            invariant
                0 <= j < 4,
                s == sum_upto(*m, 4 * j + i),
                s <= 1020 * j + 255 * i,
        {
            proof {
                let k = 4 * j + i;
                assert(cell(*m, k as int / 4, k as int % 4) == cell(*m, j as int, i as int));
            }
            s = s + (m[j][i] as u32);
        }
    }
    assert(s == cell_sum(*m));
    let mut w: u64 = 0;
    for j in 0..4usize
        invariant
            s == cell_sum(*m),
            s <= 4080,
            w == sqdev_upto(*m, 4 * j),
            w <= 66585600 * j,
    {
        for i in 0..4usize
            invariant
                0 <= j < 4,
                s == cell_sum(*m),
                s <= 4080,
                w == sqdev_upto(*m, 4 * j + i),
                w <= 66585600 * j + 16646400 * i,
        {
            proof {
                let k = 4 * j + i;
                assert(cell(*m, k as int / 4, k as int % 4) == cell(*m, j as int, i as int));
            }
            let d: i64 = 16 * (m[j][i] as i64) - (s as i64);
            assert(d * d <= 16646400) by (nonlinear_arith)
                requires
                    -4080 <= d <= 4080,
            ;
            assert(d * d >= 0) by (nonlinear_arith);
            w = w + ((d * d) as u64);
        }
    }
    let k: u64 = 841000000 * w;
    let rt = isqrt(k);
    proof {
        lemma_isqrt_bounds(k as int);
        let s = spec_isqrt(k as int);
        assert(s * s <= 223993958400000000);
        assert(s <= 473280000) by (nonlinear_arith)
            requires
                s >= 0,
                s * s <= 223993958400000000,
        ;
    }
    (rt / 16) as i32
}

/// Unpacking the packed row gives the row back, for any row of nibbles.
pub proof fn lemma_unpack_pack(r: Seq<u8>)
    requires
        r.len() == 4,
        row_nibbles(r),
    ensures
        unpack_row(pack_row(r)) == r,
        0 <= pack_row(r) < 65536,
{
    let a = r[0] as int;
    let b = r[1] as int;
    let c = r[2] as int;
    let d = r[3] as int;
    let id = pack_row(r);
    assert((a * 4096 + b * 256 + c * 16 + d) / 4096 % 16 == a && (a * 4096 + b * 256 + c * 16 + d)
        / 256 % 16 == b && (a * 4096 + b * 256 + c * 16 + d) / 16 % 16 == c && (a * 4096 + b * 256
        + c * 16 + d) % 16 == d) by (nonlinear_arith)
        requires
            0 <= a <= 15,
            0 <= b <= 15,
            0 <= c <= 15,
            0 <= d <= 15,
    ;
    assert(unpack_row(pack_row(r)) =~= r);
}

} // verus!
