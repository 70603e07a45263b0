//! The row transition: sliding one 4-cell line leftward, and the precomputed
//! table mapping every possible line to its slide result and merge score,
//! together with the table's compact binary encoding.

use crate::matrix;
use crate::matrix::{pack_row, row_nibbles, unpack_row};
use vstd::prelude::*;

verus! {

/// `2^e` (and `1` for negative `e`).
pub open spec fn pow2int(e: int) -> int
    decreases e,
{
    if e <= 0 {
        1
    } else {
        2 * pow2int(e - 1)
    }
}

/// The nonzero cells of `s`, in order.
pub open spec fn compact(s: Seq<u8>) -> Seq<u8>
    decreases s.len(),
{
    if s.len() == 0 {
        Seq::empty()
    } else if s[0] == 0 {
        compact(s.skip(1))
    } else {
        seq![s[0]] + compact(s.skip(1))
    }
}

/// Greedy left-to-right merge: each adjacent equal pair becomes one cell one
/// exponent higher, and a merged cell never merges again in the same slide.
pub open spec fn merge_row(s: Seq<u8>) -> Seq<u8>
    decreases s.len(),
{
    if s.len() <= 1 {
        s
    } else if s[0] == s[1] {
        seq![(s[0] + 1) as u8] + merge_row(s.skip(2))
    } else {
        seq![s[0]] + merge_row(s.skip(1))
    }
}

/// The score gained by `merge_row`: the displayed value `2^(e+1)` of every
/// merged pair of `e` cells.
pub open spec fn merge_score(s: Seq<u8>) -> int
    decreases s.len(),
{
    if s.len() <= 1 {
        0
    } else if s[0] == s[1] {
        pow2int(s[0] + 1) + merge_score(s.skip(2))
    } else {
        merge_score(s.skip(1))
    }
}

/// `n` zero cells.
pub open spec fn zero_pad(n: int) -> Seq<u8> {
    Seq::new(n as nat, |i: int| 0u8)
}

/// The result of sliding a 4-cell line leftward: compact the nonzero cells
/// against the left edge, merge adjacent equal pairs once each, and pad with
/// zeros on the right.
pub open spec fn slide_row(s: Seq<u8>) -> Seq<u8> {
    let c = merge_row(compact(s));
    c + zero_pad(4 - c.len())
}

/// The score gained by sliding `s` leftward once.
pub open spec fn slide_score(s: Seq<u8>) -> int {
    merge_score(compact(s))
}

/// The slide moves or merges at least one cell.
pub open spec fn slide_changes(s: Seq<u8>) -> bool {
    slide_row(s) != s
}

/// The slide result is representable in nibbles: no merge reached past
/// exponent 15.  Rows that fail this are excluded from the transition table.
pub open spec fn slide_ok(s: Seq<u8>) -> bool {
    row_nibbles(slide_row(s))
}

/// Appending a cell compacts to the compaction plus the cell if it is
/// nonzero.
proof fn lemma_compact_push(s: Seq<u8>, x: u8)
    ensures
        compact(s.push(x)) == if x == 0 {
            compact(s)
        } else {
            compact(s).push(x)
        },
    decreases s.len(),
{
    if s.len() == 0 {
        assert(s.push(x)[0] == x);
        if x == 0 {
            assert(s.push(x).skip(1) =~= s);
            assert(compact(s.push(x)) == compact(s));
        } else {
            assert(compact(s.push(x).skip(1)) =~= Seq::<u8>::empty());
            assert(compact(s.push(x)) =~= compact(s).push(x));
        }
    } else {
        lemma_compact_push(s.skip(1), x);
        assert(s.push(x).skip(1) =~= s.skip(1).push(x));
        assert(s.push(x)[0] == s[0]);
        if s[0] == 0 {
            assert(compact(s.push(x)) == compact(s.skip(1).push(x)));
        } else {
            if x == 0 {
                assert(compact(s.push(x)) == compact(s));
            } else {
                assert(compact(s.push(x)) =~= compact(s).push(x));
            }
        }
    }
}

/// The compaction keeps at most as many cells, all nonzero, all within the
/// bound of the input cells.
proof fn lemma_compact_props(s: Seq<u8>, bound: u8)
    requires
        forall|k: int| 0 <= k < s.len() ==> #[trigger] s[k] <= bound,
    ensures
        compact(s).len() <= s.len(),
        forall|p: int| 0 <= p < compact(s).len() ==> 1 <= #[trigger] compact(s)[p] <= bound,
    decreases s.len(),
{
    if s.len() > 0 {
        assert(forall|k: int| 0 <= k < s.skip(1).len() ==> #[trigger] s.skip(1)[k] <= bound);
        lemma_compact_props(s.skip(1), bound);
    }
}

/// The merged row keeps at most as many cells, all nonzero, each at most one
/// above the bound of the input cells.
proof fn lemma_merge_props(c: Seq<u8>, bound: u8)
    requires
        bound <= 100,
        forall|k: int| 0 <= k < c.len() ==> 1 <= #[trigger] c[k] <= bound,
    ensures
        merge_row(c).len() <= c.len(),
        forall|p: int| 0 <= p < merge_row(c).len() ==> 1 <= #[trigger] merge_row(c)[p] <= bound
            + 1,
    decreases c.len(),
{
    if c.len() <= 1 {
    } else if c[0] == c[1] {
        assert(forall|k: int| 0 <= k < c.skip(2).len() ==> 1 <= #[trigger] c.skip(2)[k] <= bound);
        lemma_merge_props(c.skip(2), bound);
    } else {
        assert(forall|k: int| 0 <= k < c.skip(1).len() ==> 1 <= #[trigger] c.skip(1)[k] <= bound);
        lemma_merge_props(c.skip(1), bound);
    }
}

/// `2^e` grows with `e`.
pub proof fn lemma_pow2_mono(a: int, b: int)
    requires
        a <= b,
    ensures
        1 <= pow2int(a) <= pow2int(b),
    decreases b - a,
{
    if a < b {
        lemma_pow2_mono(a, b - 1);
    } else {
        lemma_pow2_pos(a);
    }
}

/// `2^e` is positive.
proof fn lemma_pow2_pos(e: int)
    ensures
        pow2int(e) >= 1,
    decreases e,
{
    if e > 0 {
        lemma_pow2_pos(e - 1);
    }
}

/// When every merged cell stays a nibble, each merge scores at most `2^15`
/// and the whole line at most `2^16`.
proof fn lemma_merge_score_bound(c: Seq<u8>)
    requires
        forall|k: int| 0 <= k < c.len() ==> 1 <= #[trigger] c[k] <= 15,
        row_nibbles(merge_row(c)),
    ensures
        0 <= merge_score(c) <= 32768 * (c.len() / 2),
    decreases c.len(),
{
    if c.len() <= 1 {
    } else if c[0] == c[1] {
        let v = (c[0] + 1) as u8;
        assert(merge_row(c)[0] == v);
        assert(v <= 15);
        assert(pow2int(15) == 32768) by {
            reveal_with_fuel(pow2int, 16);
        }
        lemma_pow2_mono(v as int, 15);
        assert(forall|p: int| 0 <= p < merge_row(c.skip(2)).len() ==> #[trigger] merge_row(
            c.skip(2),
        )[p] == merge_row(c)[p + 1]);
        assert(forall|k: int| 0 <= k < c.skip(2).len() ==> 1 <= #[trigger] c.skip(2)[k] <= 15);
        lemma_merge_score_bound(c.skip(2));
        assert(merge_score(c) == pow2int(c[0] + 1) + merge_score(c.skip(2)));
        assert(c.len() / 2 == 1 + c.skip(2).len() / 2);
    } else {
        assert(forall|p: int| 0 <= p < merge_row(c.skip(1)).len() ==> #[trigger] merge_row(
            c.skip(1),
        )[p] == merge_row(c)[p + 1]);
        assert(forall|k: int| 0 <= k < c.skip(1).len() ==> 1 <= #[trigger] c.skip(1)[k] <= 15);
        lemma_merge_score_bound(c.skip(1));
        assert(c.skip(1).len() / 2 <= c.len() / 2);
    }
}

/// `2^e` for `e` up to 16.
fn pow2u32(e: u8) -> (r: u32)
    requires
        e <= 16,
    ensures
        r == pow2int(e as int),
{
    let mut r: u32 = 1;
    for k in 0..e
        invariant
            e <= 16,
            r == pow2int(k as int),
            r <= 65536,
    {
        proof {
            lemma_pow2_mono(k as int + 1, 16);
            assert(pow2int(16) == 65536) by {
                reveal_with_fuel(pow2int, 17);
            }
        }
        r = r * 2;
    }
    r
}

/// Slide one 4-cell line leftward.  Returns the slid line, the merge score,
/// and whether anything moved or merged.
pub(crate) fn slide_line(m: [u8; 4]) -> (res: ([u8; 4], u32, bool))
    requires
        row_nibbles(m@),
    ensures
        res.0@ == slide_row(m@),
        res.1 == slide_score(m@),
        res.2 == slide_changes(m@),
        forall|p: int| 0 <= p < 4 ==> #[trigger] res.0@[p] <= 16,
{
    let mut buf: [u8; 4] = [0u8; 4];
    let mut n: usize = 0;
    for k in 0..4usize
        invariant
            n <= k <= 4,
            row_nibbles(m@),
            buf@.take(n as int) == compact(m@.take(k as int)),
    {
        proof {
            lemma_compact_push(m@.take(k as int), m@[k as int]);
            assert(m@.take(k as int).push(m@[k as int]) =~= m@.take(k + 1 as int));
            lemma_compact_props(m@.take(k as int), 15);
        }
        if m[k] != 0 {
            matrix::set_row_cell(&mut buf, n, m[k]);
            assert(buf@.take(n + 1 as int) =~= compact(m@.take(k as int)).push(m@[k as int]));
            n = n + 1;
        } else {
            assert(buf@.take(n as int) =~= compact(m@.take(k as int)));
        }
    }
    assert(m@.take(4) =~= m@);
    let ghost c = compact(m@);
    proof {
        lemma_compact_props(m@, 15);
    }
    let mut out: [u8; 4] = [0u8; 4];
    let mut on: usize = 0;
    let mut score: u32 = 0;
    let mut k: usize = 0;
    proof {
        assert(c.subrange(0, n as int) =~= c);
        assert(out@.take(0) + merge_row(c) =~= merge_row(c));
    }
    while k < n
        invariant
            k <= n,
            n <= 4,
            on <= k,
            buf@.take(n as int) == c,
            c.len() == n,
            forall|p: int| 0 <= p < n ==> 1 <= #[trigger] c[p] <= 15,
            merge_row(c) == out@.take(on as int) + merge_row(c.subrange(k as int, n as int)),
            merge_score(c) == score + merge_score(c.subrange(k as int, n as int)),
            forall|p: int| on <= p < 4 ==> #[trigger] out@[p] == 0,
            forall|p: int| 0 <= p < on ==> 1 <= #[trigger] out@[p] <= 16,
            score <= 32768 * k,
        decreases n - k,
    {
        let ghost rest = c.subrange(k as int, n as int);
        assert(buf@[k as int] == c[k as int]);
        if k + 1 < n && buf[k] == buf[k + 1] {
            assert(buf@[k + 1 as int] == c[k + 1 as int]);
            assert(rest[0] == c[k as int] && rest[1] == c[k + 1 as int]);
            let v = buf[k] + 1;
            matrix::set_row_cell(&mut out, on, v);
            proof {
                lemma_pow2_mono(v as int, 16);
                assert(pow2int(16) == 65536) by {
                    reveal_with_fuel(pow2int, 17);
                }
            }
            score = score + pow2u32(v);
            proof {
                assert(merge_row(rest) == seq![v] + merge_row(rest.skip(2)));
                assert(merge_score(rest) == pow2int(v as int) + merge_score(rest.skip(2)));
                assert(rest.skip(2) =~= c.subrange(k + 2 as int, n as int));
                assert(out@.take(on + 1 as int) =~= out@.take(on as int).push(v));
                assert(out@.take(on as int).push(v) + merge_row(c.subrange(k + 2 as int, n as int))
                    =~= out@.take(on as int) + merge_row(rest));
            }
            k = k + 2;
            on = on + 1;
        } else {
            let v = buf[k];
            matrix::set_row_cell(&mut out, on, v);
            proof {
                if k + 1 < n {
                    assert(rest[0] != rest[1]);
                    assert(merge_row(rest) == seq![v] + merge_row(rest.skip(1)));
                    assert(merge_score(rest) == merge_score(rest.skip(1)));
                } else {
                    assert(rest.len() == 1);
                    assert(merge_row(rest) == rest);
                    assert(rest =~= seq![v] + merge_row(rest.skip(1)));
                    assert(merge_row(rest) == seq![v] + merge_row(rest.skip(1)));
                    assert(merge_score(rest) == 0 && merge_score(rest.skip(1)) == 0);
                }
                assert(rest.skip(1) =~= c.subrange(k + 1 as int, n as int));
                assert(out@.take(on + 1 as int) =~= out@.take(on as int).push(v));
                assert(out@.take(on as int).push(v) + merge_row(c.subrange(k + 1 as int, n as int))
                    =~= out@.take(on as int) + merge_row(rest));
            }
            k = k + 1;
            on = on + 1;
        }
    }
    proof {
        assert(c.subrange(n as int, n as int) =~= Seq::<u8>::empty());
        assert(merge_row(c.subrange(n as int, n as int)) =~= Seq::<u8>::empty());
        assert(merge_row(c) =~= out@.take(on as int));
        assert(out@ =~= merge_row(c) + zero_pad(4 - merge_row(c).len()));
        assert(out@ == slide_row(m@));
    }
    let changed = !(out[0] == m[0] && out[1] == m[1] && out[2] == m[2] && out[3] == m[3]);
    proof {
        if out@[0] == m@[0] && out@[1] == m@[1] && out@[2] == m@[2] && out@[3] == m@[3] {
            assert(out@ =~= m@);
        }
    }
    (out, score, changed)
}

/// One entry of the row transition table.
#[derive(Debug, Clone, Copy, PartialEq, Eq, Structural)]
pub struct SlideLine {
    /// The packed slid row; `0` marks a row the slide leaves unchanged.
    pub line: u16,
    /// The merge score, biased down by one so that a real score of zero and
    /// "no entry" stay distinguishable.
    pub score: u16,
}

/// The biased score stored for a changed row: the raw merge score minus one,
/// zero kept zero.
pub open spec fn biased_score(s: Seq<u8>) -> int {
    if slide_score(s) == 0 {
        0
    } else {
        slide_score(s) - 1
    }
}

/// The table entry for row `s`: the packed slide result and biased score
/// where the slide changes the row and keeps every cell a nibble, the zero
/// sentinel otherwise.
pub open spec fn entry_for(s: Seq<u8>) -> SlideLine {
    if slide_changes(s) && slide_ok(s) {
        SlideLine { line: pack_row(slide_row(s)) as u16, score: biased_score(s) as u16 }
    } else {
        SlideLine { line: 0, score: 0 }
    }
}

/// All zeros compact to the empty row.
proof fn lemma_compact_zeros(s: Seq<u8>)
    requires
        forall|k: int| 0 <= k < s.len() ==> #[trigger] s[k] == 0,
    ensures
        compact(s).len() == 0,
    decreases s.len(),
{
    if s.len() > 0 {
        assert(forall|k: int| 0 <= k < s.skip(1).len() ==> #[trigger] s.skip(1)[k] == 0);
        lemma_compact_zeros(s.skip(1));
    }
}

/// For a changed representable row, the stored fields fit in 16 bits and the
/// packed result is nonzero, so `0` can serve as the "unchanged" sentinel.
pub proof fn lemma_entry_fits(s: Seq<u8>)
    requires
        s.len() == 4,
        row_nibbles(s),
        slide_changes(s),
        slide_ok(s),
    ensures
        0 < pack_row(slide_row(s)) < 65536,
        0 <= biased_score(s) < 65536,
{
    lemma_compact_props(s, 15);
    let c = compact(s);
    lemma_merge_props(c, 15);
    let r = merge_row(c);
    if c.len() == 0 {
        assert(slide_row(s) =~= zero_pad(4));
        assert forall|k: int| 0 <= k < 4 implies s[k] == 0 by {
            if s[k] != 0 {
                lemma_compact_nonzero_cell(s, k);
            }
        }
        assert(slide_row(s) =~= s);
        assert(false);
    }
    assert(r.len() >= 1 && 1 <= r[0] <= 16);
    assert(slide_row(s)[0] == r[0]);
    assert(r[0] <= 15);
    matrix::lemma_unpack_pack(slide_row(s));
    assert(pack_row(slide_row(s)) >= slide_row(s)[0] * 4096);
    assert forall|p: int| 0 <= p < r.len() implies 1 <= #[trigger] r[p] <= 15 by {
        assert(slide_row(s)[p] == r[p]);
    }
    lemma_merge_score_bound(c);
}

/// A row with a nonzero cell does not compact to the empty row.
proof fn lemma_compact_nonzero_cell(s: Seq<u8>, k: int)
    requires
        0 <= k < s.len(),
        s[k] != 0,
    ensures
        compact(s).len() > 0,
    decreases s.len(),
{
    if s[0] == 0 {
        assert(s.skip(1)[k - 1] == s[k]);
        lemma_compact_nonzero_cell(s.skip(1), k - 1);
    }
}

/// Build the table entry from a slid line: `None` for a line the slide left
/// unchanged; the score is stored biased down by one.
pub(crate) fn return_if_moved(moved: bool, m: [u8; 4], score: u32) -> (res: Option<SlideLine>)
    requires
        row_nibbles(m@),
        score <= 65536,
    ensures
        res == if moved {
            Some(
                SlideLine {
                    line: pack_row(m@) as u16,
                    score: (if score == 0 {
                        0int
                    } else {
                        score - 1
                    }) as u16,
                },
            )
        } else {
            None::<SlideLine>
        },
{
    if moved {
        proof {
            matrix::lemma_unpack_pack(m@);
        }
        let line = crate::matrix::to_u16(m);
        Some(
            SlideLine {
                line,
                score: if score == 0 {
                    0
                } else {
                    (score - 1) as u16
                },
            },
        )
    } else {
        None
    }
}

/// Slide one line and build its table entry: `None` when the slide leaves
/// the line unchanged, or when a merge would pass exponent 15 (such rows are
/// excluded from the table).
pub fn slide_array(m: [u8; 4]) -> (res: Option<SlideLine>)
    requires
        row_nibbles(m@),
    ensures
        res == if slide_changes(m@) && slide_ok(m@) {
            Some(entry_for(m@))
        } else {
            None::<SlideLine>
        },
        res is Some ==> res->Some_0.line != 0,
{
    let (out, score, moved) = slide_line(m);
    if !moved {
        return None;
    }
    if out[0] > 15 || out[1] > 15 || out[2] > 15 || out[3] > 15 {
        assert(!slide_ok(m@));
        return None;
    }
    assert(row_nibbles(out@));
    proof {
        lemma_entry_fits(m@);
        lemma_compact_props(m@, 15);
        lemma_merge_score_bound(compact(m@));
    }
    return_if_moved(moved, out, score)
}

/// The slide of a stable row (nonzero cells packed against the left edge, no
/// two adjacent cells equal) returns it unchanged: no cell moves or merges.
pub open spec fn row_stable(s: Seq<u8>) -> bool {
    (forall|k: int| 0 <= k < s.len() - 1 ==> (#[trigger] s[k] == 0 ==> s[k + 1] == 0)) && (forall|
        k: int,
    |
        0 <= k < s.len() - 1 ==> (#[trigger] s[k] != 0 ==> s[k] != s[k + 1]))
}

/// In a stable row, everything after a zero cell is zero.
proof fn lemma_stable_zero_prefix(s: Seq<u8>)
    requires
        row_stable(s),
        s.len() > 0,
        s[0] == 0,
    ensures
        forall|k: int| 0 <= k < s.len() ==> #[trigger] s[k] == 0,
    decreases s.len(),
{
    if s.len() > 1 {
        assert(s[1] == 0);
        assert(row_stable(s.skip(1)));
        lemma_stable_zero_prefix(s.skip(1));
        assert forall|k: int| 0 <= k < s.len() implies #[trigger] s[k] == 0 by {
            if k > 0 {
                assert(s.skip(1)[k - 1] == 0);
            }
        }
    }
}

/// Compacting and merging a stable row rebuilds the row itself.
#[verifier::rlimit(60)]
proof fn lemma_stable_general(s: Seq<u8>)
    requires
        row_stable(s),
    ensures
        merge_row(compact(s)).len() <= s.len(),
        merge_row(compact(s)) + zero_pad(s.len() - merge_row(compact(s)).len()) =~= s,
    decreases s.len(),
{
    if s.len() == 0 {
        assert(compact(s).len() == 0);
        assert(merge_row(compact(s)) + zero_pad(0) =~= s);
    } else if s[0] == 0 {
        lemma_stable_zero_prefix(s);
        lemma_compact_zeros(s);
        assert(merge_row(compact(s)).len() == 0);
        assert(merge_row(compact(s)) + zero_pad(s.len() as int) =~= s);
    } else {
        assert(row_stable(s.skip(1)));
        lemma_stable_general(s.skip(1));
        let rest = compact(s.skip(1));
        assert(compact(s) == seq![s[0]] + rest);
        let mr = merge_row(rest);
        if rest.len() == 0 {
            assert(compact(s) =~= seq![s[0]]);
            assert(merge_row(compact(s)) == compact(s));
            assert(merge_row(compact(s)) + zero_pad(s.len() - 1) =~= s);
        } else {
            // the first compacted cell of the tail differs from s[0]
            assert(mr + zero_pad(s.skip(1).len() - mr.len()) =~= s.skip(1));
            assert(compact(s)[0] == s[0] && compact(s)[1] == rest[0]);
            if s[1] == 0 {
                lemma_stable_zero_prefix(s.skip(1));
                lemma_compact_zeros(s.skip(1));
                assert(false);
            }
            assert(rest[0] == s[1]) by {
                assert(s.skip(1)[0] == s[1]);
                assert(compact(s.skip(1))[0] == s.skip(1)[0]);
            }
            assert(s[0] != rest[0]);
            assert((seq![s[0]] + rest).skip(1) =~= rest);
            assert(merge_row(compact(s)) == seq![s[0]] + merge_row(rest));
            let full = merge_row(compact(s));
            assert(full.len() == 1 + mr.len());
            let padded = full + zero_pad(s.len() - full.len());
            assert(padded.len() == s.len());
            let tail = mr + zero_pad(s.skip(1).len() - mr.len());
            assert forall|p: int| 0 <= p < s.len() implies padded[p] == s[p] by {
                if p == 0 {
                    assert(padded[0] == s[0]);
                } else {
                    assert(tail[p - 1] == s.skip(1)[p - 1]);
                    assert(s.skip(1)[p - 1] == s[p]);
                    if p - 1 < mr.len() {
                        assert(padded[p] == mr[p - 1]);
                        assert(tail[p - 1] == mr[p - 1]);
                    } else {
                        assert(padded[p] == 0);
                        assert(tail[p - 1] == 0);
                    }
                }
            }
            assert(padded =~= s);
        }
    }
}

/// Sliding a row that is already fully compacted and non-mergeable leaves it
/// unchanged, and the slide reports that nothing moved.
pub proof fn lemma_slide_stable(s: Seq<u8>)
    requires
        s.len() == 4,
        row_stable(s),
    ensures
        slide_row(s) == s,
        !slide_changes(s),
{
    lemma_stable_general(s);
    assert(slide_row(s) =~= s);
}

/// The precomputed row transition table: one entry per possible packed row.
pub struct SlideCache {
    pub table: Vec<SlideLine>,
}

/// The table holds, for every 16-bit row id, exactly the entry of the row it
/// unpacks to.
pub open spec fn table_complete(t: Seq<SlideLine>) -> bool {
    t.len() == 65536 && forall|id: int|
        0 <= id < 65536 ==> #[trigger] t[id] == entry_for(unpack_row(id))
}

/// Number of rows whose slide changes them: the record count of the
/// persisted table.
pub const STORED_LINES: usize = 20443;

/// What can go wrong with the persisted table bytes.
#[derive(Debug, Clone, Copy, PartialEq, Eq, Structural)]
pub enum CacheError {
    /// Two consecutive stored row ids are more than 255 apart, which the
    /// single delta byte cannot carry.
    DeltaTooLarge,
    /// The byte stream does not hold exactly `STORED_LINES` records.
    WrongLength,
    /// A cumulative row id left the table.
    IdOutOfRange,
}

/// One record of the persisted stream: the id delta, then the packed result
/// row and the biased score, both big-endian.
pub open spec fn record_bytes(delta: int, sl: SlideLine) -> Seq<u8> {
    seq![
        delta as u8,
        (sl.line / 256) as u8,
        (sl.line % 256) as u8,
        (sl.score / 256) as u8,
        (sl.score % 256) as u8,
    ]
}

/// Prepends `pre` to the bytes of `rest`, keeping a failure.
pub open spec fn opt_concat(pre: Seq<u8>, rest: Option<Seq<u8>>) -> Option<Seq<u8>> {
    match rest {
        Option::None => Option::None,
        Option::Some(r) => Option::Some(pre + r),
    }
}

/// The serialization of the table entries from `id` on, `last` being the id
/// of the previous stored record; `None` when two stored ids are more than
/// 255 apart.
pub open spec fn ser_from(t: Seq<SlideLine>, id: int, last: int) -> Option<Seq<u8>>
    decreases t.len() - id,
{
    if id < 0 || id >= t.len() {
        Option::Some(Seq::empty())
    } else if t[id].line == 0 {
        ser_from(t, id + 1, last)
    } else if id - last > 255 {
        Option::None
    } else {
        opt_concat(record_bytes(id - last, t[id]), ser_from(t, id + 1, id))
    }
}

/// The table read back from `bytes`, record by record from `pos` on, `last`
/// being the previous absolute row id; `None` when a cumulative id leaves
/// the table.
pub open spec fn des_from(t: Seq<SlideLine>, bytes: Seq<u8>, pos: int, last: int) -> Option<
    Seq<SlideLine>,
>
    decreases bytes.len() - pos,
{
    if pos < 0 || pos + 5 > bytes.len() {
        Option::Some(t)
    } else {
        let id = last + bytes[pos];
        if id >= 65536 {
            Option::None
        } else {
            des_from(
                t.update(
                    id,
                    SlideLine {
                        line: (bytes[pos + 1] * 256 + bytes[pos + 2]) as u16,
                        score: (bytes[pos + 3] * 256 + bytes[pos + 4]) as u16,
                    },
                ),
                bytes,
                pos + 5,
                id,
            )
        }
    }
}

/// The all-sentinel table.
pub open spec fn zero_table() -> Seq<SlideLine> {
    Seq::new(65536, |i: int| SlideLine { line: 0, score: 0 })
}

/// What loading yields for `bytes`: `None` when the length is not exactly
/// `5 * STORED_LINES` or a cumulative id leaves the table.
pub open spec fn spec_load(bytes: Seq<u8>) -> Option<Seq<SlideLine>> {
    if bytes.len() != 5 * 20443 {
        Option::None
    } else {
        des_from(zero_table(), bytes, 0, 0)
    }
}

impl SlideCache {
    /// Create the empty table: every entry the "unchanged" sentinel.
    pub fn new() -> (c: SlideCache)
        ensures
            c.table@ == zero_table(),
            c.table@.len() == 65536,
    {
        let c = SlideCache { table: vec![SlideLine { line: 0, score: 0 }; 65536] };
        proof {
            assert(c.table@ =~= zero_table());
        }
        c
    }

    /// Build the whole table by sliding every one of the 65536 possible rows
    /// once: the table-lookup transition agrees with the direct simulation
    /// on every row.
    pub fn create_cache() -> (c: SlideCache)
        ensures
            table_complete(c.table@),
    {
        let mut cache = SlideCache::new();
        let mut row: [u8; 4] = [0u8; 4];
        for id in 0..65536usize
            invariant
                cache.table@.len() == 65536,
                forall|p: int| 0 <= p < id ==> #[trigger] cache.table@[p] == entry_for(
                    unpack_row(p),
                ),
                forall|p: int| id <= p < 65536 ==> #[trigger] cache.table@[p] == (SlideLine {
                    line: 0,
                    score: 0,
                }),
        {
            matrix::from_u16(&mut row, id as u16);
            let res = slide_array(row);
            if let Some(sl) = res {
                cache.table[id] = sl;
            }
        }
        cache
    }

    /// Encode the table as the sparse delta stream: one 5-byte record per
    /// entry whose slide changes its row.
    pub fn serialize(&self) -> (res: Result<Vec<u8>, CacheError>)
        ensures
            match res {
                Result::Ok(bytes) => ser_from(self.table@, 0, 0) == Option::Some(bytes@),
                Result::Err(e) => ser_from(self.table@, 0, 0) is None && e
                    == CacheError::DeltaTooLarge,
            },
    {
        let ghost t = self.table@;
        let mut bytes: Vec<u8> = Vec::new();
        let mut last: usize = 0;
        let n = self.table.len();
        proof {
            assert(opt_concat(bytes@, ser_from(t, 0, 0)) == ser_from(t, 0, 0)) by {
                if ser_from(t, 0, 0) is Some {
                    assert(bytes@ + ser_from(t, 0, 0)->Some_0 =~= ser_from(t, 0, 0)->Some_0);
                }
            }
        }
        for id in 0..n
            invariant
                n == t.len(),
                t == self.table@,
                last <= id,
                opt_concat(bytes@, ser_from(t, id as int, last as int)) == ser_from(t, 0, 0),
        {
            let sl = self.table[id];
            if sl.line != 0 {
                if id - last > 255 {
                    return Err(CacheError::DeltaTooLarge);
                }
                let ghost bytes0 = bytes@;
                let delta = id - last;
                bytes.push(delta as u8);
                bytes.push((sl.line / 256) as u8);
                bytes.push((sl.line % 256) as u8);
                bytes.push((sl.score / 256) as u8);
                bytes.push((sl.score % 256) as u8);
                proof {
                    assert(bytes@ =~= bytes0 + record_bytes(id - last, t[id as int]));
                    if ser_from(t, id + 1 as int, id as int) is Some {
                        assert(bytes0 + (record_bytes(id - last, t[id as int]) + ser_from(
                            t,
                            id + 1 as int,
                            id as int,
                        )->Some_0) =~= bytes@ + ser_from(t, id + 1 as int, id as int)->Some_0);
                    }
                }
                last = id;
            }
        }
        proof {
            assert(ser_from(t, n as int, last as int) == Option::Some(Seq::<u8>::empty()));
            assert(bytes@ + Seq::<u8>::empty() =~= bytes@);
        }
        Ok(bytes)
    }

    /// Decode the table from the persisted byte stream.  Fails when the
    /// stream does not hold exactly `STORED_LINES` records or a cumulative
    /// row id leaves the table.
    pub fn load_cache(bytes: &[u8]) -> (res: Result<SlideCache, CacheError>)
        ensures
            match res {
                Result::Ok(c) => spec_load(bytes@) == Option::Some(c.table@) && c.table@.len()
                    == 65536,
                Result::Err(e) => spec_load(bytes@) is None && (e == CacheError::WrongLength
                    <==> bytes@.len() != 5 * 20443) && e != CacheError::DeltaTooLarge,
            },
    {
        if bytes.len() != 5 * STORED_LINES {
            return Err(CacheError::WrongLength);
        }
        let mut cache = SlideCache::new();
        let mut last: usize = 0;
        let mut pos: usize = 0;
        while pos + 5 <= bytes.len()
            invariant
                bytes@.len() == 5 * 20443,
                pos % 5 == 0,
                pos <= bytes@.len(),
                last < 65536,
                cache.table@.len() == 65536,
                des_from(cache.table@, bytes@, pos as int, last as int) == des_from(
                    zero_table(),
                    bytes@,
                    0,
                    0,
                ),
            decreases bytes@.len() - pos,
        {
            let delta = bytes[pos];
            let id = last + (delta as usize);
            if id >= 65536 {
                return Err(CacheError::IdOutOfRange);
            }
            let line = (bytes[pos + 1] as u16) * 256 + (bytes[pos + 2] as u16);
            let score = (bytes[pos + 3] as u16) * 256 + (bytes[pos + 4] as u16);
            cache.table[id] = SlideLine { line, score };
            last = id;
            pos = pos + 5;
        }
        Ok(cache)
    }
}

/// A slid 4-cell line is again 4 cells.
pub proof fn lemma_slide_row_len(s: Seq<u8>)
    requires
        s.len() == 4,
        row_nibbles(s),
    ensures
        slide_row(s).len() == 4,
{
    lemma_compact_props(s, 15);
    lemma_merge_props(compact(s), 15);
}

/// A nonzero slide score is at least 4: every merge yields a tile of
/// exponent 2 or more.
pub proof fn lemma_score_granular(c: Seq<u8>)
    requires
        forall|k: int| 0 <= k < c.len() ==> 1 <= #[trigger] c[k] <= 15,
    ensures
        merge_score(c) == 0 || merge_score(c) >= 4,
    decreases c.len(),
{
    if c.len() <= 1 {
    } else if c[0] == c[1] {
        lemma_pow2_mono(2, c[0] + 1);
        assert(pow2int(2) == 4) by {
            reveal_with_fuel(pow2int, 3);
        }
        assert(forall|k: int| 0 <= k < c.skip(2).len() ==> 1 <= #[trigger] c.skip(2)[k] <= 15);
        lemma_score_granular(c.skip(2));
    } else {
        assert(forall|k: int| 0 <= k < c.skip(1).len() ==> 1 <= #[trigger] c.skip(1)[k] <= 15);
        lemma_score_granular(c.skip(1));
    }
}

/// The table entry's stored fields, without the 16-bit clipping: the line
/// field is nonzero exactly for the rows the table transforms.
pub proof fn lemma_entry_line(s: Seq<u8>)
    requires
        s.len() == 4,
        row_nibbles(s),
    ensures
        (entry_for(s).line != 0) == (slide_changes(s) && slide_ok(s)),
        slide_changes(s) && slide_ok(s) ==> entry_for(s).line == pack_row(slide_row(s))
            && entry_for(s).score == biased_score(s) && slide_score(s) <= 65536,
        0 <= slide_score(s) <= 131072,
        slide_score(s) == 0 || slide_score(s) >= 4,
{
    lemma_compact_props(s, 15);
    lemma_score_granular(compact(s));
    lemma_merge_score_raw_bound(compact(s));
    if slide_changes(s) && slide_ok(s) {
        lemma_entry_fits(s);
        lemma_merge_props(compact(s), 15);
        assert forall|p: int| 0 <= p < merge_row(compact(s)).len() implies 1 <= #[trigger]
            merge_row(compact(s))[p] <= 15 by {
            assert(slide_row(s)[p] == merge_row(compact(s))[p]);
        }
        lemma_merge_score_bound(compact(s));
    }
}

/// Even without the nibble restriction on the result, a line of four nibble
/// cells merges at most twice, each merge scoring at most `2^16`.
proof fn lemma_merge_score_raw_bound(c: Seq<u8>)
    requires
        forall|k: int| 0 <= k < c.len() ==> 1 <= #[trigger] c[k] <= 15,
        c.len() <= 4,
    ensures
        merge_score(c) <= 32768 * (c.len() / 2) * 2,
    decreases c.len(),
{
    if c.len() <= 1 {
    } else if c[0] == c[1] {
        lemma_pow2_mono(c[0] + 1, 16);
        assert(pow2int(16) == 65536) by {
            reveal_with_fuel(pow2int, 17);
        }
        assert(forall|k: int| 0 <= k < c.skip(2).len() ==> 1 <= #[trigger] c.skip(2)[k] <= 15);
        lemma_merge_score_raw_bound(c.skip(2));
    } else {
        assert(forall|k: int| 0 <= k < c.skip(1).len() ==> 1 <= #[trigger] c.skip(1)[k] <= 15);
        lemma_merge_score_raw_bound(c.skip(1));
    }
}

/// Merging never lengthens a row.
proof fn lemma_merge_len(c: Seq<u8>)
    ensures
        merge_row(c).len() <= c.len(),
    decreases c.len(),
{
    if c.len() <= 1 {
    } else if c[0] == c[1] {
        lemma_merge_len(c.skip(2));
    } else {
        lemma_merge_len(c.skip(1));
    }
}

/// Compacting never lengthens a row.
proof fn lemma_compact_len(s: Seq<u8>)
    ensures
        compact(s).len() <= s.len(),
    decreases s.len(),
{
    if s.len() > 0 {
        lemma_compact_len(s.skip(1));
    }
}

/// A compaction that keeps every cell is the row itself.
proof fn lemma_compact_len_full(s: Seq<u8>)
    requires
        compact(s).len() == s.len(),
    ensures
        compact(s) == s,
    decreases s.len(),
{
    if s.len() > 0 {
        lemma_compact_len(s);
        if s[0] == 0 {
            lemma_compact_len(s.skip(1));
            assert(false);
        } else {
            lemma_compact_len_full(s.skip(1));
            assert(compact(s) =~= s);
        }
    } else {
        assert(compact(s) =~= s);
    }
}

/// A merge that keeps every cell is the row itself.
proof fn lemma_merge_len_full(c: Seq<u8>)
    requires
        merge_row(c).len() == c.len(),
    ensures
        merge_row(c) == c,
    decreases c.len(),
{
    if c.len() <= 1 {
    } else if c[0] == c[1] {
        lemma_merge_len(c.skip(2));
        assert(merge_row(c).len() <= 1 + c.skip(2).len());
        assert(false);
    } else {
        lemma_merge_len_full(c.skip(1));
        assert(merge_row(c) =~= c);
    }
}

/// A slide that changes a row always leaves its last cell empty: the
/// changed row compacted or merged into fewer than four tiles.
pub proof fn lemma_changed_tail_zero(s: Seq<u8>)
    requires
        s.len() == 4,
        row_nibbles(s),
        slide_changes(s),
    ensures
        slide_row(s)[3] == 0,
{
    lemma_compact_props(s, 15);
    lemma_merge_len(compact(s));
    lemma_slide_row_len(s);
    if merge_row(compact(s)).len() == 4 {
        lemma_merge_len_full(compact(s));
        lemma_compact_len_full(s);
        assert(slide_row(s) =~= s);
        assert(false);
    }
}

/// Number of stored (nonzero-line) entries from `id` on.
pub open spec fn nonzero_from(t: Seq<SlideLine>, id: int) -> int
    decreases t.len() - id,
{
    if id < 0 || id >= t.len() {
        0
    } else {
        (if t[id].line == 0 {
            0int
        } else {
            1int
        }) + nonzero_from(t, id + 1)
    }
}

/// Decoding only ever reads the bytes from `pos` on.
proof fn lemma_des_skip(u: Seq<SlideLine>, bytes: Seq<u8>, pos: int, last: int)
    requires
        0 <= pos <= bytes.len(),
    ensures
        des_from(u, bytes, pos, last) == des_from(u, bytes.skip(pos), 0, last),
    decreases bytes.len() - pos,
{
    let sfx = bytes.skip(pos);
    if pos + 5 > bytes.len() {
    } else {
        assert(sfx[0] == bytes[pos] && sfx[1] == bytes[pos + 1] && sfx[2] == bytes[pos + 2]
            && sfx[3] == bytes[pos + 3] && sfx[4] == bytes[pos + 4]);
        let id = last + bytes[pos];
        if id < 65536 {
            let entry = SlideLine {
                line: (bytes[pos + 1] * 256 + bytes[pos + 2]) as u16,
                score: (bytes[pos + 3] * 256 + bytes[pos + 4]) as u16,
            };
            lemma_des_skip(u.update(id, entry), bytes, pos + 5, id);
            lemma_des_skip(u.update(id, entry), sfx, 5, id);
            assert(sfx.skip(5) =~= bytes.skip(pos + 5));
        }
    }
}

/// The encoded stream holds five bytes per stored entry.
proof fn lemma_ser_len(t: Seq<SlideLine>, id: int, last: int, sfx: Seq<u8>)
    requires
        ser_from(t, id, last) == Some(sfx),
    ensures
        sfx.len() == 5 * nonzero_from(t, id),
    decreases t.len() - id,
{
    if id < 0 || id >= t.len() {
    } else if t[id].line == 0 {
        lemma_ser_len(t, id + 1, last, sfx);
    } else {
        let rest = ser_from(t, id + 1, id)->Some_0;
        lemma_ser_len(t, id + 1, id, rest);
    }
}

/// Decoding inverts encoding, entry by entry: if the stream from `id` on
/// encodes the tail of `t`, decoding it into a table that already matches
/// `t` below `id` (and is empty above) rebuilds `t` exactly.
proof fn lemma_ser_des(t: Seq<SlideLine>, u: Seq<SlideLine>, id: int, last: int, sfx: Seq<u8>)
    requires
        t.len() == 65536,
        u.len() == 65536,
        0 <= id,
        0 <= last <= id,
        forall|k: int| 0 <= k < 65536 ==> (#[trigger] t[k]).line == 0 ==> t[k].score == 0,
        forall|k: int| 0 <= k < id && k < 65536 ==> #[trigger] u[k] == t[k],
        forall|k: int| id <= k < 65536 ==> #[trigger] u[k] == (SlideLine { line: 0, score: 0 }),
        ser_from(t, id, last) == Some(sfx),
    ensures
        des_from(u, sfx, 0, last) == Some(t),
    decreases t.len() - id,
{
    if id >= 65536 {
        assert(sfx.len() == 0);
        assert(u =~= t);
    } else if t[id].line == 0 {
        assert(u[id] == t[id]);
        lemma_ser_des(t, u, id + 1, last, sfx);
    } else {
        let rest = ser_from(t, id + 1, id)->Some_0;
        let rec = record_bytes(id - last, t[id]);
        assert(sfx == rec + rest);
        assert(id - last <= 255);
        assert(sfx[0] == (id - last) as u8);
        assert(sfx[1] == (t[id].line / 256) as u8 && sfx[2] == (t[id].line % 256) as u8);
        assert(sfx[3] == (t[id].score / 256) as u8 && sfx[4] == (t[id].score % 256) as u8);
        assert(sfx.len() >= 5);
        assert(last + sfx[0] == id);
        let entry = SlideLine {
            line: (sfx[1] * 256 + sfx[2]) as u16,
            score: (sfx[3] * 256 + sfx[4]) as u16,
        };
        assert(entry.line == t[id].line && entry.score == t[id].score) by {
            assert(t[id].line / 256 * 256 + t[id].line % 256 == t[id].line);
            assert(t[id].score / 256 * 256 + t[id].score % 256 == t[id].score);
        }
        assert(entry == t[id]);
        let u2 = u.update(id, entry);
        assert(forall|k: int| 0 <= k < id + 1 && k < 65536 ==> #[trigger] u2[k] == t[k]);
        assert(forall|k: int| id + 1 <= k < 65536 ==> #[trigger] u2[k] == (SlideLine {
            line: 0,
            score: 0,
        }));
        lemma_ser_des(t, u2, id + 1, id, rest);
        lemma_des_skip(u2, sfx, 5, id);
        assert(sfx.skip(5) =~= rest);
        assert(des_from(u, sfx, 0, last) == des_from(u2, sfx, 5, id));
    }
}

/// Persistence round trip: any canonical table with exactly `STORED_LINES`
/// stored entries (the built table is one, and the stored-entry count is
/// its runtime fact) decodes from its own encoding unchanged.
pub proof fn lemma_table_round_trip(t: Seq<SlideLine>, bytes: Seq<u8>)
    requires
        t.len() == 65536,
        forall|k: int| 0 <= k < 65536 ==> (#[trigger] t[k]).line == 0 ==> t[k].score == 0,
        ser_from(t, 0, 0) == Some(bytes),
        nonzero_from(t, 0) == 20443,
    ensures
        spec_load(bytes) == Some(t),
{
    lemma_ser_len(t, 0, 0, bytes);
    assert(zero_table().len() == 65536);
    assert(forall|k: int| 0 <= k < 65536 ==> #[trigger] zero_table()[k] == (SlideLine {
        line: 0,
        score: 0,
    }));
    lemma_ser_des(t, zero_table(), 0, 0, bytes);
}

/// A complete table is canonical: its unstored entries are all-zero.
pub proof fn lemma_complete_canonical(t: Seq<SlideLine>)
    requires
        table_complete(t),
    ensures
        forall|k: int| 0 <= k < 65536 ==> (#[trigger] t[k]).line == 0 ==> t[k].score == 0,
{
    assert forall|k: int| 0 <= k < 65536 && (#[trigger] t[k]).line == 0 implies t[k].score
        == 0 by {
        assert(t[k] == entry_for(unpack_row(k)));
        crate::matrix::lemma_pack_unpack(k);
        lemma_entry_line(unpack_row(k));
    }
}

} // verus!
