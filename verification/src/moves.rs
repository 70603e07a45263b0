//! Moves, search results, and search statistics.

use crate::direction::Direction;
use vstd::prelude::*;

verus! {

/// A move of the game tree: the player's slide, or the engine's placement
/// of a tile (exponent, index among the empty cells).
#[derive(Debug, PartialEq, Eq, Structural, Clone, Copy)]
pub enum Move {
    Human(Direction),
    Random(u8, u8),
}

impl Move {
    /// Wrap a (value, position) pair as a random move.
    pub(crate) fn from_tuple(tuple: (u8, u8)) -> (m: Move)
        ensures
            m == Move::Random(tuple.0, tuple.1),
    {
        let (value, pos) = tuple;
        Move::Random(value, pos)
    }

    /// Is this the player's move.
    pub(crate) fn is_human(self) -> (r: bool)
        ensures
            r == self is Human,
    {
        match self {
            Move::Human(_) => true,
            Move::Random(_, _) => false,
        }
    }

    /// The (value, position) pair of a random move.  The caller must not
    /// hand a human move in.
    pub(crate) fn unwrap_random(self) -> (r: (u8, u8))
        requires
            self is Random,
        ensures
            self == Move::Random(r.0, r.1),
    {
        match self {
            Move::Random(value, pos) => (value, pos),
            Move::Human(_) => (0, 0),
        }
    }
}

impl Default for Move {
    /// The placeholder move of a fresh search root.
    fn default() -> (m: Move)
        ensures
            m == Move::Random(0u8, 0u8),
    {
        Move::Random(0, 0)
    }
}

/// Counters a search gathers: nodes visited, subtrees cut by pruning, and a
/// per-distinct-board visit histogram; observational only.
#[derive(Debug, Clone)]
pub struct Statistics {
    pub total_nodes: u32,
    pub cut_nodes: u32,
    pub cache_hit: Vec<(u64, u32)>,
}

/// Each board id appears at most once in the histogram.
pub open spec fn keys_unique(s: Seq<(u64, u32)>) -> bool {
    forall|i: int, j: int| 0 <= i < j < s.len() ==> (#[trigger] s[i]).0 != (#[trigger] s[j]).0
}

/// The histogram as a map from board id to visit count.
pub open spec fn hist_map(s: Seq<(u64, u32)>) -> Map<u64, u32>
    decreases s.len(),
{
    if s.len() == 0 {
        Map::empty()
    } else {
        hist_map(s.drop_last()).insert(s.last().0, s.last().1)
    }
}

/// A well-formed statistics record.
pub open spec fn stats_wf(s: Statistics) -> bool {
    keys_unique(s.cache_hit@)
}

/// Saturating addition on counters.
pub open spec fn sat_add(a: u32, b: u32) -> u32 {
    if a + b <= u32::MAX {
        (a + b) as u32
    } else {
        u32::MAX
    }
}

/// Saturating exec addition on counters.
pub(crate) fn sat_add_u32(a: u32, b: u32) -> (r: u32)
    ensures
        r == sat_add(a, b),
{
    if a <= u32::MAX - b {
        a + b
    } else {
        u32::MAX
    }
}

impl Statistics {
    /// One visited node: the leaf's own board counted once.
    pub fn new(board_id: u64) -> (s: Statistics)
        ensures
            stats_wf(s),
            s.total_nodes == 1,
            s.cut_nodes == 0,
            hist_map(s.cache_hit@) == Map::<u64, u32>::empty().insert(board_id, 1u32),
    {
        let mut hit: Vec<(u64, u32)> = Vec::new();
        hit.push((board_id, 1));
        let stat = Statistics { total_nodes: 1, cut_nodes: 0, cache_hit: hit };
        proof {
            assert(stat.cache_hit@.drop_last() =~= Seq::<(u64, u32)>::empty());
            assert(hist_map(Seq::<(u64, u32)>::empty()) =~= Map::<u64, u32>::empty());
            assert(hist_map(stat.cache_hit@) =~= Map::<u64, u32>::empty().insert(
                board_id,
                1u32,
            ));
        }
        stat
    }

    /// An empty record, the unit `add` starts from.
    pub(crate) fn none() -> (s: Statistics)
        ensures
            stats_wf(s),
            s.total_nodes == 0,
            s.cut_nodes == 0,
            hist_map(s.cache_hit@) == Map::<u64, u32>::empty(),
    {
        Statistics { total_nodes: 0, cut_nodes: 0, cache_hit: Vec::new() }
    }

    /// Merge the other histogram in: the result holds exactly the board
    /// ids of both operands, each mapped to the (saturating) sum of its
    /// counts, an id absent from one side counting zero; new ids are
    /// appended.
    fn merge_maps(map: &mut Vec<(u64, u32)>, other: &Vec<(u64, u32)>)
        requires
            keys_unique(old(map)@),
            keys_unique(other@),
        ensures
            keys_unique(final(map)@),
            hist_merged(final(map)@, old(map)@, other@),
    {
        let ghost m0 = old(map)@;
        let n = other.len();
        for oi in 0..n
            invariant
                n == other@.len(),
                keys_unique(other@),
                keys_unique(map@),
                forall|k: u64| #[trigger] hist_map(map@).contains_key(k) <==> (hist_map(
                    m0,
                ).contains_key(k) || has_key_upto(other@, oi as int, k)),
                forall|k: u64|
                    hist_map(m0).contains_key(k) && has_key_upto(other@, oi as int, k)
                        ==> #[trigger] hist_map(map@)[k] == sat_add(
                        hist_map(m0)[k],
                        hist_map(other@)[k],
                    ),
                forall|k: u64|
                    hist_map(m0).contains_key(k) && !has_key_upto(other@, oi as int, k)
                        ==> #[trigger] hist_map(map@)[k] == hist_map(m0)[k],
                forall|k: u64|
                    !hist_map(m0).contains_key(k) && has_key_upto(other@, oi as int, k)
                        ==> #[trigger] hist_map(map@)[k] == hist_map(other@)[k],
        {
            let (k, v) = other[oi];
            let ghost before = map@;
            proof {
                lemma_hist_at(other@, oi as int);
                assert(v == hist_map(other@)[k]);
                assert(!has_key_upto(other@, oi as int, k)) by {
                    if has_key_upto(other@, oi as int, k) {
                        let p = choose|p: int|
                            0 <= p < oi && p < other@.len() && (#[trigger] other@[p]).0 == k;
                        assert(other@[p].0 == other@[oi as int].0);
                    }
                }
                lemma_hist_contains(before, k);
            }
            match find_key(map, k) {
                Some(i) => {
                    let cur = map[i].1;
                    proof {
                        lemma_hist_at(before, i as int);
                        assert(cur == hist_map(before)[k]);
                        assert(hist_map(before).contains_key(k));
                        assert(hist_map(m0).contains_key(k));
                        assert(cur == hist_map(m0)[k]);
                        lemma_hist_update(before, i as int, sat_add(cur, v));
                    }
                    map[i] = (k, sat_add_u32(cur, v));
                    proof {
                        assert(map@ =~= before.update(i as int, (k, sat_add(cur, v))));
                        assert(hist_map(map@) == hist_map(before).insert(k, sat_add(cur, v)));
                        assert forall|a: int, b: int| 0 <= a < b < map@.len() implies (
                        #[trigger] map@[a]).0 != (#[trigger] map@[b]).0 by {
                            assert(before[a].0 != before[b].0);
                            assert(map@[a].0 == before[a].0 && map@[b].0 == before[b].0);
                        }
                    }
                },
                None => {
                    map.push((k, v));
                    proof {
                        assert(map@.drop_last() =~= before);
                        assert(map@.last() == (k, v));
                        assert(hist_map(map@) == hist_map(before).insert(k, v));
                        assert(!hist_map(m0).contains_key(k));
                        assert forall|a: int, b: int| 0 <= a < b < map@.len() implies (
                        #[trigger] map@[a]).0 != (#[trigger] map@[b]).0 by {
                            if b < map@.len() - 1 {
                                assert(before[a].0 != before[b].0);
                            } else {
                                assert(!has_key(before, k));
                                assert(before[a].0 != k);
                            }
                        }
                    }
                },
            }
            proof {
                assert forall|q: u64| has_key_upto(other@, oi + 1, q) <==> (has_key_upto(
                    other@,
                    oi as int,
                    q,
                ) || q == other@[oi as int].0) by {
                    if has_key_upto(other@, oi + 1, q) {
                        let p = choose|p: int|
                            0 <= p < oi + 1 && p < other@.len() && (#[trigger] other@[p]).0 == q;
                        if p < oi {
                            assert(has_key_upto(other@, oi as int, q));
                        }
                    }
                    if q == other@[oi as int].0 {
                        assert(other@[oi as int].0 == q && oi < other@.len());
                    }
                }
            }
        }
        proof {
            assert forall|q: u64| has_key_upto(other@, n as int, q) <==> hist_map(
                other@,
            ).contains_key(q) by {
                lemma_hist_contains(other@, q);
                if has_key(other@, q) {
                    let p = choose|p: int|
                        0 <= p < other@.len() && (#[trigger] other@[p]).0 == q;
                    assert(has_key_upto(other@, n as int, q));
                }
                if has_key_upto(other@, n as int, q) {
                    let p = choose|p: int|
                        0 <= p < n && p < other@.len() && (#[trigger] other@[p]).0 == q;
                    assert(has_key(other@, q));
                }
            }
        }
    }

    /// Fold the other record into this one: counters summed (saturating)
    /// and every board id's visit count merged.
    pub fn add(&mut self, other: &Statistics)
        requires
            stats_wf(*old(self)),
            stats_wf(*other),
        ensures
            stats_wf(*final(self)),
            stats_merged(*final(self), *old(self), *other),
            final(self).total_nodes == sat_add(old(self).total_nodes, other.total_nodes),
            final(self).cut_nodes == sat_add(old(self).cut_nodes, other.cut_nodes),
    {
        self.total_nodes = sat_add_u32(self.total_nodes, other.total_nodes);
        self.cut_nodes = sat_add_u32(self.cut_nodes, other.cut_nodes);
        Statistics::merge_maps(&mut self.cache_hit, &other.cache_hit);
    }
}



/// `c` is the merge of the histograms `a` and `b`: it holds exactly the
/// ids of both, each mapped to the saturating sum of its counts (an id
/// absent from one side counts zero).
pub open spec fn hist_merged(c: Seq<(u64, u32)>, a: Seq<(u64, u32)>, b: Seq<(u64, u32)>) -> bool {
    &&& forall|k: u64| #[trigger] hist_map(c).contains_key(k) <==> (hist_map(a).contains_key(k)
        || hist_map(b).contains_key(k))
    &&& forall|k: u64|
        hist_map(a).contains_key(k) && hist_map(b).contains_key(k) ==> #[trigger] hist_map(c)[k]
            == sat_add(hist_map(a)[k], hist_map(b)[k])
    &&& forall|k: u64|
        hist_map(a).contains_key(k) && !hist_map(b).contains_key(k) ==> #[trigger] hist_map(c)[k]
            == hist_map(a)[k]
    &&& forall|k: u64|
        !hist_map(a).contains_key(k) && hist_map(b).contains_key(k) ==> #[trigger] hist_map(c)[k]
            == hist_map(b)[k]
}

/// `c` is the statistics record that folding `b` into `a` yields: both
/// counters summed (saturating) and the histograms merged per board id.
pub open spec fn stats_merged(c: Statistics, a: Statistics, b: Statistics) -> bool {
    &&& c.total_nodes == sat_add(a.total_nodes, b.total_nodes)
    &&& c.cut_nodes == sat_add(a.cut_nodes, b.cut_nodes)
    &&& hist_merged(c.cache_hit@, a.cache_hit@, b.cache_hit@)
}

/// Some entry among the first `n` carries this board id.
pub open spec fn has_key_upto(s: Seq<(u64, u32)>, n: int, k: u64) -> bool {
    exists|i: int| 0 <= i < n && i < s.len() && (#[trigger] s[i]).0 == k
}

/// The histogram map holds exactly the listed board ids.
pub proof fn lemma_hist_contains(s: Seq<(u64, u32)>, k: u64)
    ensures
        hist_map(s).contains_key(k) <==> has_key(s, k),
    decreases s.len(),
{
    if s.len() == 0 {
    } else {
        lemma_hist_contains(s.drop_last(), k);
        if has_key(s, k) {
            let i = choose|i: int| 0 <= i < s.len() && (#[trigger] s[i]).0 == k;
            if i < s.len() - 1 {
                assert(s.drop_last()[i].0 == k);
            }
        }
        if has_key(s.drop_last(), k) {
            let i = choose|i: int|
                0 <= i < s.drop_last().len() && (#[trigger] s.drop_last()[i]).0 == k;
            assert(s[i].0 == k);
        }
    }
}

/// With unique ids, the histogram map reads back each entry's count.
pub proof fn lemma_hist_at(s: Seq<(u64, u32)>, i: int)
    requires
        keys_unique(s),
        0 <= i < s.len(),
    ensures
        hist_map(s).contains_key(s[i].0),
        hist_map(s)[s[i].0] == s[i].1,
    decreases s.len(),
{
    if i == s.len() - 1 {
    } else {
        assert(keys_unique(s.drop_last()));
        assert(s.drop_last()[i] == s[i]);
        lemma_hist_at(s.drop_last(), i);
        assert(s.last().0 != s[i].0);
    }
}

/// Replacing one entry's count updates the histogram map at that id alone.
proof fn lemma_hist_update(s: Seq<(u64, u32)>, i: int, v: u32)
    requires
        keys_unique(s),
        0 <= i < s.len(),
    ensures
        hist_map(s.update(i, (s[i].0, v))) == hist_map(s).insert(s[i].0, v),
    decreases s.len(),
{
    let t = s.update(i, (s[i].0, v));
    if i == s.len() - 1 {
        assert(t.drop_last() =~= s.drop_last());
        assert(t.last() == (s[i].0, v));
        assert(hist_map(t) == hist_map(s.drop_last()).insert(s[i].0, v));
        assert(hist_map(s.drop_last()).insert(s[i].0, s[i].1).insert(s[i].0, v) =~= hist_map(
            s.drop_last(),
        ).insert(s[i].0, v));
    } else {
        assert(keys_unique(s.drop_last()));
        assert(s.drop_last()[i] == s[i]);
        lemma_hist_update(s.drop_last(), i, v);
        assert(t.drop_last() =~= s.drop_last().update(i, (s[i].0, v)));
        assert(t.last() == s.last());
        assert(s.last().0 != s[i].0);
        assert(hist_map(t) == hist_map(s.drop_last()).insert(s[i].0, v).insert(
            s.last().0,
            s.last().1,
        ));
        assert(hist_map(s.drop_last()).insert(s[i].0, v).insert(s.last().0, s.last().1)
            =~= hist_map(s.drop_last()).insert(s.last().0, s.last().1).insert(s[i].0, v));
    }
}

/// Find the entry of a board id in the histogram.
fn find_key(map: &Vec<(u64, u32)>, k: u64) -> (r: Option<usize>)
    ensures
        match r {
            Some(i) => i < map@.len() && map@[i as int].0 == k,
            None => !has_key(map@, k),
        },
{
    let m = map.len();
    for mi in 0..m
        invariant
            m == map@.len(),
            forall|p: int| 0 <= p < mi ==> (#[trigger] map@[p]).0 != k,
    {
        if map[mi].0 == k {
            return Some(mi);
        }
    }
    None
}

/// Some entry of the histogram carries this board id.
pub open spec fn has_key(s: Seq<(u64, u32)>, k: u64) -> bool {
    exists|i: int| 0 <= i < s.len() && (#[trigger] s[i]).0 == k
}

/// The chosen move of one search: the winning child's move and score, the
/// index of that child, and the gathered statistics.
#[derive(Debug)]
pub struct BestMove {
    pub turn: Move,
    pub local_id: u8,
    pub score: i32,
    pub stat: Statistics,
}

impl BestMove {
    /// A fresh running best with the given starting score and no move yet.
    pub fn new(score: i32) -> (b: BestMove)
        ensures
            b.turn == Move::Random(0u8, 0u8),
            b.local_id == 0,
            b.score == score,
            stats_wf(b.stat),
            b.stat.total_nodes == 0,
            b.stat.cut_nodes == 0,
    {
        BestMove { turn: Move::Random(0, 0), local_id: 0, score, stat: Statistics::none() }
    }

    /// The same move with the score negated, as the negamax sign flip
    /// needs.
    pub(crate) fn negated(self) -> (b: BestMove)
        requires
            self.score > i32::MIN,
        ensures
            b.turn == self.turn,
            b.local_id == self.local_id,
            b.score == -self.score,
            b.stat == self.stat,
    {
        BestMove { score: -self.score, ..self }
    }
}

} // verus!
