//! Count-Min Sketch: frequency estimation that never undercounts.

use crate::error::SketchError;
use crate::hashing::{filled, lemma_slot_in_row, slot_index, slot_of};
use vstd::prelude::*;

verus! {

/// A counter after one more occurrence: clamped at the greatest value.
pub open spec fn bumped(c: u32) -> u32 {
    if c == u32::MAX {
        u32::MAX
    } else {
        (c + 1) as u32
    }
}

/// A number of occurrences as a counter value: clamped at the greatest value.
pub open spec fn clamped(n: nat) -> u32 {
    if n >= u32::MAX {
        u32::MAX
    } else {
        n as u32
    }
}

/// How often `x` occurs in `items`.
pub open spec fn occurrences(items: Seq<Seq<char>>, x: Seq<char>) -> nat
    decreases items.len(),
{
    if items.len() == 0 {
        0
    } else {
        occurrences(items.drop_last(), x) + if items.last() == x {
            1nat
        } else {
            0nat
        }
    }
}

/// Model of a Count-Min Sketch: `depth` rows of `width` counters. Row `i`
/// is indexed by the hash family member with seed `i`.
pub struct SketchModel {
    pub rows: Seq<Seq<u32>>,
}

impl SketchModel {
    /// Number of rows.
    pub open spec fn depth(self) -> nat {
        self.rows.len()
    }

    /// Number of counters in each row.
    pub open spec fn width(self) -> nat {
        self.rows[0].len()
    }

    /// At least one row, all rows equally wide and not empty.
    pub open spec fn wf(self) -> bool {
        &&& 0 < self.depth() <= usize::MAX
        &&& self.width() > 0
        &&& forall|i: int| 0 <= i < self.depth() ==> (#[trigger] self.rows[i]).len() == self.width()
    }

    /// The counter of row `i` that `item` hashes to.
    pub open spec fn pos(self, item: Seq<char>, i: int) -> int {
        slot_of(item, i as u64, self.width())
    }

    /// The sketch after the counter of `item` in row `i` has been bumped.
    pub open spec fn increment_row(self, i: int, item: Seq<char>) -> SketchModel {
        let p = self.pos(item, i);
        SketchModel { rows: self.rows.update(i, self.rows[i].update(p, bumped(self.rows[i][p]))) }
    }

    /// The sketch after the counters of `item` in the first `upto` rows have
    /// been bumped.
    pub open spec fn increment_upto(self, item: Seq<char>, upto: nat) -> SketchModel
        decreases upto,
    {
        if upto == 0 {
            self
        } else {
            self.increment_upto(item, (upto - 1) as nat).increment_row(upto - 1, item)
        }
    }

    /// The sketch after one occurrence of `item` has been counted.
    pub open spec fn increment(self, item: Seq<char>) -> SketchModel {
        self.increment_upto(item, self.depth())
    }

    /// The sketch after every item of `items` has been counted, in order.
    pub open spec fn increment_all(self, items: Seq<Seq<char>>) -> SketchModel
        decreases items.len(),
    {
        if items.len() == 0 {
            self
        } else {
            self.increment_all(items.drop_last()).increment(items.last())
        }
    }

    /// The least counter of `item` among the first `upto` rows.
    pub open spec fn estimate_upto(self, item: Seq<char>, upto: nat) -> u32
        decreases upto,
    {
        if upto == 0 {
            u32::MAX
        } else {
            let prev = self.estimate_upto(item, (upto - 1) as nat);
            let here = self.rows[upto - 1][self.pos(item, upto - 1)];
            if here < prev {
                here
            } else {
                prev
            }
        }
    }

    /// The estimated frequency of `item`: its least counter over all rows.
    pub open spec fn estimate(self, item: Seq<char>) -> u32 {
        self.estimate_upto(item, self.depth())
    }

    /// Every counter is zero.
    pub open spec fn is_zero(self) -> bool {
        forall|i: int, j: int|
            0 <= i < self.depth() && 0 <= j < self.width() ==> (#[trigger] self.rows[i][j]) == 0
    }
}

/// A Count-Min Sketch over string items.
#[derive(Debug)]
pub struct CountMinSketch {
    counters: Vec<Vec<u32>>,
}

impl View for CountMinSketch {
    type V = SketchModel;

    closed spec fn view(&self) -> SketchModel {
        SketchModel {
            rows: Seq::new(self.counters@.len(), |i: int| self.counters@[i]@),
        }
    }
}

impl CountMinSketch {
    /// Creates a sketch of `depth` rows of `width` zero counters. Either
    /// dimension being zero is rejected.
    pub fn new(width: usize, depth: usize) -> (res: Result<CountMinSketch, SketchError>)
        ensures
            match res {
                Ok(sketch) => {
                    &&& width > 0 && depth > 0
                    &&& sketch@.wf()
                    &&& sketch@.depth() == depth
                    &&& sketch@.width() == width
                    &&& sketch@.is_zero()
                },
                Err(e) => (width == 0 || depth == 0) && e == SketchError::InvalidParameter,
            },
    {
        if width == 0 || depth == 0 {
            return Err(SketchError::InvalidParameter);
        }
        let mut counters: Vec<Vec<u32>> = Vec::new();
        let mut i: usize = 0;
        while i < depth
            invariant
                i <= depth,
                counters@.len() == i,
                forall|a: int|
                    0 <= a < i ==> {
                        &&& (#[trigger] counters@[a])@.len() == width
                        &&& forall|b: int| 0 <= b < width ==> counters@[a]@[b] == 0
                    },
            decreases depth - i,
        {
            counters.push(filled(0u32, width));
            i += 1;
        }
        Ok(CountMinSketch { counters })
    }

    /// Number of counters in each row.
    pub fn width(&self) -> (n: usize)
        requires
            self@.wf(),
        ensures
            n == self@.width(),
    {
        self.counters[0].len()
    }

    /// Number of rows.
    pub fn depth(&self) -> (n: usize)
        ensures
            n == self@.depth(),
    {
        self.counters.len()
    }

    /// Counts one occurrence of `item`: in every row the counter that `item`
    /// hashes to grows by one, and stays where it is once it has reached the
    /// greatest value.
    pub fn increment(&mut self, item: &str)
        requires
            old(self)@.wf(),
        ensures
            final(self)@ == old(self)@.increment(item@),
            final(self)@.wf(),
    {
        let depth = self.counters.len();
        let mut i: usize = 0;
        while i < depth
            invariant
                i <= depth,
                depth == old(self)@.depth(),
                self@.wf(),
                self@.depth() == depth,
                self@.width() == old(self)@.width(),
                self@ == old(self)@.increment_upto(item@, i as nat),
            decreases depth - i,
        {
            let ghost before = self@;
            let p = slot_index(item, i as u64, self.counters[0].len());
            proof {
                lemma_slot_in_row(item@, i as u64, self@.width());
                assert(self@.rows[i as int].len() == self@.width());
                assert(self@.rows[0].len() == self@.width());
            }
            let next = self.counters[i][p].saturating_add(1);
            self.counters[i][p] = next;
            proof {
                let want = before.increment_row(i as int, item@);
                assert forall|a: int| 0 <= a < want.rows.len() implies self@.rows[a]
                    =~= want.rows[a] by {
                    assert(before.rows[a].len() == before.width());
                }
                assert(self@.rows =~= want.rows);
                assert forall|a: int| 0 <= a < self@.depth() implies (#[trigger] self@.rows[a]).len()
                    == self@.width() by {
                    assert(before.rows[a].len() == before.width());
                }
            }
            i += 1;
        }
    }

    /// The estimated frequency of `item`: the least of its counters over
    /// all rows.
    pub fn estimate(&self, item: &str) -> (count: u32)
        requires
            self@.wf(),
        ensures
            count == self@.estimate(item@),
    {
        let depth = self.counters.len();
        let mut least: u32 = u32::MAX;
        let mut i: usize = 0;
        while i < depth
            invariant
                i <= depth,
                depth == self@.depth(),
                self@.wf(),
                least == self@.estimate_upto(item@, i as nat),
            decreases depth - i,
        {
            let p = slot_index(item, i as u64, self.counters[0].len());
            proof {
                lemma_slot_in_row(item@, i as u64, self@.width());
                assert(self@.rows[i as int].len() == self@.width());
            }
            let here = self.counters[i][p];
            if here < least {
                least = here;
            }
            i += 1;
        }
        least
    }

    /// Resets every counter to zero, in place. Every estimate is zero
    /// afterwards.
    pub fn clear(&mut self)
        requires
            old(self)@.wf(),
        ensures
            final(self)@.wf(),
            final(self)@.depth() == old(self)@.depth(),
            final(self)@.width() == old(self)@.width(),
            final(self)@.is_zero(),
            forall|x: Seq<char>| final(self)@.estimate(x) == 0,
    {
        let depth = self.counters.len();
        let width = self.counters[0].len();
        let mut i: usize = 0;
        proof {
            assert(self@.rows[0].len() == width);
            assert forall|a: int| 0 <= a < depth implies (#[trigger] self.counters@[a])@.len()
                == width by {
                assert(self@.rows[a].len() == self@.width());
            }
        }
        while i < depth
            invariant
                i <= depth,
                depth == self.counters@.len(),
                depth == old(self)@.depth(),
                width == old(self)@.width(),
                width > 0,
                forall|a: int| 0 <= a < depth ==> (#[trigger] self.counters@[a])@.len() == width,
                forall|a: int, b: int|
                    0 <= a < i && 0 <= b < width ==> (#[trigger] self.counters@[a]@[b]) == 0,
            decreases depth - i,
        {
            let mut j: usize = 0;
            while j < width
                invariant
                    j <= width,
                    i < depth,
                    depth == self.counters@.len(),
                    forall|a: int|
                        0 <= a < depth ==> (#[trigger] self.counters@[a])@.len() == width,
                    forall|a: int, b: int|
                        0 <= a < i && 0 <= b < width ==> (#[trigger] self.counters@[a]@[b]) == 0,
                    forall|b: int| 0 <= b < j ==> (#[trigger] self.counters@[i as int]@[b]) == 0,
                decreases width - j,
            {
                self.counters[i][j] = 0;
                j += 1;
            }
            i += 1;
        }
        proof {
            assert(self@.rows[0].len() == width);
            assert forall|a: int| 0 <= a < self@.depth() implies (#[trigger] self@.rows[a]).len()
                == self@.width() by {
                assert(self.counters@[a]@.len() == width);
            }
            assert(self@.is_zero());
            assert forall|x: Seq<char>| self@.estimate(x) == 0 by {
                lemma_zero_estimates_zero(self@, x);
            }
        }
    }
}

/// What counting `item` in the first `upto` rows does to each counter: the
/// counter of `item` in each of those rows is bumped, all others stay.
pub proof fn lemma_increment_cells(m: SketchModel, item: Seq<char>, upto: nat)
    requires
        m.wf(),
        upto <= m.depth(),
    ensures
        m.increment_upto(item, upto).wf(),
        m.increment_upto(item, upto).depth() == m.depth(),
        m.increment_upto(item, upto).width() == m.width(),
        forall|a: int, b: int|
            0 <= a < m.depth() && 0 <= b < m.width() ==> #[trigger] m.increment_upto(
                item,
                upto,
            ).rows[a][b] == if a < upto && b == m.pos(item, a) {
                bumped(m.rows[a][b])
            } else {
                m.rows[a][b]
            },
    decreases upto,
{
    if upto > 0 {
        let prev = m.increment_upto(item, (upto - 1) as nat);
        let next = m.increment_upto(item, upto);
        lemma_increment_cells(m, item, (upto - 1) as nat);
        lemma_slot_in_row(item, (upto - 1) as u64, m.width());
        assert(prev.rows[upto - 1].len() == prev.width());
        assert(prev.rows[0].len() == prev.width());
        assert forall|a: int| 0 <= a < next.depth() implies (#[trigger] next.rows[a]).len()
            == next.width() by {
            assert(prev.rows[a].len() == prev.width());
        }
        assert forall|a: int, b: int| 0 <= a < m.depth() && 0 <= b < m.width() implies
            #[trigger] next.rows[a][b] == if a < upto && b == m.pos(item, a) {
            bumped(m.rows[a][b])
        } else {
            m.rows[a][b]
        } by {
            assert(prev.rows[a].len() == prev.width());
            assert(prev.rows[a][b] == if a < upto - 1 && b == m.pos(item, a) {
                bumped(m.rows[a][b])
            } else {
                m.rows[a][b]
            });
        }
    }
}

/// An estimate is at most each of the item's counters, and at least any
/// bound that all of them meet.
pub proof fn lemma_estimate_bounds(m: SketchModel, x: Seq<char>, upto: nat, bound: u32)
    requires
        m.wf(),
        upto <= m.depth(),
        forall|i: int| 0 <= i < upto ==> m.rows[i][m.pos(x, i)] >= bound,
    ensures
        m.estimate_upto(x, upto) >= bound,
        forall|i: int| 0 <= i < upto ==> m.estimate_upto(x, upto) <= m.rows[i][m.pos(x, i)],
    decreases upto,
{
    if upto > 0 {
        lemma_estimate_bounds(m, x, (upto - 1) as nat, bound);
    }
}

/// In a sketch of zero counters every estimate is zero.
pub proof fn lemma_zero_estimates_zero(m: SketchModel, x: Seq<char>)
    requires
        m.wf(),
        m.is_zero(),
    ensures
        m.estimate(x) == 0,
{
    lemma_slot_in_row(x, 0, m.width());
    assert(m.rows[0][m.pos(x, 0)] == 0);
    lemma_estimate_bounds(m, x, m.depth(), 0);
}

/// Counting an item never lowers an estimate, and raises the estimate of
/// the item counted by one, up to the greatest counter value.
pub proof fn lemma_increment_raises(m: SketchModel, item: Seq<char>, x: Seq<char>)
    requires
        m.wf(),
    ensures
        m.increment(item).wf(),
        m.increment(item).estimate(x) >= m.estimate(x),
        m.increment(item).estimate(item) == bumped(m.estimate(item)),
{
    let n = m.increment(item);
    lemma_increment_cells(m, item, m.depth());
    lemma_estimate_bounds(m, x, m.depth(), 0);
    assert forall|i: int| 0 <= i < n.depth() implies n.rows[i][n.pos(x, i)] >= m.estimate(x) by {
        lemma_slot_in_row(x, i as u64, m.width());
        assert(m.estimate(x) <= m.rows[i][m.pos(x, i)]);
    }
    lemma_estimate_bounds(n, x, n.depth(), m.estimate(x));
    lemma_estimate_bounds(m, item, m.depth(), 0);
    assert forall|i: int| 0 <= i < n.depth() implies n.rows[i][n.pos(item, i)] >= bumped(
        m.estimate(item),
    ) by {
        lemma_slot_in_row(item, i as u64, m.width());
        assert(m.estimate(item) <= m.rows[i][m.pos(item, i)]);
    }
    lemma_estimate_bounds(n, item, n.depth(), bumped(m.estimate(item)));
    lemma_estimate_attained(m, item, m.depth());
    let w = choose|w: int| 0 <= w < m.depth() && m.rows[w][m.pos(item, w)] == m.estimate(item);
    lemma_slot_in_row(item, w as u64, m.width());
    assert(n.rows[w][n.pos(item, w)] == bumped(m.estimate(item)));
}

/// An estimate over at least one row is the value of one of the item's
/// counters.
pub proof fn lemma_estimate_attained(m: SketchModel, x: Seq<char>, upto: nat)
    requires
        m.wf(),
        0 < upto <= m.depth(),
    ensures
        exists|w: int| 0 <= w < upto && m.rows[w][m.pos(x, w)] == m.estimate_upto(x, upto),
    decreases upto,
{
    if upto > 1 {
        lemma_estimate_attained(m, x, (upto - 1) as nat);
        let w = choose|w: int|
            0 <= w < upto - 1 && m.rows[w][m.pos(x, w)] == m.estimate_upto(x, (upto - 1) as nat);
        if m.rows[upto - 1][m.pos(x, upto - 1)] < m.estimate_upto(x, (upto - 1) as nat) {
            assert(m.rows[upto - 1][m.pos(x, upto - 1)] == m.estimate_upto(x, upto));
        } else {
            assert(m.rows[w][m.pos(x, w)] == m.estimate_upto(x, upto));
        }
    } else {
        assert(m.estimate_upto(x, 0) == u32::MAX);
        assert(m.rows[0][m.pos(x, 0)] == m.estimate_upto(x, 1));
    }
}

/// The sketch never undercounts: after any sequence of items has been
/// counted, the estimate of an item is at least its estimate before plus
/// the number of its occurrences in the sequence, clamped at the greatest
/// counter value.
pub proof fn lemma_never_undercounts(m: SketchModel, items: Seq<Seq<char>>, x: Seq<char>)
    requires
        m.wf(),
    ensures
        m.increment_all(items).wf(),
        m.increment_all(items).estimate(x) >= clamped((m.estimate(x) + occurrences(items, x)) as nat),
    decreases items.len(),
{
    if items.len() > 0 {
        let front = items.drop_last();
        lemma_never_undercounts(m, front, x);
        lemma_increment_raises(m.increment_all(front), items.last(), x);
    }
}

/// Counters never fall: counting an item keeps the sketch's shape and
/// lowers no counter.
pub proof fn lemma_counters_never_fall(m: SketchModel, item: Seq<char>, a: int, b: int)
    requires
        m.wf(),
        0 <= a < m.depth(),
        0 <= b < m.width(),
    ensures
        m.increment(item).depth() == m.depth(),
        m.increment(item).width() == m.width(),
        m.increment(item).rows[a][b] >= m.rows[a][b],
{
    lemma_increment_cells(m, item, m.depth());
}

} // verus!
