//! Heavy Keeper: approximate top-K tracking with decay-based eviction.

use crate::error::SketchError;
use crate::hashing::{lemma_slot_in_row, slot_index, slot_of};
use crate::probability::{host_draw, in_open_unit, is_open_unit, is_unit_draw};
use crate::ranking::{
    all_before, among, distinct_items, lemma_ranks_antisymmetric, lemma_ranks_total, models, ranked,
    ranks_before, select_top, EntryModel, TopKItem,
};
use vstd::prelude::*;

verus! {

/// Model of one table slot. A slot with count zero is empty.
pub struct SlotModel {
    pub item: Seq<char>,
    pub count: u32,
}

impl SlotModel {
    /// The slot is occupied by `item`.
    pub open spec fn holds(self, item: Seq<char>) -> bool {
        self.count > 0 && self.item == item
    }

    /// The slot after `item` has hashed into it. `decays` says whether the
    /// random draw fell below the decay probability; it matters only when
    /// another item occupies the slot.
    pub open spec fn settle(self, item: Seq<char>, decays: bool) -> SlotModel {
        if self.count == 0 {
            SlotModel { item, count: 1 }
        } else if self.item == item {
            SlotModel {
                item,
                count: if self.count == u32::MAX {
                    u32::MAX
                } else {
                    (self.count + 1) as u32
                },
            }
        } else if decays {
            if self.count == 1 {
                SlotModel { item, count: 1 }
            } else {
                SlotModel { item: self.item, count: (self.count - 1) as u32 }
            }
        } else {
            self
        }
    }
}

/// Model of a Heavy Keeper: the slot table, the size of the top-K view and
/// the decay probability as a bit pattern.
pub struct KeeperModel {
    pub rows: Seq<Seq<SlotModel>>,
    pub k: nat,
    pub decay: u64,
}

impl KeeperModel {
    /// Number of rows.
    pub open spec fn depth(self) -> nat {
        self.rows.len()
    }

    /// Number of slots in each row.
    pub open spec fn width(self) -> nat {
        self.rows[0].len()
    }

    /// At least one row, all rows equally wide and not empty, and a decay
    /// probability strictly between zero and one.
    pub open spec fn wf(self) -> bool {
        &&& 0 < self.depth() <= usize::MAX
        &&& self.width() > 0
        &&& forall|i: int| 0 <= i < self.depth() ==> (#[trigger] self.rows[i]).len() == self.width()
        &&& is_open_unit(self.decay)
    }

    /// The slot of row `i` that `item` hashes to.
    pub open spec fn pos(self, item: Seq<char>, i: int) -> int {
        slot_of(item, i as u64, self.width())
    }

    /// The table after `item` has been applied to row `i` with random draw
    /// `draw`.
    pub open spec fn add_row(self, i: int, item: Seq<char>, draw: u64) -> KeeperModel {
        let p = self.pos(item, i);
        KeeperModel {
            rows: self.rows.update(
                i,
                self.rows[i].update(p, self.rows[i][p].settle(item, draw < self.decay)),
            ),
            k: self.k,
            decay: self.decay,
        }
    }

    /// The table after `item` has been applied to the first `upto` rows, row
    /// `i` with draw `draws[i]`.
    pub open spec fn add_rows(self, item: Seq<char>, draws: Seq<u64>, upto: nat) -> KeeperModel
        decreases upto,
    {
        if upto == 0 {
            self
        } else {
            self.add_rows(item, draws, (upto - 1) as nat).add_row(
                upto - 1,
                item,
                draws[upto - 1],
            )
        }
    }

    /// The table after `item` has been added, row `i` deciding a collision
    /// with draw `draws[i]`.
    pub open spec fn add(self, item: Seq<char>, draws: Seq<u64>) -> KeeperModel {
        self.add_rows(item, draws, self.depth())
    }

    /// The table after `items` have been added in order, the `n`-th with the
    /// draws `draws[n]`.
    pub open spec fn add_all(self, items: Seq<Seq<char>>, draws: Seq<Seq<u64>>) -> KeeperModel
        decreases items.len(),
    {
        if items.len() == 0 {
            self
        } else {
            self.add_all(items.drop_last(), draws).add(
                items.last(),
                draws[items.len() - 1],
            )
        }
    }

    /// Least count among the first `upto` rows whose slot for `item` holds
    /// `item`; `None` where no such row exists.
    pub open spec fn query_upto(self, item: Seq<char>, upto: nat) -> Option<u32>
        decreases upto,
    {
        if upto == 0 {
            None
        } else {
            let prev = self.query_upto(item, (upto - 1) as nat);
            let slot = self.rows[upto - 1][self.pos(item, upto - 1)];
            if !slot.holds(item) {
                prev
            } else if prev is Some && prev->Some_0 <= slot.count {
                prev
            } else {
                Some(slot.count)
            }
        }
    }

    /// The count of `item`: the least count among the rows in
    /// which `item` occupies its slot, zero where it occupies none.
    pub open spec fn query(self, item: Seq<char>) -> u32 {
        match self.query_upto(item, self.depth()) {
            Some(m) => m,
            None => 0,
        }
    }

    /// No slot of the table is occupied by `item`.
    pub open spec fn absent(self, item: Seq<char>) -> bool {
        forall|i: int, j: int|
            0 <= i < self.depth() && 0 <= j < self.width() ==> !(#[trigger] self.rows[i][j]).holds(
                item,
            )
    }
}

/// Sum of the counts of the first `upto` slots of `row` that hold `item`.
pub open spec fn row_total(row: Seq<SlotModel>, item: Seq<char>, upto: nat) -> nat
    decreases upto,
{
    if upto == 0 {
        0
    } else {
        row_total(row, item, (upto - 1) as nat) + if row[upto - 1].holds(item) {
            row[upto - 1].count as nat
        } else {
            0
        }
    }
}

/// A sum as a count: clamped at the greatest count.
pub open spec fn saturated(n: nat) -> u32 {
    if n >= u32::MAX {
        u32::MAX
    } else {
        n as u32
    }
}

/// Some entry of `acc` is for `item`.
pub open spec fn lists(acc: Seq<EntryModel>, item: Seq<char>) -> bool {
    exists|t: int| 0 <= t < acc.len() && (#[trigger] acc[t]).item == item
}

impl KeeperModel {
    /// Sum of the counts of the slots in the first `upto` rows that hold
    /// `item`.
    pub open spec fn total_upto(self, item: Seq<char>, upto: nat) -> nat
        decreases upto,
    {
        if upto == 0 {
            0
        } else {
            self.total_upto(item, (upto - 1) as nat) + row_total(
                self.rows[upto - 1],
                item,
                self.width(),
            )
        }
    }

    /// The aggregate of `item`: the sum of the counts of all slots that hold
    /// it, over all rows.
    pub open spec fn total(self, item: Seq<char>) -> nat {
        self.total_upto(item, self.depth())
    }

    /// The aggregate of `item` over the first `i` rows and the first `j`
    /// slots of row `i`.
    pub open spec fn seen(self, item: Seq<char>, i: nat, j: nat) -> nat {
        self.total_upto(item, i) + row_total(self.rows[i as int], item, j)
    }

    /// The line of the top-K view for `item`.
    pub open spec fn entry(self, item: Seq<char>) -> EntryModel {
        EntryModel { item, count: saturated(self.total(item)) }
    }

    /// `acc` holds one entry for each item seen in the first `i` rows and
    /// the first `j` slots of row `i`, with its clamped aggregate there.
    pub open spec fn tallied(self, acc: Seq<EntryModel>, i: nat, j: nat) -> bool {
        &&& distinct_items(acc)
        &&& forall|t: int|
            0 <= t < acc.len() ==> self.seen((#[trigger] acc[t]).item, i, j) > 0 && acc[t].count
                == saturated(self.seen(acc[t].item, i, j))
        &&& forall|x: Seq<char>| #[trigger] self.seen(x, i, j) > 0 ==> lists(acc, x)
    }

    /// `view` is the top-K view of the table: at most `k` lines in rank
    /// order, each the line of a distinct occupant, such that every occupant
    /// is listed or the view is full and all of it ranks before the
    /// occupant's line.
    pub open spec fn is_top_k(self, view: Seq<EntryModel>) -> bool {
        &&& view.len() <= self.k
        &&& ranked(view)
        &&& distinct_items(view)
        &&& forall|t: int|
            0 <= t < view.len() ==> self.total((#[trigger] view[t]).item) > 0 && view[t]
                == self.entry(view[t].item)
        &&& forall|x: Seq<char>| #[trigger]
            self.total(x) > 0 ==> among(view, view.len() as int, self.entry(x)) || (view.len()
                == self.k && all_before(view, self.entry(x)))
    }
}

/// One slot of the table: the candidate item and its count.
struct Slot {
    item: String,
    count: u32,
}

impl View for Slot {
    type V = SlotModel;

    closed spec fn view(&self) -> SlotModel {
        SlotModel { item: self.item@, count: self.count }
    }
}

/// An approximate top-K tracker over string items.
pub struct HeavyKeeper {
    rows: Vec<Vec<Slot>>,
    k: usize,
    decay: u64,
}

impl View for HeavyKeeper {
    type V = KeeperModel;

    closed spec fn view(&self) -> KeeperModel {
        KeeperModel {
            rows: Seq::new(
                self.rows@.len(),
                |i: int| Seq::new(self.rows@[i]@.len(), |j: int| self.rows@[i]@[j]@),
            ),
            k: self.k as nat,
            decay: self.decay,
        }
    }
}

impl HeavyKeeper {
    /// Creates a tracker of `depth` rows of `width` empty slots that reports
    /// the `k` heaviest items. `decay` is the bit pattern of the decay
    /// probability, which must lie strictly between zero and one; `width` and
    /// `depth` must not be zero.
    pub fn new(width: usize, depth: usize, k: usize, decay: u64) -> (res: Result<
        HeavyKeeper,
        SketchError,
    >)
        ensures
            match res {
                Ok(keeper) => {
                    &&& width > 0 && depth > 0 && is_open_unit(decay)
                    &&& keeper@.wf()
                    &&& keeper@.k == k
                    &&& keeper@.decay == decay
                    &&& keeper@.rows == Seq::new(
                        depth as nat,
                        |i: int|
                            Seq::new(
                                width as nat,
                                |j: int| (SlotModel { item: Seq::<char>::empty(), count: 0 }),
                            ),
                    )
                },
                Err(e) => (width == 0 || depth == 0 || !is_open_unit(decay)) && e
                    == SketchError::InvalidParameter,
            },
    {
        if width == 0 || depth == 0 || !in_open_unit(decay) {
            return Err(SketchError::InvalidParameter);
        }
        let mut rows: Vec<Vec<Slot>> = Vec::new();
        let mut i: usize = 0;
        while i < depth
            invariant
                i <= depth,
                rows@.len() == i,
                forall|a: int|
                    0 <= a < i ==> {
                        &&& (#[trigger] rows@[a])@.len() == width
                        &&& forall|b: int|
                            0 <= b < width ==> (#[trigger] rows@[a]@[b])@ == (SlotModel {
                                item: Seq::<char>::empty(),
                                count: 0,
                            })
                    },
            decreases depth - i,
        {
            let mut row: Vec<Slot> = Vec::new();
            let mut j: usize = 0;
            while j < width
                invariant
                    j <= width,
                    row@.len() == j,
                    forall|b: int|
                        0 <= b < j ==> (#[trigger] row@[b])@ == (SlotModel {
                            item: Seq::<char>::empty(),
                            count: 0,
                        }),
                decreases width - j,
            {
                row.push(Slot { item: String::new(), count: 0 });
                j += 1;
            }
            rows.push(row);
            i += 1;
        }
        let keeper = HeavyKeeper { rows, k, decay };
        assert(keeper@.rows =~~= Seq::new(
            depth as nat,
            |i: int|
                Seq::new(
                    width as nat,
                    |j: int| (SlotModel { item: Seq::<char>::empty(), count: 0 }),
                ),
        ));
        Ok(keeper)
    }

    /// Number of slots in each row.
    pub fn width(&self) -> (n: usize)
        requires
            self@.wf(),
        ensures
            n == self@.width(),
    {
        self.rows[0].len()
    }

    /// Number of rows.
    pub fn depth(&self) -> (n: usize)
        ensures
            n == self@.depth(),
    {
        self.rows.len()
    }

    /// Size of the top-K view.
    pub fn k(&self) -> (n: usize)
        ensures
            n == self@.k,
    {
        self.k
    }

    /// Applies `item` to the slot `p` of row `i`.
    fn settle_at(&mut self, i: usize, p: usize, item: &String, draw: u64)
        requires
            old(self)@.wf(),
            i < old(self)@.depth(),
            p == old(self)@.pos(item@, i as int),
        ensures
            final(self)@ == old(self)@.add_row(i as int, item@, draw),
            final(self)@.wf(),
    {
        proof {
            lemma_slot_in_row(item@, i as u64, self@.width());
            assert(self@.rows[i as int].len() == self@.width());
        }
        let count = self.rows[i][p].count;
        let same = self.rows[i][p].item == *item;
        if count == 0 {
            self.rows[i][p] = Slot { item: item.clone(), count: 1 };
        } else if same {
            self.rows[i][p].count = count.saturating_add(1);
        } else if draw < self.decay {
            if count == 1 {
                self.rows[i][p] = Slot { item: item.clone(), count: 1 };
            } else {
                self.rows[i][p].count = count - 1;
            }
        }
        proof {
            let want = old(self)@.add_row(i as int, item@, draw);
            assert(self@.rows.len() == want.rows.len());
            assert forall|a: int| 0 <= a < want.rows.len() implies self@.rows[a] =~= want.rows[a] by {
                assert(old(self)@.rows[a].len() == old(self)@.width());
            }
            assert(self@.rows =~= want.rows);
            assert forall|a: int| 0 <= a < self@.depth() implies (#[trigger] self@.rows[a]).len()
                == self@.width() by {
                assert(old(self)@.rows[a].len() == old(self)@.width());
                assert(old(self)@.rows[0].len() == old(self)@.width());
            }
        }
    }

    /// Adds one occurrence of `item`, deciding every collision with the draw
    /// that `draws` holds for the row.
    ///
    /// In each row the slot that `item` hashes to is settled: an empty slot
    /// takes `item` with count one; a slot that holds `item` counts one more,
    /// saturating; a slot that holds another item loses one count if the
    /// row's draw is below the decay probability, and hands the slot to
    /// `item` with count one when its count is used up.
    pub fn add_with(&mut self, item: &str, draws: &Vec<u64>)
        requires
            old(self)@.wf(),
            draws@.len() == old(self)@.depth(),
        ensures
            final(self)@ == old(self)@.add(item@, draws@),
            final(self)@.wf(),
    {
        let owned = item.to_owned();
        let depth = self.rows.len();
        let mut i: usize = 0;
        while i < depth
            invariant
                i <= depth,
                depth == old(self)@.depth(),
                draws@.len() == depth,
                owned@ == item@,
                self@.wf(),
                self@.depth() == depth,
                self@.width() == old(self)@.width(),
                self@ == old(self)@.add_rows(item@, draws@, i as nat),
            decreases depth - i,
        {
            let p = slot_index(item, i as u64, self.rows[0].len());
            self.settle_at(i, p, &owned, draws[i]);
            i += 1;
        }
    }

    /// Adds one occurrence of `item`, deciding every collision with a fresh
    /// draw from the host's random number generator. The outcome is that of
    /// [`HeavyKeeper::add_with`] for some draws between zero and one. A draw
    /// is made only for a row in which another item occupies the slot; it
    /// needs a WebAssembly host. Use [`HeavyKeeper::add_with`] where there is
    /// none, or where the outcome must be reproducible.
    pub fn add(&mut self, item: &str)
        requires
            old(self)@.wf(),
        ensures
            final(self)@.wf(),
            exists|draws: Seq<u64>|
                {
                    &&& draws.len() == old(self)@.depth()
                    &&& forall|i: int| 0 <= i < draws.len() ==> is_unit_draw(#[trigger] draws[i])
                    &&& final(self)@ == old(self)@.add(item@, draws)
                },
    {
        let owned = item.to_owned();
        let depth = self.rows.len();
        let ghost mut drawn: Seq<u64> = Seq::new(depth as nat, |i: int| 0u64);
        let mut i: usize = 0;
        while i < depth
            invariant
                i <= depth,
                depth == old(self)@.depth(),
                drawn.len() == depth,
                forall|a: int| 0 <= a < drawn.len() ==> is_unit_draw(#[trigger] drawn[a]),
                owned@ == item@,
                self@.wf(),
                self@.depth() == depth,
                self@.width() == old(self)@.width(),
                self@ == old(self)@.add_rows(item@, drawn, i as nat),
            decreases depth - i,
        {
            let p = slot_index(item, i as u64, self.rows[0].len());
            proof {
                lemma_slot_in_row(item@, i as u64, self@.width());
                assert(self@.rows[i as int].len() == self@.width());
            }
            let contested = self.rows[i][p].count > 0 && !(self.rows[i][p].item == owned);
            let draw: u64 = if contested {
                host_draw()
            } else {
                0
            };
            proof {
                let before = drawn;
                drawn = drawn.update(i as int, draw);
                lemma_add_rows_prefix(old(self)@, item@, before, drawn, i as nat);
            }
            self.settle_at(i, p, &owned, draw);
            i += 1;
        }
    }

    /// The count of `item`: the least count among the rows in which `item`
    /// occupies its slot, and zero where it occupies none.
    pub fn query(&self, item: &str) -> (count: u32)
        requires
            self@.wf(),
        ensures
            count == self@.query(item@),
    {
        let owned = item.to_owned();
        let depth = self.rows.len();
        let mut found = false;
        let mut least: u32 = 0;
        let mut i: usize = 0;
        while i < depth
            invariant
                i <= depth,
                depth == self@.depth(),
                self@.wf(),
                owned@ == item@,
                self@.query_upto(item@, i as nat) == (if found {
                    Some(least)
                } else {
                    None::<u32>
                }),
            decreases depth - i,
        {
            let p = slot_index(item, i as u64, self.rows[0].len());
            proof {
                lemma_slot_in_row(item@, i as u64, self@.width());
                assert(self@.rows[i as int].len() == self@.width());
            }
            let count = self.rows[i][p].count;
            if count > 0 && self.rows[i][p].item == owned {
                if !found || count < least {
                    least = count;
                    found = true;
                }
            }
            i += 1;
        }
        if found {
            least
        } else {
            0
        }
    }

    /// One entry per distinct occupant of the table, with the clamped sum of
    /// its counts over all slots that hold it.
    fn aggregate(&self) -> (acc: Vec<TopKItem>)
        requires
            self@.wf(),
        ensures
            self@.tallied(models(acc@), self@.depth(), 0),
    {
        let mut acc: Vec<TopKItem> = Vec::new();
        let depth = self.rows.len();
        let width = self.rows[0].len();
        let mut i: usize = 0;
        while i < depth
            invariant
                i <= depth,
                self@.wf(),
                depth == self@.depth(),
                width == self@.width(),
                self@.tallied(models(acc@), i as nat, 0),
            decreases depth - i,
        {
            let mut j: usize = 0;
            while j < width
                invariant
                    j <= width,
                    i < depth,
                    self@.wf(),
                    depth == self@.depth(),
                    width == self@.width(),
                    self@.tallied(models(acc@), i as nat, j as nat),
                decreases width - j,
            {
                assert(self@.rows[i as int].len() == width);
                let ghost am = models(acc@);
                let ghost sm = self@.rows[i as int][j as int];
                let count = self.rows[i][j].count;
                assert(sm.count == count);
                assert(sm.item == self.rows@[i as int]@[j as int].item@);
                assert forall|x: Seq<char>|
                    self@.seen(x, i as nat, (j + 1) as nat) == self@.seen(x, i as nat, j as nat)
                        + if sm.holds(x) {
                        sm.count as nat
                    } else {
                        0
                    } by {}
                if count > 0 {
                    let mut t: usize = 0;
                    let mut hit = false;
                    while !hit && t < acc.len()
                        invariant
                            t <= acc@.len(),
                            am == models(acc@),
                            i < self.rows@.len(),
                            j < self.rows@[i as int]@.len(),
                            sm.item == self.rows@[i as int]@[j as int].item@,
                            forall|u: int| 0 <= u < t ==> (#[trigger] am[u]).item != sm.item,
                            hit ==> t < acc@.len() && am[t as int].item == sm.item,
                        decreases acc@.len() - t + (if hit { 0int } else { 1int }),
                    {
                        if acc[t].item == self.rows[i][j].item {
                            hit = true;
                        } else {
                            t += 1;
                        }
                    }
                    if hit {
                        let raised = acc[t].count.saturating_add(count);
                        acc[t].count = raised;
                        proof {
                            let a2 = models(acc@);
                            assert(a2 =~= am.update(
                                t as int,
                                EntryModel { item: sm.item, count: raised },
                            ));
                            assert forall|x: Seq<char>| #[trigger]
                                self@.seen(x, i as nat, (j + 1) as nat) > 0 implies lists(a2, x) by {
                                if x == sm.item {
                                    assert(a2[t as int].item == x);
                                } else {
                                    assert(lists(am, x));
                                    let u = choose|u: int| 0 <= u < am.len() && am[u].item == x;
                                    assert(a2[u].item == x);
                                }
                            }
                            assert forall|u: int| 0 <= u < a2.len() implies self@.seen(
                                (#[trigger] a2[u]).item,
                                i as nat,
                                (j + 1) as nat,
                            ) > 0 && a2[u].count == saturated(
                                self@.seen(a2[u].item, i as nat, (j + 1) as nat),
                            ) by {
                                assert(am[u].item == a2[u].item);
                                if u != t {
                                    assert(am[u].item != am[t as int].item);
                                }
                            }
                            assert(distinct_items(a2)) by {
                                assert forall|a: int, b: int| 0 <= a < b < a2.len() implies a2[a].item
                                    != a2[b].item by {
                                    assert(am[a].item == a2[a].item && am[b].item == a2[b].item);
                                }
                            }
                        }
                    } else {
                        acc.push(TopKItem { item: self.rows[i][j].item.clone(), count });
                        proof {
                            let a2 = models(acc@);
                            assert(a2 =~= am.push(EntryModel { item: sm.item, count }));
                            assert(!lists(am, sm.item));
                            assert forall|x: Seq<char>| #[trigger]
                                self@.seen(x, i as nat, (j + 1) as nat) > 0 implies lists(a2, x) by {
                                if x == sm.item {
                                    assert(a2[am.len() as int].item == x);
                                } else {
                                    assert(lists(am, x));
                                    let u = choose|u: int| 0 <= u < am.len() && am[u].item == x;
                                    assert(a2[u].item == x);
                                }
                            }
                            assert forall|u: int| 0 <= u < a2.len() implies self@.seen(
                                (#[trigger] a2[u]).item,
                                i as nat,
                                (j + 1) as nat,
                            ) > 0 && a2[u].count == saturated(
                                self@.seen(a2[u].item, i as nat, (j + 1) as nat),
                            ) by {
                                if u < am.len() {
                                    assert(am[u] == a2[u]);
                                }
                            }
                            assert(distinct_items(a2)) by {
                                assert forall|a: int, b: int| 0 <= a < b < a2.len() implies a2[a].item
                                    != a2[b].item by {
                                    assert(am[a] == a2[a]);
                                    if b < am.len() {
                                        assert(am[b] == a2[b]);
                                    }
                                }
                            }
                        }
                    }
                } else {
                    proof {
                        assert forall|x: Seq<char>| #[trigger]
                            self@.seen(x, i as nat, (j + 1) as nat) > 0 implies lists(am, x) by {
                            assert(self@.seen(x, i as nat, j as nat) > 0);
                        }
                    }
                }
                j += 1;
            }
            proof {
                assert forall|x: Seq<char>|
                    self@.seen(x, (i + 1) as nat, 0) == self@.seen(x, i as nat, width as nat) by {}
                let am = models(acc@);
                assert forall|x: Seq<char>| #[trigger] self@.seen(x, (i + 1) as nat, 0) > 0 implies lists(
                    am,
                    x,
                ) by {
                    assert(self@.seen(x, i as nat, width as nat) > 0);
                }
            }
            i += 1;
        }
        acc
    }

    /// The top-K view: the `k` occupants with the greatest aggregate count,
    /// in rank order. The aggregate of an occupant is the sum of its counts
    /// over all rows, clamped at the greatest count; ties are listed in the
    /// lexicographic order of the items. The view is computed from the slot
    /// table on every call.
    pub fn top_k(&self) -> (view: Vec<TopKItem>)
        requires
            self@.wf(),
        ensures
            self@.is_top_k(models(view@)),
            view@.len() <= self@.k,
            forall|a: int, b: int|
                0 <= a < b < view@.len() ==> view@[a]@.count >= view@[b]@.count,
    {
        let acc = self.aggregate();
        let best = select_top(&acc, self.k);
        proof {
            let am = models(acc@);
            let bm = models(best@);
            let depth = self@.depth();
            assert forall|x: Seq<char>| self@.seen(x, depth, 0) == self@.total(x) by {}
            assert forall|t: int| 0 <= t < bm.len() implies self@.total((#[trigger] bm[t]).item) > 0
                && bm[t] == self@.entry(bm[t].item) by {
                assert(among(am, am.len() as int, bm[t]));
                let u = choose|u: int| 0 <= u < am.len() && am[u] == bm[t];
                assert(self@.seen(am[u].item, depth, 0) > 0);
            }
            assert forall|x: Seq<char>| #[trigger] self@.total(x) > 0 implies among(
                bm,
                bm.len() as int,
                self@.entry(x),
            ) || (bm.len() == self@.k && all_before(bm, self@.entry(x))) by {
                assert(self@.seen(x, depth, 0) > 0);
                assert(lists(am, x));
                let u = choose|u: int| 0 <= u < am.len() && am[u].item == x;
                assert(am[u] == self@.entry(x));
            }
            assert forall|a: int, b: int| 0 <= a < b < best@.len() implies best@[a]@.count
                >= best@[b]@.count by {
                assert(ranks_before(bm[a], bm[b]));
            }
        }
        best
    }
}

/// Rows are settled with their own draw only: draws that agree below `upto`
/// give the same table.
pub proof fn lemma_add_rows_prefix(
    m: KeeperModel,
    item: Seq<char>,
    d1: Seq<u64>,
    d2: Seq<u64>,
    upto: nat,
)
    requires
        forall|i: int| 0 <= i < upto ==> d1[i] == d2[i],
    ensures
        m.add_rows(item, d1, upto) == m.add_rows(item, d2, upto),
    decreases upto,
{
    if upto > 0 {
        lemma_add_rows_prefix(m, item, d1, d2, (upto - 1) as nat);
    }
}

/// Settling one row keeps the table's shape, and brings no item into the
/// table but the one added.
pub proof fn lemma_add_row_keeps_absent(
    m: KeeperModel,
    i: int,
    item: Seq<char>,
    draw: u64,
    x: Seq<char>,
)
    requires
        m.wf(),
        0 <= i < m.depth(),
        m.absent(x),
        x != item,
    ensures
        m.add_row(i, item, draw).wf(),
        m.add_row(i, item, draw).depth() == m.depth(),
        m.add_row(i, item, draw).width() == m.width(),
        m.add_row(i, item, draw).absent(x),
{
    let n = m.add_row(i, item, draw);
    lemma_slot_in_row(item, i as u64, m.width());
    assert(m.rows[i].len() == m.width());
    assert(m.rows[0].len() == m.width());
    assert forall|a: int| 0 <= a < n.depth() implies (#[trigger] n.rows[a]).len() == n.width() by {
        assert(m.rows[a].len() == m.width());
    }
    assert forall|a: int, b: int| 0 <= a < n.depth() && 0 <= b < n.width() implies !(
    #[trigger] n.rows[a][b]).holds(x) by {
        assert(m.rows[a].len() == m.width());
        assert(!m.rows[a][b].holds(x));
    }
}

/// Settling the first `upto` rows keeps the table's shape, and brings no
/// item into the table but the one added.
pub proof fn lemma_add_rows_keeps_absent(
    m: KeeperModel,
    item: Seq<char>,
    draws: Seq<u64>,
    upto: nat,
    x: Seq<char>,
)
    requires
        m.wf(),
        upto <= m.depth(),
        m.absent(x),
        x != item,
    ensures
        m.add_rows(item, draws, upto).wf(),
        m.add_rows(item, draws, upto).depth() == m.depth(),
        m.add_rows(item, draws, upto).width() == m.width(),
        m.add_rows(item, draws, upto).absent(x),
    decreases upto,
{
    if upto > 0 {
        lemma_add_rows_keeps_absent(m, item, draws, (upto - 1) as nat, x);
        lemma_add_row_keeps_absent(
            m.add_rows(item, draws, (upto - 1) as nat),
            upto - 1,
            item,
            draws[upto - 1],
            x,
        );
    }
}

/// An item that occupies no slot has count zero.
pub proof fn lemma_query_absent(m: KeeperModel, x: Seq<char>)
    requires
        m.wf(),
        m.absent(x),
    ensures
        m.query(x) == 0,
{
    lemma_query_upto_absent(m, x, m.depth());
}

/// An item that occupies no slot is found in no row.
pub proof fn lemma_query_upto_absent(m: KeeperModel, x: Seq<char>, upto: nat)
    requires
        m.wf(),
        m.absent(x),
        upto <= m.depth(),
    ensures
        m.query_upto(x, upto) is None,
    decreases upto,
{
    if upto > 0 {
        lemma_query_upto_absent(m, x, (upto - 1) as nat);
        lemma_slot_in_row(x, (upto - 1) as u64, m.width());
        assert(!m.rows[upto - 1][m.pos(x, upto - 1)].holds(x));
    }
}

/// An item that was never added has count zero: whatever items are added to
/// a table that does not hold `x`, with whatever draws, as long as `x` is
/// not among them, the count of `x` stays zero.
pub proof fn lemma_never_added_counts_zero(
    m: KeeperModel,
    items: Seq<Seq<char>>,
    draws: Seq<Seq<u64>>,
    x: Seq<char>,
)
    requires
        m.wf(),
        m.absent(x),
        !items.contains(x),
    ensures
        m.add_all(items, draws).wf(),
        m.add_all(items, draws).absent(x),
        m.add_all(items, draws).query(x) == 0,
    decreases items.len(),
{
    if items.len() > 0 {
        let front = items.drop_last();
        assert forall|n: int| 0 <= n < front.len() implies front[n] != x by {
            assert(items[n] == front[n]);
        }
        assert(items.last() == items[items.len() - 1]);
        lemma_never_added_counts_zero(m, front, draws, x);
        let mid = m.add_all(front, draws);
        lemma_add_rows_keeps_absent(mid, items.last(), draws[items.len() - 1], mid.depth(), x);
    }
    lemma_query_absent(m.add_all(items, draws), x);
}

/// Two top-K views of one table agree on every position that both have.
pub proof fn lemma_top_k_prefix(m: KeeperModel, v1: Seq<EntryModel>, v2: Seq<EntryModel>, n: nat)
    requires
        m.is_top_k(v1),
        m.is_top_k(v2),
        n <= v1.len(),
        n <= v2.len(),
    ensures
        forall|i: int| 0 <= i < n ==> v1[i] == v2[i],
    decreases n,
{
    if n > 0 {
        lemma_top_k_prefix(m, v1, v2, (n - 1) as nat);
        let j = n - 1;
        if v1[j] != v2[j] {
            lemma_ranks_total(v1[j], v2[j]);
            if ranks_before(v1[j], v2[j]) {
                lemma_top_k_places(m, v1, v2, j);
            } else {
                lemma_top_k_places(m, v2, v1, j);
            }
        }
    }
}

/// Where two top-K views of one table agree below position `j`, and the
/// entry of the first at `j` ranks before that of the second, the two
/// entries are the same.
pub proof fn lemma_top_k_places(m: KeeperModel, v1: Seq<EntryModel>, v2: Seq<EntryModel>, j: int)
    requires
        m.is_top_k(v1),
        m.is_top_k(v2),
        0 <= j < v1.len(),
        j < v2.len(),
        forall|i: int| 0 <= i < j ==> v1[i] == v2[i],
        ranks_before(v1[j], v2[j]),
    ensures
        v1[j] == v2[j],
{
    let x = v1[j].item;
    assert(m.total(x) > 0 && v1[j] == m.entry(x));
    if among(v2, v2.len() as int, m.entry(x)) {
        let t = choose|t: int| 0 <= t < v2.len() && v2[t] == m.entry(x);
        if t < j {
            assert(v1[t] == v2[t]);
            assert(v1[t].item != v1[j].item);
        } else if t > j {
            assert(ranks_before(v2[j], v2[t]));
            lemma_ranks_antisymmetric(v1[j], v2[j]);
        }
    } else {
        assert(all_before(v2, m.entry(x)));
        assert(ranks_before(v2[j], m.entry(x)));
        lemma_ranks_antisymmetric(v1[j], v2[j]);
    }
}

/// A top-K view is never shorter than another view of the same table.
pub proof fn lemma_top_k_length(m: KeeperModel, v1: Seq<EntryModel>, v2: Seq<EntryModel>)
    requires
        m.is_top_k(v1),
        m.is_top_k(v2),
    ensures
        v1.len() <= v2.len(),
{
    if v1.len() > v2.len() {
        let j = v2.len() as int;
        lemma_top_k_prefix(m, v1, v2, v2.len());
        let x = v1[j].item;
        assert(m.total(x) > 0 && v1[j] == m.entry(x));
        assert(among(v2, v2.len() as int, m.entry(x)));
        let t = choose|t: int| 0 <= t < v2.len() && v2[t] == m.entry(x);
        assert(v1[t] == v2[t]);
        assert(v1[t].item != v1[j].item);
    }
}

/// The top-K view is determined by the table: there is only one sequence of
/// entries that is a top-K view of it.
pub proof fn lemma_top_k_unique(m: KeeperModel, v1: Seq<EntryModel>, v2: Seq<EntryModel>)
    requires
        m.is_top_k(v1),
        m.is_top_k(v2),
    ensures
        v1 == v2,
{
    lemma_top_k_length(m, v1, v2);
    lemma_top_k_length(m, v2, v1);
    lemma_top_k_prefix(m, v1, v2, v1.len());
    assert(v1 =~= v2);
}

/// A view with room left lists every occupant of the table.
pub proof fn lemma_top_k_with_room_lists_all(m: KeeperModel, view: Seq<EntryModel>, x: Seq<char>)
    requires
        m.is_top_k(view),
        view.len() < m.k,
        m.total(x) > 0,
    ensures
        among(view, view.len() as int, m.entry(x)),
{
}

} // verus!
