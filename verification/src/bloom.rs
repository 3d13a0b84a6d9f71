//! Bloom filter: approximate set membership without false negatives.

use crate::error::SketchError;
use crate::hashing::{filled, lemma_slot_in_row, slot_index, slot_of};
use crate::probability::{in_open_unit, is_open_unit};
use vstd::prelude::*;

verus! {

/// Mathematical model of a Bloom filter: its bit array and the number of hash
/// functions probed per item.
pub struct BloomModel {
    pub bits: Seq<bool>,
    pub hash_count: nat,
}

impl BloomModel {
    /// A filter has at least one bit and probes at least once; seeds fit the
    /// hash family.
    pub open spec fn wf(self) -> bool {
        self.bits.len() > 0 && 0 < self.hash_count <= usize::MAX
    }

    /// The bit that the `i`-th hash function assigns to `item`.
    pub open spec fn probe(self, item: Seq<char>, i: nat) -> int {
        slot_of(item, i as u64, self.bits.len())
    }

    /// Whether some hash function below `upto` assigns bit `j` to `item`.
    pub open spec fn touches(self, item: Seq<char>, upto: nat, j: int) -> bool {
        exists|i: nat| i < upto && self.probe(item, i) == j
    }

    /// All bits assigned to `item` are set.
    pub open spec fn contains(self, item: Seq<char>) -> bool {
        forall|i: nat| i < self.hash_count ==> self.bits[#[trigger] self.probe(item, i)]
    }

    /// The filter after the first `upto` hash functions have set their bit
    /// for `item`.
    pub open spec fn insert_upto(self, item: Seq<char>, upto: nat) -> BloomModel {
        BloomModel {
            bits: Seq::new(self.bits.len(), |j: int| self.bits[j] || self.touches(item, upto, j)),
            hash_count: self.hash_count,
        }
    }

    /// The filter after `item` has been inserted.
    pub open spec fn insert(self, item: Seq<char>) -> BloomModel {
        self.insert_upto(item, self.hash_count)
    }

    /// The filter after every item of `items` has been inserted in order.
    pub open spec fn insert_all(self, items: Seq<Seq<char>>) -> BloomModel
        decreases items.len(),
    {
        if items.len() == 0 {
            self
        } else {
            self.insert_all(items.drop_last()).insert(items.last())
        }
    }
}

/// A fixed-size Bloom filter over string items.
#[derive(Debug)]
pub struct BloomFilter {
    bits: Vec<bool>,
    hash_count: usize,
}

impl View for BloomFilter {
    type V = BloomModel;

    closed spec fn view(&self) -> BloomModel {
        BloomModel { bits: self.bits@, hash_count: self.hash_count as nat }
    }
}

impl BloomFilter {
    /// Creates an empty filter of `size` bits probed by `hash_count` hash
    /// functions. Either dimension being zero is rejected.
    pub fn new(size: usize, hash_count: usize) -> (res: Result<BloomFilter, SketchError>)
        ensures
            match res {
                Ok(filter) => {
                    &&& size > 0 && hash_count > 0
                    &&& filter@.wf()
                    &&& filter@.hash_count == hash_count
                    &&& filter@.bits == Seq::new(size as nat, |j: int| false)
                },
                Err(e) => (size == 0 || hash_count == 0) && e == SketchError::InvalidParameter,
            },
    {
        if size == 0 || hash_count == 0 {
            return Err(SketchError::InvalidParameter);
        }
        let bits = filled(false, size);
        assert(bits@ =~= Seq::new(size as nat, |j: int| false));
        Ok(BloomFilter { bits, hash_count })
    }

    /// Whether a filter can be sized for `expected_items` items at the
    /// false-positive rate whose bit pattern is `false_positive_rate`: the
    /// number of items must not be zero, and the rate must lie strictly
    /// between zero and one.
    pub fn validate(expected_items: usize, false_positive_rate: u64) -> (res: Result<
        (),
        SketchError,
    >)
        ensures
            match res {
                Ok(_) => expected_items > 0 && is_open_unit(false_positive_rate),
                Err(e) => (expected_items == 0 || !is_open_unit(false_positive_rate)) && e
                    == SketchError::InvalidParameter,
            },
    {
        if expected_items == 0 || !in_open_unit(false_positive_rate) {
            Err(SketchError::InvalidParameter)
        } else {
            Ok(())
        }
    }

    /// Number of bits in the filter.
    pub fn size(&self) -> (n: usize)
        ensures
            n == self@.bits.len(),
    {
        self.bits.len()
    }

    /// Number of hash functions probed per item.
    pub fn hash_count(&self) -> (n: usize)
        ensures
            n == self@.hash_count,
    {
        self.hash_count
    }

    /// Sets the bit of every hash function for `item`.
    pub fn insert(&mut self, item: &str)
        requires
            old(self)@.wf(),
        ensures
            final(self)@ == old(self)@.insert(item@),
            final(self)@.wf(),
            final(self)@.contains(item@),
    {
        let ghost before = self@;
        let size = self.bits.len();
        let mut i: usize = 0;
        assert(self@.bits =~= before.insert_upto(item@, 0).bits);
        while i < self.hash_count
            invariant
                before.wf(),
                i <= self.hash_count,
                size == before.bits.len(),
                self@ == before.insert_upto(item@, i as nat),
            decreases self.hash_count - i,
        {
            let index = slot_index(item, i as u64, size);
            self.bits.set(index, true);
            proof {
                let next = before.insert_upto(item@, (i + 1) as nat);
                assert(before.probe(item@, i as nat) == index);
                assert forall|j: int| 0 <= j < size implies self.bits@[j] == next.bits[j] by {
                    if before.touches(item@, (i + 1) as nat, j) {
                        let t = choose|t: nat| t < i + 1 && before.probe(item@, t) == j;
                        if t < i {
                            assert(before.touches(item@, i as nat, j));
                        }
                    }
                    if before.touches(item@, i as nat, j) {
                        let t = choose|t: nat| t < i && before.probe(item@, t) == j;
                        assert(t < i + 1 && before.probe(item@, t) == j);
                    }
                }
                assert(self.bits@ =~= next.bits);
            }
            i += 1;
        }
        proof {
            lemma_insert_contains(before, item@);
        }
    }

    /// Whether every bit assigned to `item` is set: `false` means that `item`
    /// was never inserted, `true` that it probably was.
    pub fn contains(&self, item: &str) -> (found: bool)
        requires
            self@.wf(),
        ensures
            found == self@.contains(item@),
    {
        let size = self.bits.len();
        let mut i: usize = 0;
        while i < self.hash_count
            invariant
                self@.wf(),
                i <= self.hash_count,
                size == self@.bits.len(),
                forall|t: nat| t < i ==> self@.bits[#[trigger] self@.probe(item@, t)],
            decreases self.hash_count - i,
        {
            let index = slot_index(item, i as u64, size);
            if !self.bits[index] {
                assert(self@.probe(item@, i as nat) == index);
                return false;
            }
            i += 1;
        }
        true
    }
}

/// An item is contained right after its insertion.
pub proof fn lemma_insert_contains(f: BloomModel, item: Seq<char>)
    requires
        f.wf(),
    ensures
        f.insert(item).wf(),
        f.insert(item).contains(item),
{
    let g = f.insert(item);
    assert forall|i: nat| i < g.hash_count implies g.bits[#[trigger] g.probe(item, i)] by {
        lemma_slot_in_row(item, i as u64, f.bits.len());
        assert(f.touches(item, f.hash_count, f.probe(item, i)));
    }
}

/// Insertion never clears a bit: whatever was contained stays contained.
pub proof fn lemma_insert_keeps(f: BloomModel, item: Seq<char>, other: Seq<char>)
    requires
        f.wf(),
        f.contains(other),
    ensures
        f.insert(item).contains(other),
{
    let g = f.insert(item);
    assert forall|i: nat| i < g.hash_count implies g.bits[#[trigger] g.probe(other, i)] by {
        lemma_slot_in_row(other, i as u64, f.bits.len());
        assert(f.bits[f.probe(other, i)]);
    }
}

/// No false negatives: after any sequence of insertions into any filter,
/// the filter contains every inserted item.
pub proof fn lemma_no_false_negatives(f: BloomModel, items: Seq<Seq<char>>, x: Seq<char>)
    requires
        f.wf(),
        items.contains(x),
    ensures
        f.insert_all(items).wf(),
        f.insert_all(items).contains(x),
    decreases items.len(),
{
    let front = items.drop_last();
    lemma_insert_all_wf(f, front);
    lemma_insert_contains(f.insert_all(front), items.last());
    if items.last() != x {
        let k = choose|k: int| 0 <= k < items.len() && items[k] == x;
        assert(front[k] == x);
        lemma_no_false_negatives(f, front, x);
        lemma_insert_keeps(f.insert_all(front), items.last(), x);
    }
}

/// Insertions keep a filter well formed.
pub proof fn lemma_insert_all_wf(f: BloomModel, items: Seq<Seq<char>>)
    requires
        f.wf(),
    ensures
        f.insert_all(items).wf(),
    decreases items.len(),
{
    if items.len() > 0 {
        lemma_insert_all_wf(f, items.drop_last());
    }
}

/// Bits only go from clear to set: an insertion keeps the size of the filter
/// and every bit that was set.
pub proof fn lemma_insert_keeps_bits(f: BloomModel, item: Seq<char>, j: int)
    requires
        0 <= j < f.bits.len(),
        f.bits[j],
    ensures
        f.insert(item).bits.len() == f.bits.len(),
        f.insert(item).hash_count == f.hash_count,
        f.insert(item).bits[j],
{
}

} // verus!
