//! The seeded hash family shared by all sketches.
//!
//! A member of the family is selected by a 64-bit seed. The digest of an item
//! under a seed is what the standard library's default hasher returns after
//! it has been fed the item's UTF-8 bytes, the byte `0xff` (which occurs in
//! no UTF-8 text, so no item's bytes run into the seed's), and the seed's
//! eight little-endian bytes.

use std::collections::hash_map::DefaultHasher;
use std::hash::Hasher;
use vstd::prelude::*;
use vstd::std_specs::hash::DefaultHasherAdditionalSpecFns;
use vstd::string::StringSliceAdditionalSpecFns;
use vstd::utf8::encode_utf8;

verus! {

/// The `n` low-order bytes of `v`, least significant first.
pub open spec fn le_bytes(v: nat, n: nat) -> Seq<u8>
    decreases n,
{
    if n == 0 {
        Seq::empty()
    } else {
        seq![(v % 256) as u8] + le_bytes(v / 256, (n - 1) as nat)
    }
}

/// The eight bytes that stand for a seed in the hashed stream.
pub open spec fn seed_bytes(seed: u64) -> Seq<u8> {
    le_bytes(seed as nat, 8)
}

/// Digest of `item` under the family member `seed`.
pub open spec fn seeded_hash(item: Seq<char>, seed: u64) -> u64 {
    DefaultHasher::spec_finish(seq![encode_utf8(item), seq![0xffu8], seed_bytes(seed)])
}

/// Position of `item` in a table row of `width` cells under `seed`.
pub open spec fn slot_of(item: Seq<char>, seed: u64, width: nat) -> int {
    seeded_hash(item, seed) as int % width as int
}

/// A position computed by [`slot_of`] lies inside the row.
pub proof fn lemma_slot_in_row(item: Seq<char>, seed: u64, width: nat)
    requires
        width > 0,
    ensures
        0 <= slot_of(item, seed, width) < width,
{
}

/// Encodes a seed as eight little-endian bytes.
pub fn seed_to_bytes(seed: u64) -> (out: Vec<u8>)
    ensures
        out@ == seed_bytes(seed),
{
    let mut out: Vec<u8> = Vec::new();
    let mut rest: u64 = seed;
    let mut k: usize = 0;
    while k < 8
        invariant
            k <= 8,
            out@.len() == k,
            out@ + le_bytes(rest as nat, (8 - k) as nat) == seed_bytes(seed),
        decreases 8 - k,
    {
        let low: u8 = (rest % 256) as u8;
        proof {
            let tail = le_bytes((rest / 256) as nat, (8 - k - 1) as nat);
            assert(le_bytes(rest as nat, (8 - k) as nat) == seq![low] + tail);
            assert(out@.push(low) + tail =~= out@ + (seq![low] + tail));
        }
        out.push(low);
        rest = rest / 256;
        k += 1;
    }
    proof {
        assert(le_bytes(rest as nat, 0) =~= Seq::<u8>::empty());
        assert(out@ + Seq::<u8>::empty() =~= out@);
    }
    out
}

/// Hashes `item` with the family member `seed`.
pub fn hash_with_seed(item: &str, seed: u64) -> (digest: u64)
    ensures
        digest == seeded_hash(item@, seed),
{
    let mut hasher = DefaultHasher::new();
    hasher.write(item.as_bytes());
    let mut end: Vec<u8> = Vec::new();
    end.push(0xffu8);
    hasher.write(end.as_slice());
    let tail = seed_to_bytes(seed);
    hasher.write(tail.as_slice());
    proof {
        assert(end@ =~= seq![0xffu8]);
        assert(hasher@ =~= seq![encode_utf8(item@), seq![0xffu8], seed_bytes(seed)]);
    }
    hasher.finish()
}

/// Hashes `item` with `seed` and reduces the digest to a position in a row of
/// `width` cells.
pub fn slot_index(item: &str, seed: u64, width: usize) -> (pos: usize)
    requires
        width > 0,
    ensures
        pos as int == slot_of(item@, seed, width as nat),
        pos < width,
{
    let digest = hash_with_seed(item, seed);
    (digest % (width as u64)) as usize
}

/// A vector of `len` copies of `value`.
pub fn filled<T: Copy>(value: T, len: usize) -> (out: Vec<T>)
    ensures
        out@.len() == len,
        forall|i: int| 0 <= i < len ==> out@[i] == value,
{
    let mut out: Vec<T> = Vec::new();
    let mut i: usize = 0;
    while i < len
        invariant
            i <= len,
            out@.len() == i,
            forall|j: int| 0 <= j < i ==> out@[j] == value,
        decreases len - i,
    {
        out.push(value);
        i += 1;
    }
    out
}

} // verus!
