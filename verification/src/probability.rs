//! Probabilities as bit patterns.
//!
//! A probability is carried as the IEEE 754 binary64 bit pattern of a real
//! number. For the non-negative reals the patterns, read as unsigned
//! integers, are ordered exactly as the numbers they stand for, so every
//! comparison the sketches need is an integer comparison.

use vstd::prelude::*;

verus! {

/// The bit pattern of the real number one.
pub const UNIT_ONE: u64 = 0x3FF0_0000_0000_0000;

/// The pattern stands for a real number `x` with `0 <= x < 1`.
pub open spec fn is_unit_draw(bits: u64) -> bool {
    bits < UNIT_ONE
}

/// The pattern stands for a real number `x` with `0 < x < 1`.
pub open spec fn is_open_unit(bits: u64) -> bool {
    0 < bits < UNIT_ONE
}

/// Whether `bits` stands for a real number strictly between zero and one.
pub fn in_open_unit(bits: u64) -> (ok: bool)
    ensures
        ok == is_open_unit(bits),
{
    0 < bits && bits < UNIT_ONE
}

/// Draws from the host's random number generator by calling
/// `js_sys::Math::random`, and hands back the bit pattern of the number
/// drawn. The host documents the number as lying in the range from zero
/// (inclusive) to one (exclusive); nothing else is claimed of it, and this
/// much is taken on trust. Only a WebAssembly host has such a generator:
/// elsewhere the call panics.
#[verifier::external_body]
pub(crate) fn host_draw() -> (bits: u64)
    ensures
        is_unit_draw(bits),
{
    js_sys::Math::random().to_bits()
}

} // verus!
