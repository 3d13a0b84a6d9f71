//! HyperLogLog: distinct-count estimation from register maxima.
//!
//! Each item is hashed to 32 bits. The low `p` bits pick one of `2^p`
//! registers; the register keeps the greatest rank seen, where the rank of a
//! hash is one more than the number of leading zeros of its remaining bits.

use crate::error::SketchError;
use crate::hashing::filled;
use vstd::prelude::*;
use vstd::std_specs::bits::axiom_u32_leading_zeros;
use vstd::string::StringSliceAdditionalSpecFns;
use vstd::utf8::encode_utf8;

verus! {

/// Smallest precision accepted.
pub const MIN_PRECISION: u8 = 4;

/// Greatest precision accepted.
pub const MAX_PRECISION: u8 = 16;

/// Precision used when none is given.
pub const DEFAULT_PRECISION: u8 = 14;

/// Two to the power `p`.
pub open spec fn two_to(p: nat) -> nat
    decreases p,
{
    if p == 0 {
        1
    } else {
        2 * two_to((p - 1) as nat)
    }
}

/// `x` rotated left by `r` bits, for `0 < r < 32`.
pub open spec fn rotl(x: u32, r: u32) -> u32 {
    (x << r) | (x >> ((32 - r) as u32))
}

/// The running hash after one more byte.
pub open spec fn mix_byte(h: u32, byte: u8) -> u32 {
    let k = rotl((byte as u32).wrapping_mul(0xcc9e2d51u32), 15).wrapping_mul(0x1b873593u32);
    rotl(h ^ k, 13).wrapping_mul(5u32).wrapping_add(0xe6546b64u32)
}

/// The running hash after all of `bytes`, starting from `h`.
pub open spec fn mix_bytes(h: u32, bytes: Seq<u8>) -> u32
    decreases bytes.len(),
{
    if bytes.len() == 0 {
        h
    } else {
        mix_byte(mix_bytes(h, bytes.drop_last()), bytes.last())
    }
}

/// The final avalanche of the hash.
pub open spec fn avalanche(h: u32) -> u32 {
    let a = (h ^ (h >> 16u32)).wrapping_mul(0x85ebca6bu32);
    let b = (a ^ (a >> 13u32)).wrapping_mul(0xc2b2ae35u32);
    b ^ (b >> 16u32)
}

/// The 32-bit hash of a byte string: every byte is mixed into a running
/// value that starts at `0xdeadbeef`, the length is folded in, and the
/// result is avalanched.
pub open spec fn mix32(bytes: Seq<u8>) -> u32 {
    avalanche(mix_bytes(0xdeadbeefu32, bytes) ^ ((bytes.len() % 0x1_0000_0000) as u32))
}

/// The register that a hash selects among `m`.
pub open spec fn register_of(hash: u32, m: nat) -> int {
    hash as int % m as int
}

/// The rank of a hash at precision `p`: one more than the number of leading
/// zeros of the hash without its low `p` bits, and `32 - p + 1` where no
/// other bit is set.
pub open spec fn rank_of(hash: u32, p: u8) -> u8 {
    let w = hash >> (p as u32);
    if w == 0 {
        (33 - p) as u8
    } else {
        ((w << (p as u32)).leading_zeros() + 1) as u8
    }
}

/// The greater of two register values.
pub open spec fn greater(a: u8, b: u8) -> u8 {
    if a >= b {
        a
    } else {
        b
    }
}

/// The element-wise maximum of two register arrays of one length.
pub open spec fn merged(a: Seq<u8>, b: Seq<u8>) -> Seq<u8> {
    Seq::new(a.len(), |i: int| greater(a[i], b[i]))
}

/// Number of zeros among the first `upto` registers.
pub open spec fn zeros_upto(registers: Seq<u8>, upto: nat) -> nat
    decreases upto,
{
    if upto == 0 {
        0
    } else {
        zeros_upto(registers, (upto - 1) as nat) + if registers[upto - 1] == 0 {
            1nat
        } else {
            0nat
        }
    }
}

/// Sum of `2^(32 - r)` over the first `upto` registers `r`: the harmonic sum
/// of the registers, `2^(-r)` summed over them, scaled by `2^32`.
pub open spec fn power_sum_upto(registers: Seq<u8>, upto: nat) -> nat
    decreases upto,
{
    if upto == 0 {
        0
    } else {
        power_sum_upto(registers, (upto - 1) as nat) + two_to((32 - registers[upto - 1]) as nat)
    }
}

/// Model of a HyperLogLog sketch.
pub struct HllModel {
    pub registers: Seq<u8>,
    pub precision: u8,
}

impl HllModel {
    /// The precision is in range, there are `2^precision` registers, and no
    /// register exceeds the greatest rank.
    pub open spec fn wf(self) -> bool {
        &&& MIN_PRECISION <= self.precision <= MAX_PRECISION
        &&& self.registers.len() == two_to(self.precision as nat)
        &&& forall|i: int|
            0 <= i < self.registers.len() ==> #[trigger] self.registers[i] <= 33 - self.precision
    }

    /// The sketch after an item with UTF-8 bytes `bytes` has been added.
    pub open spec fn add(self, bytes: Seq<u8>) -> HllModel {
        let hash = mix32(bytes);
        let index = register_of(hash, self.registers.len());
        HllModel {
            registers: self.registers.update(
                index,
                greater(self.registers[index], rank_of(hash, self.precision)),
            ),
            precision: self.precision,
        }
    }

    /// The union of two sketches of one precision.
    pub open spec fn merge(self, other: HllModel) -> HllModel {
        HllModel { registers: merged(self.registers, other.registers), precision: self.precision }
    }
}

/// A HyperLogLog sketch over string items.
#[derive(Debug)]
pub struct HyperLogLog {
    registers: Vec<u8>,
    p: u8,
}

impl View for HyperLogLog {
    type V = HllModel;

    closed spec fn view(&self) -> HllModel {
        HllModel { registers: self.registers@, precision: self.p }
    }
}

/// Rotates `x` left by `r` bits.
pub fn rotate_left(x: u32, r: u32) -> (out: u32)
    requires
        0 < r < 32,
    ensures
        out == rotl(x, r),
{
    (x << r) | (x >> (32 - r))
}

/// Mixes one byte into the running hash.
pub fn mix_in(h: u32, byte: u8) -> (out: u32)
    ensures
        out == mix_byte(h, byte),
{
    let mut k: u32 = byte as u32;
    k = k.wrapping_mul(0xcc9e2d51u32);
    k = rotate_left(k, 15);
    k = k.wrapping_mul(0x1b873593u32);
    let mut h1: u32 = h ^ k;
    h1 = rotate_left(h1, 13);
    h1.wrapping_mul(5u32).wrapping_add(0xe6546b64u32)
}

/// The 32-bit hash of a byte string.
pub fn hash_bytes(bytes: &[u8]) -> (hash: u32)
    ensures
        hash == mix32(bytes@),
{
    let mut h: u32 = 0xdeadbeefu32;
    let mut i: usize = 0;
    assert(bytes@.take(0) =~= Seq::<u8>::empty());
    while i < bytes.len()
        invariant
            i <= bytes@.len(),
            h == mix_bytes(0xdeadbeefu32, bytes@.take(i as int)),
        decreases bytes@.len() - i,
    {
        assert(bytes@.take(i + 1).drop_last() =~= bytes@.take(i as int));
        h = mix_in(h, bytes[i]);
        i += 1;
    }
    assert(bytes@.take(i as int) =~= bytes@);
    let folded: u32 = ((bytes.len() as u64) % 0x1_0000_0000u64) as u32;
    h = h ^ folded;
    h = (h ^ (h >> 16u32)).wrapping_mul(0x85ebca6bu32);
    h = (h ^ (h >> 13u32)).wrapping_mul(0xc2b2ae35u32);
    h ^ (h >> 16u32)
}

/// The 32-bit hash of an item.
pub fn hash_item(value: &str) -> (hash: u32)
    ensures
        hash == mix32(encode_utf8(value@)),
{
    hash_bytes(value.as_bytes())
}

/// The rank of `hash` at precision `p`.
pub fn rank(hash: u32, p: u8) -> (r: u8)
    requires
        MIN_PRECISION <= p <= MAX_PRECISION,
    ensures
        r == rank_of(hash, p),
        1 <= r <= 33 - p,
{
    let s: u32 = p as u32;
    let w: u32 = hash >> s;
    if w == 0 {
        33 - p
    } else {
        let x: u32 = w << s;
        let lz: u32 = x.leading_zeros();
        proof {
            axiom_u32_leading_zeros(x);
            assert(x != 0) by (bit_vector)
                requires
                    x == (hash >> s) << s,
                    (hash >> s) != 0,
                    s <= 16,
            ;
            let j: u32 = (31 - lz) as u32;
            assert(j >= s) by (bit_vector)
                requires
                    x == (hash >> s) << s,
                    s <= 16,
                    j < 32,
                    (x >> j) & 1u32 != 0u32,
            ;
        }
        (lz + 1) as u8
    }
}

/// Number of registers for precision `p`.
fn register_count(p: u8) -> (m: usize)
    requires
        p <= MAX_PRECISION,
    ensures
        m == two_to(p as nat),
        m <= 65536,
{
    let mut m: usize = 1;
    let mut i: u8 = 0;
    proof {
        lemma_two_to_sixteen();
    }
    while i < p
        invariant
            i <= p,
            p <= 16,
            m == two_to(i as nat),
            m * two_to((16 - i) as nat) == 65536,
        decreases p - i,
    {
        proof {
            assert(two_to((16 - i) as nat) == 2 * two_to((16 - i - 1) as nat));
            assert(m * (2 * two_to((16 - i - 1) as nat)) == (m * 2) * two_to((16 - i - 1) as nat))
                by (nonlinear_arith);
            lemma_two_to_positive((16 - i - 1) as nat);
            assert(m * 2 <= 65536) by (nonlinear_arith)
                requires
                    (m * 2) * two_to((16 - i - 1) as nat) == 65536,
                    two_to((16 - i - 1) as nat) >= 1,
            ;
        }
        m = m * 2;
        i += 1;
    }
    proof {
        lemma_two_to_positive((16 - i) as nat);
        assert(m <= 65536) by (nonlinear_arith)
            requires
                m * two_to((16 - i) as nat) == 65536,
                two_to((16 - i) as nat) >= 1,
        ;
    }
    m
}

/// The powers of two from `2^0` to `2^32`.
fn powers_of_two() -> (table: Vec<u64>)
    ensures
        table@.len() == 33,
        forall|s: int| 0 <= s < 33 ==> #[trigger] table@[s] == two_to(s as nat),
        forall|s: int| 0 <= s < 33 ==> #[trigger] table@[s] <= 0x1_0000_0000,
{
    let mut table: Vec<u64> = Vec::new();
    let mut v: u64 = 1;
    let mut s: usize = 0;
    proof {
        reveal_with_fuel(two_to, 34);
        assert(two_to(33) == 0x2_0000_0000);
    }
    while s < 33
        invariant
            s <= 33,
            table@.len() == s,
            v == two_to(s as nat),
            v * two_to((33 - s) as nat) == 0x2_0000_0000,
            forall|t: int| 0 <= t < s ==> #[trigger] table@[t] == two_to(t as nat),
            forall|t: int| 0 <= t < s ==> #[trigger] table@[t] <= 0x1_0000_0000,
        decreases 33 - s,
    {
        proof {
            let rest = two_to((33 - s - 1) as nat);
            assert(two_to((33 - s) as nat) == 2 * rest);
            lemma_two_to_positive((33 - s - 1) as nat);
            assert(v * (2 * rest) == (v * 2) * rest) by (nonlinear_arith);
            assert(v * 2 <= 0x2_0000_0000) by (nonlinear_arith)
                requires
                    (v * 2) * rest == 0x2_0000_0000,
                    rest >= 1,
            ;
        }
        table.push(v);
        v = v * 2;
        s += 1;
    }
    table
}

/// Two to the power sixteen.
pub proof fn lemma_two_to_sixteen()
    ensures
        two_to(16) == 65536,
{
    reveal_with_fuel(two_to, 17);
}

/// Powers of two are positive.
pub proof fn lemma_two_to_positive(p: nat)
    ensures
        two_to(p) >= 1,
    decreases p,
{
    if p > 0 {
        lemma_two_to_positive((p - 1) as nat);
    }
}

impl HyperLogLog {
    /// Creates an empty sketch of `2^p` registers, where `p` is the given
    /// precision, or fourteen where none is given. A precision below four or
    /// above sixteen is rejected.
    pub fn new(precision: Option<u8>) -> (res: Result<HyperLogLog, SketchError>)
        ensures
            ({
                let p = match precision {
                    Some(p) => p,
                    None => DEFAULT_PRECISION,
                };
                match res {
                    Ok(sketch) => {
                        &&& MIN_PRECISION <= p <= MAX_PRECISION
                        &&& sketch@.wf()
                        &&& sketch@.precision == p
                        &&& sketch@.registers == Seq::new(two_to(p as nat), |i: int| 0u8)
                    },
                    Err(e) => (p < MIN_PRECISION || p > MAX_PRECISION) && e
                        == SketchError::InvalidParameter,
                }
            }),
    {
        let p: u8 = match precision {
            Some(p) => p,
            None => DEFAULT_PRECISION,
        };
        if p < MIN_PRECISION || p > MAX_PRECISION {
            return Err(SketchError::InvalidParameter);
        }
        let m = register_count(p);
        let registers = filled(0u8, m);
        assert(registers@ =~= Seq::new(two_to(p as nat), |i: int| 0u8));
        Ok(HyperLogLog { registers, p })
    }

    /// The precision: the number of hash bits that select a register.
    pub fn precision(&self) -> (p: u8)
        ensures
            p == self@.precision,
    {
        self.p
    }

    /// A copy of the registers.
    pub fn registers(&self) -> (out: Vec<u8>)
        ensures
            out@ == self@.registers,
    {
        let mut out: Vec<u8> = Vec::new();
        let mut i: usize = 0;
        while i < self.registers.len()
            invariant
                i <= self.registers@.len(),
                out@ == self.registers@.take(i as int),
            decreases self.registers@.len() - i,
        {
            out.push(self.registers[i]);
            assert(out@ =~= self.registers@.take(i + 1));
            i += 1;
        }
        assert(self.registers@.take(i as int) =~= self.registers@);
        out
    }

    /// Number of registers that are still zero.
    pub fn zero_registers(&self) -> (zeros: usize)
        ensures
            zeros == zeros_upto(self@.registers, self@.registers.len()),
    {
        let mut zeros: usize = 0;
        let mut i: usize = 0;
        while i < self.registers.len()
            invariant
                i <= self.registers@.len(),
                zeros <= i,
                zeros == zeros_upto(self.registers@, i as nat),
            decreases self.registers@.len() - i,
        {
            if self.registers[i] == 0 {
                zeros += 1;
            }
            i += 1;
        }
        zeros
    }

    /// The harmonic sum of the registers, scaled by `2^32`: the sum of
    /// `2^(32 - r)` over all registers `r`. The estimate of the number of
    /// distinct items is a function of this sum, of the number of zero
    /// registers and of the number of registers.
    pub fn scaled_harmonic_sum(&self) -> (sum: u64)
        requires
            self@.wf(),
        ensures
            sum == power_sum_upto(self@.registers, self@.registers.len()),
    {
        let table = powers_of_two();
        let m = self.registers.len();
        proof {
            lemma_two_to_sixteen();
            if self.p < 16 {
                lemma_two_to_strict(self.p as nat, 16);
            }
        }
        let mut sum: u64 = 0;
        let mut i: usize = 0;
        while i < m
            invariant
                i <= m,
                m <= 65536,
                m == self.registers@.len(),
                self@.wf(),
                table@.len() == 33,
                forall|s: int| 0 <= s < 33 ==> #[trigger] table@[s] == two_to(s as nat),
                forall|s: int| 0 <= s < 33 ==> #[trigger] table@[s] <= 0x1_0000_0000,
                sum == power_sum_upto(self.registers@, i as nat),
                sum <= i * 0x1_0000_0000,
            decreases m - i,
        {
            let r = self.registers[i];
            assert(self@.registers[i as int] <= 33 - self@.precision);
            let term = table[(32 - r) as usize];
            assert(i * 0x1_0000_0000 + 0x1_0000_0000 <= 65536 * 0x1_0000_0000) by (nonlinear_arith)
                requires
                    i < 65536,
            ;
            sum = sum + term;
            i += 1;
        }
        sum
    }

    /// Adds an item: the register that its hash selects is raised to the
    /// hash's rank unless it is greater already.
    pub fn add(&mut self, value: &str)
        requires
            old(self)@.wf(),
        ensures
            final(self)@ == old(self)@.add(encode_utf8(value@)),
            final(self)@.wf(),
    {
        let hash = hash_item(value);
        proof {
            lemma_two_to_positive(self.p as nat);
        }
        let m = self.registers.len();
        let index = ((hash as u64) % (m as u64)) as usize;
        let r = rank(hash, self.p);
        if self.registers[index] < r {
            self.registers.set(index, r);
        }
        proof {
            assert(self@.registers =~= old(self)@.add(encode_utf8(value@)).registers);
        }
    }

    /// Merges `other` into this sketch: every register becomes the greater
    /// of the two. Sketches of different sizes are not merged.
    pub fn merge(&mut self, other: &HyperLogLog) -> (res: Result<(), SketchError>)
        requires
            old(self)@.wf(),
            other@.wf(),
        ensures
            match res {
                Ok(_) => old(self)@.precision == other@.precision && final(self)@ == old(
                    self,
                )@.merge(other@),
                Err(e) => old(self)@.precision != other@.precision && e
                    == SketchError::DimensionMismatch && final(self)@ == old(self)@,
            },
            final(self)@.wf(),
    {
        if self.registers.len() != other.registers.len() {
            proof {
                if self.p == other.p {
                    assert(self@.registers.len() == other@.registers.len());
                }
            }
            return Err(SketchError::DimensionMismatch);
        }
        let m = self.registers.len();
        let mut i: usize = 0;
        while i < m
            invariant
                i <= m,
                m == self.registers@.len(),
                m == other.registers@.len(),
                m == old(self).registers@.len(),
                self.p == old(self).p,
                forall|j: int| 0 <= j < i ==> self.registers@[j] == greater(
                    old(self).registers@[j],
                    other.registers@[j],
                ),
                forall|j: int| i <= j < m ==> self.registers@[j] == old(self).registers@[j],
            decreases m - i,
        {
            if self.registers[i] < other.registers[i] {
                self.registers.set(i, other.registers[i]);
            }
            i += 1;
        }
        proof {
            assert(self@.registers =~= merged(old(self)@.registers, other@.registers));
            lemma_same_size_same_precision(old(self)@, other@);
        }
        Ok(())
    }

    /// Sets every register to zero.
    pub fn clear(&mut self)
        requires
            old(self)@.wf(),
        ensures
            final(self)@.precision == old(self)@.precision,
            final(self)@.registers == Seq::new(old(self)@.registers.len(), |i: int| 0u8),
            final(self)@.wf(),
    {
        let m = self.registers.len();
        let mut i: usize = 0;
        while i < m
            invariant
                i <= m,
                m == self.registers@.len(),
                self.p == old(self).p,
                forall|j: int| 0 <= j < i ==> self.registers@[j] == 0,
            decreases m - i,
        {
            self.registers.set(i, 0);
            i += 1;
        }
        assert(self@.registers =~= Seq::new(old(self)@.registers.len(), |i: int| 0u8));
    }
}

/// Powers of two grow strictly.
pub proof fn lemma_two_to_strict(a: nat, b: nat)
    requires
        a < b,
    ensures
        two_to(a) < two_to(b),
    decreases b,
{
    lemma_two_to_positive(a);
    if a + 1 < b {
        lemma_two_to_strict(a, (b - 1) as nat);
    }
}

/// Sketches with equally many registers have the same precision.
pub proof fn lemma_same_size_same_precision(a: HllModel, b: HllModel)
    requires
        a.wf(),
        b.wf(),
        a.registers.len() == b.registers.len(),
    ensures
        a.precision == b.precision,
{
    if a.precision < b.precision {
        lemma_two_to_strict(a.precision as nat, b.precision as nat);
    } else if b.precision < a.precision {
        lemma_two_to_strict(b.precision as nat, a.precision as nat);
    }
}

/// Merging is commutative.
pub proof fn lemma_merge_commutative(a: HllModel, b: HllModel)
    requires
        a.wf(),
        b.wf(),
        a.precision == b.precision,
    ensures
        a.merge(b) == b.merge(a),
{
    assert(merged(a.registers, b.registers) =~= merged(b.registers, a.registers));
}

/// Merging a sketch with itself changes nothing.
pub proof fn lemma_merge_idempotent(a: HllModel)
    ensures
        a.merge(a) == a,
{
    assert(merged(a.registers, a.registers) =~= a.registers);
}

/// Merging is associative.
pub proof fn lemma_merge_associative(a: HllModel, b: HllModel, c: HllModel)
    requires
        a.wf(),
        b.wf(),
        c.wf(),
        a.precision == b.precision,
        b.precision == c.precision,
    ensures
        a.merge(b).merge(c) == a.merge(b.merge(c)),
{
    assert(merged(merged(a.registers, b.registers), c.registers) =~= merged(
        a.registers,
        merged(b.registers, c.registers),
    ));
}

/// An empty sketch has no register above zero: all of them count as zeros.
pub proof fn lemma_empty_all_zero(registers: Seq<u8>, upto: nat)
    requires
        upto <= registers.len(),
        forall|i: int| 0 <= i < registers.len() ==> registers[i] == 0,
    ensures
        zeros_upto(registers, upto) == upto,
    decreases upto,
{
    if upto > 0 {
        lemma_empty_all_zero(registers, (upto - 1) as nat);
    }
}

/// Registers only grow: adding an item keeps the number of registers and
/// lowers none of them.
pub proof fn lemma_add_only_raises(m: HllModel, bytes: Seq<u8>, i: int)
    requires
        m.wf(),
        0 <= i < m.registers.len(),
    ensures
        m.add(bytes).registers.len() == m.registers.len(),
        m.add(bytes).registers[i] >= m.registers[i],
{
    lemma_two_to_positive(m.precision as nat);
}

/// A merged sketch holds, in every register, at least what either sketch
/// held there.
pub proof fn lemma_merge_covers_both(a: HllModel, b: HllModel, i: int)
    requires
        a.wf(),
        b.wf(),
        a.precision == b.precision,
        0 <= i < a.registers.len(),
    ensures
        a.merge(b).registers[i] >= a.registers[i],
        a.merge(b).registers[i] >= b.registers[i],
{
}

} // verus!
