//! The filter builder and its parameter optimization.
//!
//! A configuration is *resolved*: its bit size and hash count are concrete,
//! the bit size is a positive multiple of the 64-bit word width, and there
//! is at least one hash.  The inverse formulas here derive one parameter
//! from the others with exact integer arithmetic: `ln 2` enters as the
//! 18-digit rational `LN2_NUM / LN2_DEN`, and every quotient is taken as a
//! ceiling, the rounding direction the optimization formulas call for.
//! Deriving a bit size from a tolerated false-positive probability, and the
//! best-case probability of a finished configuration, need logarithms and
//! powers of fractional values and therefore live with the caller; a bit
//! size obtained that way is aligned with [`align_to_word`] before use.
use vstd::prelude::*;

verus! {

use crate::FilterError;
use crate::bloom::BloomFilter;
use crate::bloom::CountingBloomFilter;

/// Numerator of the rational approximation of `ln 2`.
pub const LN2_NUM: u64 = 693147180559945309;

/// Denominator of the rational approximation of `ln 2`.
pub const LN2_DEN: u64 = 1000000000000000000;

/// The ceiling of `a / b`.
pub open spec fn ceil_div(a: int, b: int) -> int
    recommends
        a >= 0,
        b >= 1,
{
    (a + b - 1) / b
}

/// The optimal hash count for `n` expected elements in `m` bits:
/// `ceil(m * ln 2 / n)`, saturated to the `u32` range.
pub open spec fn spec_optimal_k(n: u64, m: u64) -> int
    recommends
        n >= 1,
{
    let k = ceil_div(m * LN2_NUM, n * LN2_DEN);
    if k > u32::MAX {
        u32::MAX as int
    } else {
        k
    }
}

/// The element count a configuration of `m` bits and `k` hashes is optimal
/// for: `ceil(m * ln 2 / k)`.
pub open spec fn spec_optimal_n(k: u32, m: u64) -> int
    recommends
        k >= 1,
{
    ceil_div(m * LN2_NUM, k * LN2_DEN)
}

/// A product of two factors below the `u64` range stays well inside the
/// `u128` range.
proof fn lemma_mul_bounds(a: int, b: int)
    by (nonlinear_arith)
    requires
        0 <= a <= u64::MAX,
        0 <= b <= u64::MAX,
    ensures
        0 <= a * b <= (u64::MAX as int) * (u64::MAX as int),
        a * b <= a * (u64::MAX as int),
        a * b <= (u64::MAX as int) * b,
        a >= 1 ==> a * b >= b,
        b >= 1 ==> a * b >= a,
{
}

/// The ceiling of `num / den`, for quotients that fit the `u128` range.
fn ceil_div_u128(num: u128, den: u128) -> (q: u128)
    requires
        den >= 1,
        num + den <= u128::MAX,
    ensures
        q == ceil_div(num as int, den as int),
{
    (num + den - 1) / den
}

/// Calculates the optimal number of hash functions given `n` (expected
/// number of elements) and `m` (size of the filter in bits).
pub fn optimal_k(n: u64, m: u64) -> (k: u32)
    requires
        n >= 1,
    ensures
        k == spec_optimal_k(n, m),
{
    proof {
        lemma_mul_bounds(m as int, LN2_NUM as int);
        lemma_mul_bounds(n as int, LN2_DEN as int);
    }
    let num: u128 = (m as u128) * (LN2_NUM as u128);
    let den: u128 = (n as u128) * (LN2_DEN as u128);
    let q = ceil_div_u128(num, den);
    if q > u32::MAX as u128 {
        u32::MAX
    } else {
        q as u32
    }
}

/// Calculates the number of elements a filter of size `m` bits with `k`
/// hash functions is optimal for.
pub fn optimal_n(k: u32, m: u64) -> (n: u64)
    requires
        k >= 1,
    ensures
        n == spec_optimal_n(k, m),
{
    proof {
        lemma_mul_bounds(m as int, LN2_NUM as int);
        lemma_mul_bounds(k as int, LN2_DEN as int);
    }
    let num: u128 = (m as u128) * (LN2_NUM as u128);
    let den: u128 = (k as u128) * (LN2_DEN as u128);
    let q = ceil_div_u128(num, den);
    proof {
        assert((m as int) * (LN2_NUM as int) <= (m as int) * (den as int)) by (nonlinear_arith)
            requires
                LN2_NUM as int <= den as int,
                m as int >= 0,
        ;
        assert((m as int) * (den as int) + den - 1 < (m as int + 1) * (den as int)) by (nonlinear_arith)
            requires
                den as int >= 1,
        ;
        assert((num as int + den - 1) / (den as int) <= m as int) by (nonlinear_arith)
            requires
                den as int >= 1,
                num as int + den - 1 < (m as int + 1) * (den as int),
        ;
    }
    q as u64
}

/// The least multiple of the 64-bit word width that is at least `bits`.
pub fn align_to_word(bits: u64) -> (r: u64)
    requires
        bits <= u64::MAX - 63,
    ensures
        r % 64 == 0,
        bits <= r < bits + 64,
{
    if bits % 64 == 0 {
        bits
    } else {
        (bits / 64) * 64 + 64
    }
}

/// A resolved filter configuration: the size of the filter in bits, the
/// number of hash functions, the element count the pair is optimal for, and
/// whether the counting filter counts repeated insertions of one element.
#[derive(Clone, Copy, Debug, PartialEq, Eq, Structural)]
pub struct FilterBuilder {
    pub expected_elements: u64,
    pub size: u64,
    pub hashes: u32,
    pub enable_repeat_insert: bool,
}

impl FilterBuilder {
    /// A usable configuration: word-aligned positive bit size, at least one
    /// hash, and a size addressable on this machine.
    pub open spec fn wf(&self) -> bool {
        &&& self.size >= 64
        &&& self.size % 64 == 0
        &&& self.size <= usize::MAX
        &&& self.hashes >= 1
    }

    /// Constructs a builder from the size of the filter in bits and the
    /// number of hashes; the element count the configuration is optimal for
    /// is back-computed from them.  Repeated insertion starts enabled.
    pub fn from_size_and_hashes(size: u64, hashes: u32) -> (r: FilterBuilder)
        requires
            size >= 64,
            size % 64 == 0,
            size <= usize::MAX,
            hashes >= 1,
        ensures
            r.size == size,
            r.hashes == hashes,
            r.expected_elements == spec_optimal_n(hashes, size),
            r.enable_repeat_insert,
            r.wf(),
    {
        let n = optimal_n(hashes, size);
        FilterBuilder { expected_elements: n, size, hashes, enable_repeat_insert: true }
    }

    /// Toggles whether the counting filter increments its counters again
    /// when an element is added that it already contains.
    pub fn enable_repeat_insert(&mut self, enable: bool)
        ensures
            final(self).enable_repeat_insert == enable,
            final(self).expected_elements == old(self).expected_elements,
            final(self).size == old(self).size,
            final(self).hashes == old(self).hashes,
    {
        self.enable_repeat_insert = enable;
    }

    /// Whether two configurations may be combined by union or intersection:
    /// true exactly when bit size and hash count both match.
    pub fn is_compatible_to(&self, other: &FilterBuilder) -> (r: bool)
        ensures
            r == (self.size == other.size && self.hashes == other.hashes),
    {
        self.size == other.size && self.hashes == other.hashes
    }

    /// Constructs a Bloom filter over freshly allocated storage sized to
    /// this configuration.
    pub fn build_bloom_filter(&self) -> (r: BloomFilter)
        requires
            self.wf(),
        ensures
            r.wf(),
            r.spec_config() == *self,
            r@ == crate::vec::all_false(self.size as nat),
    {
        BloomFilter::new(*self)
    }

    /// Constructs a counting Bloom filter over freshly allocated storage
    /// sized to this configuration.
    pub fn build_counting_bloom_filter(&self) -> (r: CountingBloomFilter)
        requires
            self.wf(),
        ensures
            r.wf(),
            r.spec_config() == *self,
            r@ == crate::vec::all_zero(self.size as nat),
    {
        CountingBloomFilter::new(*self)
    }
}

} // verus!
