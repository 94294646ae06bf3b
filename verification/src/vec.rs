//! Word-packed storage: a bit vector for the plain Bloom filter and a
//! vector of 4-bit saturating counters for the counting Bloom filter.
//!
//! Both vectors store their payload in 64-bit words.  Bit `i` of the bit
//! vector lives in word `i / 64` at sub-position `i % 64`; counter `i` of
//! the counter vector occupies the 4-bit group `[(15 - i % 16) * 4, +4)`
//! of word `i / 16`, so the counter with the lowest index sits in the
//! highest-order nibble of its word.
use vstd::prelude::*;

verus! {

use crate::FilterError;

/// A sequence of `n` unset bits.
pub open spec fn all_false(n: nat) -> Seq<bool> {
    Seq::new(n, |i: int| false)
}

/// The pointwise disjunction of two equally long bit sequences.
pub open spec fn or_bits(a: Seq<bool>, b: Seq<bool>) -> Seq<bool>
    recommends
        a.len() == b.len(),
{
    Seq::new(a.len(), |i: int| a[i] || b[i])
}

/// The pointwise conjunction of two equally long bit sequences.
pub open spec fn and_bits(a: Seq<bool>, b: Seq<bool>) -> Seq<bool>
    recommends
        a.len() == b.len(),
{
    Seq::new(a.len(), |i: int| a[i] && b[i])
}

/// The value of bit `b` (counting from the least significant bit) of `word`.
pub open spec fn bit_at(word: u64, b: u64) -> bool
    recommends
        b < 64,
{
    ((word >> b) & 1) == 1
}

/// The value of the 4-bit counter in group `slot` of `word`; group 0 is the
/// highest-order nibble.
pub open spec fn counter_at(word: u64, slot: u64) -> u64
    recommends
        slot < 16,
{
    (word >> (((15 - slot) * 4) as u64)) & 15
}

proof fn lemma_bit_zero(b: u64)
    by (bit_vector)
    requires
        b < 64,
    ensures
        !bit_at(0u64, b),
{
}

proof fn lemma_bit_flag(w: u64, b: u64)
    by (bit_vector)
    requires
        b < 64,
    ensures
        ((w & (1u64 << b)) != 0) == bit_at(w, b),
{
}

proof fn lemma_bit_set(w: u64, b: u64, c: u64)
    by (bit_vector)
    requires
        b < 64,
        c < 64,
    ensures
        bit_at(w | (1u64 << b), b),
        b != c ==> bit_at(w | (1u64 << b), c) == bit_at(w, c),
{
}

proof fn lemma_bit_or(x: u64, y: u64, b: u64)
    by (bit_vector)
    requires
        b < 64,
    ensures
        bit_at(x | y, b) == (bit_at(x, b) || bit_at(y, b)),
{
}

proof fn lemma_bit_and(x: u64, y: u64, b: u64)
    by (bit_vector)
    requires
        b < 64,
    ensures
        bit_at(x & y, b) == (bit_at(x, b) && bit_at(y, b)),
{
}

/// For an index `i` into a vector of `n` word-packed groups of `g` entries,
/// the word number `i / g` is in range and the sub-position `i % g` is below
/// `g`.
proof fn lemma_group_index(i: int, n: int, g: int)
    by (nonlinear_arith)
    requires
        0 <= i < n * g,
        g >= 1,
    ensures
        0 <= i / g < n,
        0 <= i % g < g,
        i == (i / g) * g + (i % g),
{
}

/// Distinct indices that share a word differ in their sub-position.
proof fn lemma_group_distinct(i: int, j: int, g: int)
    by (nonlinear_arith)
    requires
        0 <= i,
        0 <= j,
        g >= 1,
        i / g == j / g,
        i % g == j % g,
    ensures
        i == j,
{
}

/// A bitmap: `slots` 64-bit words holding `slots * 64` individually
/// addressable bits.
#[derive(Debug, Clone)]
pub struct BloomBitVec {
    storage: Vec<u64>,
}

impl View for BloomBitVec {
    type V = Seq<bool>;

    closed spec fn view(&self) -> Seq<bool> {
        Seq::new(
            self.storage@.len() * 64,
            |i: int| bit_at(self.storage@[i / 64], (i % 64) as u64),
        )
    }
}

impl BloomBitVec {
    /// A vector of `slots` words with every bit unset.
    pub fn new(slots: usize) -> (r: Self)
        ensures
            r@ == all_false((slots * 64) as nat),
    {
        let r = BloomBitVec { storage: vec![0u64; slots] };
        proof {
            assert forall|i: int| 0 <= i < r@.len() implies !r@[i] by {
                lemma_group_index(i, r.storage@.len() as int, 64);
                lemma_bit_zero((i % 64) as u64);
            }
            assert(r@ =~= all_false((slots * 64) as nat));
        }
        r
    }

    /// Sets bit `index`.
    pub fn set(&mut self, index: usize)
        requires
            index < old(self)@.len(),
        ensures
            final(self)@ == old(self)@.update(index as int, true),
    {
        proof {
            lemma_group_index(index as int, self.storage@.len() as int, 64);
        }
        let w: usize = index / 64;
        let b: u64 = (index % 64) as u64;
        let word: u64 = self.storage[w];
        self.storage[w] = word | (1u64 << b);
        proof {
            self.lemma_one_word_update(*old(self), w as int, index as int, true);
            assert(self@ =~= old(self)@.update(index as int, true));
        }
    }

    /// The value of bit `index`.
    pub fn get(&self, index: usize) -> (r: bool)
        requires
            index < self@.len(),
        ensures
            r == self@[index as int],
    {
        proof {
            lemma_group_index(index as int, self.storage@.len() as int, 64);
        }
        let w: usize = index / 64;
        let b: u64 = (index % 64) as u64;
        proof {
            lemma_bit_flag(self.storage@[w as int], b);
        }
        (self.storage[w] & (1u64 << b)) != 0
    }

    /// Reads bit `index` and then sets it, in one pass; the result is the
    /// value the bit had before the call.
    pub fn get_and_set(&mut self, index: usize) -> (r: bool)
        requires
            index < old(self)@.len(),
        ensures
            r == old(self)@[index as int],
            final(self)@ == old(self)@.update(index as int, true),
    {
        proof {
            lemma_group_index(index as int, self.storage@.len() as int, 64);
        }
        let w: usize = index / 64;
        let b: u64 = (index % 64) as u64;
        let word: u64 = self.storage[w];
        proof {
            lemma_bit_flag(word, b);
        }
        let r = (word & (1u64 << b)) != 0;
        self.storage[w] = word | (1u64 << b);
        proof {
            self.lemma_one_word_update(*old(self), w as int, index as int, true);
            assert(self@ =~= old(self)@.update(index as int, true));
        }
        r
    }

    /// After `self.storage` was changed only at word `w`, by setting bit
    /// `index` of that word, the bit view equals the old view updated at
    /// `index`.
    proof fn lemma_one_word_update(&self, pre: BloomBitVec, w: int, index: int, v: bool)
        requires
            0 <= index < pre@.len(),
            w == index / 64,
            self.storage@.len() == pre.storage@.len(),
            forall|t: int|
                0 <= t < pre.storage@.len() && t != w ==> self.storage@[t] == pre.storage@[t],
            self.storage@[w] == pre.storage@[w] | (1u64 << ((index % 64) as u64)),
        ensures
            forall|i: int| 0 <= i < self@.len() ==> self@[i] == pre@.update(index, true)[i],
            self@.len() == pre@.len(),
    {
        let b = (index % 64) as u64;
        assert forall|i: int| 0 <= i < self@.len() implies self@[i] == pre@.update(index, true)[i] by {
            lemma_group_index(i, self.storage@.len() as int, 64);
            lemma_group_index(index, self.storage@.len() as int, 64);
            if i / 64 == w {
                lemma_bit_set(pre.storage@[w], b, (i % 64) as u64);
                if i % 64 == index % 64 {
                    lemma_group_distinct(i, index, 64);
                }
            }
        }
    }

    /// Element-wise union: every word of `self` is or-ed with the matching
    /// word of `other`.  Fails, changing nothing, when the word counts
    /// differ.
    pub fn or(&mut self, other: &BloomBitVec) -> (r: Result<(), FilterError>)
        ensures
            r is Ok <==> old(self)@.len() == other@.len(),
            r is Ok ==> final(self)@ == or_bits(old(self)@, other@),
            r is Err ==> *final(self) == *old(self) && r == Err::<(), FilterError>(
                FilterError::IncompatibleSize,
            ),
    {
        if self.storage.len() != other.storage.len() {
            return Err(FilterError::IncompatibleSize);
        }
        let n = self.storage.len();
        let mut j: usize = 0;
        while j < n
            invariant
                j <= n,
                n == self.storage@.len(),
                n == other.storage@.len(),
                n == old(self).storage@.len(),
                forall|t: int|
                    0 <= t < j ==> self.storage@[t] == (old(self).storage@[t] | other.storage@[t]),
                forall|t: int| j <= t < n ==> self.storage@[t] == old(self).storage@[t],
            decreases n - j,
        {
            let word = self.storage[j] | other.storage[j];
            self.storage[j] = word;
            j += 1;
        }
        proof {
            let target = or_bits(old(self)@, other@);
            assert forall|i: int| 0 <= i < self@.len() implies self@[i] == target[i] by {
                lemma_group_index(i, n as int, 64);
                lemma_bit_or(old(self).storage@[i / 64], other.storage@[i / 64], (i % 64) as u64);
            }
            assert(self@ =~= target);
        }
        Ok(())
    }

    /// Element-wise intersection: every word of `self` is and-ed with the
    /// matching word of `other`.  Fails, changing nothing, when the word
    /// counts differ.
    pub fn and(&mut self, other: &BloomBitVec) -> (r: Result<(), FilterError>)
        ensures
            r is Ok <==> old(self)@.len() == other@.len(),
            r is Ok ==> final(self)@ == and_bits(old(self)@, other@),
            r is Err ==> *final(self) == *old(self) && r == Err::<(), FilterError>(
                FilterError::IncompatibleSize,
            ),
    {
        if self.storage.len() != other.storage.len() {
            return Err(FilterError::IncompatibleSize);
        }
        let n = self.storage.len();
        let mut j: usize = 0;
        while j < n
            invariant
                j <= n,
                n == self.storage@.len(),
                n == other.storage@.len(),
                n == old(self).storage@.len(),
                forall|t: int|
                    0 <= t < j ==> self.storage@[t] == (old(self).storage@[t] & other.storage@[t]),
                forall|t: int| j <= t < n ==> self.storage@[t] == old(self).storage@[t],
            decreases n - j,
        {
            let word = self.storage[j] & other.storage[j];
            self.storage[j] = word;
            j += 1;
        }
        proof {
            let target = and_bits(old(self)@, other@);
            assert forall|i: int| 0 <= i < self@.len() implies self@[i] == target[i] by {
                lemma_group_index(i, n as int, 64);
                lemma_bit_and(old(self).storage@[i / 64], other.storage@[i / 64], (i % 64) as u64);
            }
            assert(self@ =~= target);
        }
        Ok(())
    }

    /// Unsets every bit, keeping the word count.
    pub fn clear(&mut self)
        ensures
            final(self)@ == all_false(old(self)@.len()),
    {
        let n = self.storage.len();
        let mut j: usize = 0;
        while j < n
            invariant
                j <= n,
                n == self.storage@.len(),
                forall|t: int| 0 <= t < j ==> self.storage@[t] == 0u64,
            decreases n - j,
        {
            self.storage[j] = 0u64;
            j += 1;
        }
        proof {
            assert forall|i: int| 0 <= i < self@.len() implies !self@[i] by {
                lemma_group_index(i, n as int, 64);
                lemma_bit_zero((i % 64) as u64);
            }
            assert(self@ =~= all_false(old(self)@.len()));
        }
    }

    /// Whether the vector holds zero words (not whether all bits are unset).
    pub fn is_empty(&self) -> (r: bool)
        ensures
            r == (self@.len() == 0),
    {
        self.storage.is_empty()
    }
}

/// A sequence of `n` counters, all zero.
pub open spec fn all_zero(n: nat) -> Seq<u64> {
    Seq::new(n, |i: int| 0u64)
}

/// A counter raised by one, capped at 15.
pub open spec fn sat_inc(v: u64) -> u64 {
    if v >= 15 {
        v
    } else {
        (v + 1) as u64
    }
}

/// A counter lowered by one, stopping at 0.
pub open spec fn sat_dec(v: u64) -> u64 {
    if v == 0 {
        0u64
    } else {
        (v - 1) as u64
    }
}

/// `word` with the 4-bit group `slot` replaced by `v`; group 0 is the
/// highest-order nibble.
pub open spec fn nibble_set(word: u64, slot: u64, v: u64) -> u64
    recommends
        slot < 16,
        v <= 15,
{
    (word & !(15u64 << (((15 - slot) * 4) as u64))) | (v << (((15 - slot) * 4) as u64))
}

proof fn lemma_counter_zero(slot: u64)
    by (bit_vector)
    requires
        slot < 16,
    ensures
        counter_at(0u64, slot) == 0,
{
}

proof fn lemma_counter_bound(w: u64, slot: u64)
    by (bit_vector)
    requires
        slot < 16,
    ensures
        counter_at(w, slot) <= 15,
{
}

proof fn lemma_counter_set(w: u64, slot: u64, v: u64, c: u64)
    by (bit_vector)
    requires
        slot < 16,
        c < 16,
        v <= 15,
    ensures
        counter_at(nibble_set(w, slot, v), slot) == v,
        slot != c ==> counter_at(nibble_set(w, slot, v), c) == counter_at(w, c),
{
}

/// A vector of 4-bit saturating counters: `slots` 64-bit words holding
/// `slots * 16` counters, each ranging over `0 ..= 15`.
#[derive(Debug, Clone)]
pub struct CountingVec {
    storage: Vec<u64>,
}

impl View for CountingVec {
    type V = Seq<u64>;

    closed spec fn view(&self) -> Seq<u64> {
        Seq::new(
            self.storage@.len() * 16,
            |i: int| counter_at(self.storage@[i / 16], (i % 16) as u64),
        )
    }
}

impl CountingVec {
    /// A vector of `slots` words with every counter at zero.
    pub fn new(slots: usize) -> (r: Self)
        ensures
            r@ == all_zero((slots * 16) as nat),
    {
        let r = CountingVec { storage: vec![0u64; slots] };
        proof {
            assert forall|i: int| 0 <= i < r@.len() implies r@[i] == 0 by {
                lemma_group_index(i, r.storage@.len() as int, 16);
                lemma_counter_zero((i % 16) as u64);
            }
            assert(r@ =~= all_zero((slots * 16) as nat));
        }
        r
    }

    /// The value of counter `index`, in `0 ..= 15`.
    pub fn get(&self, index: usize) -> (r: u64)
        requires
            index < self@.len(),
        ensures
            r == self@[index as int],
            r <= 15,
    {
        proof {
            lemma_group_index(index as int, self.storage@.len() as int, 16);
            lemma_counter_bound(self.storage@[index as int / 16], (index % 16) as u64);
        }
        let w: usize = index / 16;
        let b: u64 = (index % 16) as u64;
        (self.storage[w] >> ((15 - b) * 4)) & 15
    }

    /// After `self.storage` was changed only at word `w`, by replacing the
    /// nibble of counter `index` with `v`, the counter view equals the old
    /// view updated at `index`.
    proof fn lemma_one_counter_update(&self, pre: CountingVec, w: int, index: int, v: u64)
        requires
            0 <= index < pre@.len(),
            w == index / 16,
            v <= 15,
            self.storage@.len() == pre.storage@.len(),
            forall|t: int|
                0 <= t < pre.storage@.len() && t != w ==> self.storage@[t] == pre.storage@[t],
            self.storage@[w] == nibble_set(pre.storage@[w], (index % 16) as u64, v),
        ensures
            self@.len() == pre@.len(),
            forall|i: int| 0 <= i < self@.len() ==> self@[i] == pre@.update(index, v)[i],
    {
        let b = (index % 16) as u64;
        assert forall|i: int| 0 <= i < self@.len() implies self@[i] == pre@.update(index, v)[i] by {
            lemma_group_index(i, self.storage@.len() as int, 16);
            lemma_group_index(index, self.storage@.len() as int, 16);
            if i / 16 == w {
                lemma_counter_set(pre.storage@[w], b, v, (i % 16) as u64);
                if i % 16 == index % 16 {
                    lemma_group_distinct(i, index, 16);
                }
            }
        }
    }

    /// Raises counter `index` by one; a counter already at 15 is left
    /// unchanged (saturation, not an error).
    pub fn increment(&mut self, index: usize)
        requires
            index < old(self)@.len(),
        ensures
            final(self)@ == old(self)@.update(index as int, sat_inc(old(self)@[index as int])),
    {
        let current = self.get(index);
        if current != 15 {
            proof {
                lemma_group_index(index as int, self.storage@.len() as int, 16);
            }
            let w: usize = index / 16;
            let b: u64 = (index % 16) as u64;
            let shift: u64 = (15 - b) * 4;
            let word: u64 = self.storage[w];
            self.storage[w] = (word & !(15u64 << shift)) | ((current + 1) << shift);
            proof {
                self.lemma_one_counter_update(*old(self), w as int, index as int, (current + 1) as u64);
                assert(self@ =~= old(self)@.update(
                    index as int,
                    sat_inc(old(self)@[index as int]),
                ));
            }
        } else {
            proof {
                assert(self@ =~= old(self)@.update(
                    index as int,
                    sat_inc(old(self)@[index as int]),
                ));
            }
        }
    }

    /// Lowers counter `index` by one; a counter already at 0 is left
    /// unchanged (it never wraps below zero).
    pub fn decrement(&mut self, index: usize)
        requires
            index < old(self)@.len(),
        ensures
            final(self)@ == old(self)@.update(index as int, sat_dec(old(self)@[index as int])),
    {
        let current = self.get(index);
        if current > 0 {
            proof {
                lemma_group_index(index as int, self.storage@.len() as int, 16);
            }
            let w: usize = index / 16;
            let b: u64 = (index % 16) as u64;
            let shift: u64 = (15 - b) * 4;
            let word: u64 = self.storage[w];
            self.storage[w] = (word & !(15u64 << shift)) | ((current - 1) << shift);
            proof {
                self.lemma_one_counter_update(*old(self), w as int, index as int, (current - 1) as u64);
                assert(self@ =~= old(self)@.update(
                    index as int,
                    sat_dec(old(self)@[index as int]),
                ));
            }
        } else {
            proof {
                assert(self@ =~= old(self)@.update(
                    index as int,
                    sat_dec(old(self)@[index as int]),
                ));
            }
        }
    }

    /// Resets every counter to zero, keeping the word count.
    pub fn clear(&mut self)
        ensures
            final(self)@ == all_zero(old(self)@.len()),
    {
        let n = self.storage.len();
        let mut j: usize = 0;
        while j < n
            invariant
                j <= n,
                n == self.storage@.len(),
                forall|t: int| 0 <= t < j ==> self.storage@[t] == 0u64,
            decreases n - j,
        {
            self.storage[j] = 0u64;
            j += 1;
        }
        proof {
            let target = all_zero(old(self)@.len());
            assert forall|i: int| 0 <= i < self@.len() implies self@[i] == target[i] by {
                lemma_group_index(i, n as int, 16);
                lemma_counter_zero((i % 16) as u64);
            }
            assert(self@ =~= target);
        }
    }
}

} // verus!
