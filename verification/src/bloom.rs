//! The Bloom filter and the counting Bloom filter.
//!
//! Both filters hash an element to `hashes` positions in `[0, size)` (see
//! [`crate::hash`]) and mutate or query their storage at exactly those
//! positions.  The plain filter keeps one bit per position; the counting
//! filter keeps a 4-bit saturating counter per position and so also
//! supports removal.
use vstd::prelude::*;

verus! {

use crate::FilterError;
use crate::builder::FilterBuilder;
use crate::hash::element_hashes;
use crate::hash::position;
use crate::hash::spec_h1;
use crate::hash::spec_h2;
use crate::hash::spec_position;
use crate::vec::BloomBitVec;
use crate::vec::CountingVec;
use crate::vec::all_false;
use crate::vec::all_zero;
use crate::vec::and_bits;
use crate::vec::or_bits;
use crate::vec::sat_dec;
use crate::vec::sat_inc;

/// Whether all `k` positions of element `e` are set in `bits`.
pub open spec fn spec_bloom_contains(bits: Seq<bool>, e: Seq<u8>, k: u32, m: u64) -> bool
    recommends
        m >= 1,
        bits.len() == m,
{
    forall|i: u64| i < k ==> bits[spec_position(e, i, m) as int]
}

/// Whether one of the first `t` positions of element `e` is `p`.
pub open spec fn spec_hits(e: Seq<u8>, t: int, m: u64, p: int) -> bool {
    exists|j: u64| (j as int) < t && spec_position(e, j, m) as int == p
}

/// `bits` with all `k` positions of element `e` set.
pub open spec fn spec_bloom_add(bits: Seq<bool>, e: Seq<u8>, k: u32, m: u64) -> Seq<bool>
    recommends
        m >= 1,
        bits.len() == m,
{
    Seq::new(bits.len(), |p: int| bits[p] || spec_hits(e, k as int, m, p))
}

/// Whether all `k` counters of element `e` are nonzero in `cs`.
pub open spec fn spec_counting_contains(cs: Seq<u64>, e: Seq<u8>, k: u32, m: u64) -> bool
    recommends
        m >= 1,
        cs.len() == m,
{
    forall|i: u64| i < k ==> cs[spec_position(e, i, m) as int] > 0
}

/// `cs` after saturating increments at the first `t` positions of element
/// `e`, applied in position order (a position hit twice is incremented
/// twice).
pub open spec fn spec_apply_incs(cs: Seq<u64>, e: Seq<u8>, m: u64, t: int) -> Seq<u64>
    recommends
        m >= 1,
        cs.len() == m,
    decreases t,
{
    if t <= 0 {
        cs
    } else {
        let prev = spec_apply_incs(cs, e, m, t - 1);
        let p = spec_position(e, (t - 1) as u64, m) as int;
        prev.update(p, sat_inc(prev[p]))
    }
}

/// `cs` after saturating decrements at the first `t` positions of element
/// `e`, applied in position order.
pub open spec fn spec_apply_decs(cs: Seq<u64>, e: Seq<u8>, m: u64, t: int) -> Seq<u64>
    recommends
        m >= 1,
        cs.len() == m,
    decreases t,
{
    if t <= 0 {
        cs
    } else {
        let prev = spec_apply_decs(cs, e, m, t - 1);
        let p = spec_position(e, (t - 1) as u64, m) as int;
        prev.update(p, sat_dec(prev[p]))
    }
}

/// A Bloom filter: a resolved configuration and one bit of storage per
/// position.  Supports insertion and membership queries, but not removal;
/// membership answers have no false negatives.
#[derive(Debug, Clone)]
pub struct BloomFilter {
    config: FilterBuilder,
    bit_set: BloomBitVec,
}

impl View for BloomFilter {
    type V = Seq<bool>;

    closed spec fn view(&self) -> Seq<bool> {
        self.bit_set@
    }
}

impl BloomFilter {
    /// The configuration the filter was built with.
    pub closed spec fn spec_config(&self) -> FilterBuilder {
        self.config
    }

    /// The storage matches the configuration, and the configuration is
    /// usable.
    pub closed spec fn wf(&self) -> bool {
        self.config.wf() && self.bit_set@.len() == self.config.size
    }

    /// A fresh filter of the given configuration, with every bit unset.
    pub fn new(config: FilterBuilder) -> (r: BloomFilter)
        requires
            config.wf(),
        ensures
            r.wf(),
            r.spec_config() == config,
            r@ == all_false(config.size as nat),
    {
        let slots: usize = (config.size / 64) as usize;
        let bit_set = BloomBitVec::new(slots);
        BloomFilter { config, bit_set }
    }

    /// Adds an element: sets all of its positions.  Returns whether the
    /// element was novel, that is, whether at least one of its positions
    /// was previously unset.
    pub fn add(&mut self, element: &[u8]) -> (novel: bool)
        requires
            old(self).wf(),
        ensures
            final(self).wf(),
            final(self).spec_config() == old(self).spec_config(),
            final(self)@ == spec_bloom_add(
                old(self)@,
                element@,
                old(self).spec_config().hashes,
                old(self).spec_config().size,
            ),
            novel == !spec_bloom_contains(
                old(self)@,
                element@,
                old(self).spec_config().hashes,
                old(self).spec_config().size,
            ),
    {
        let (h1, h2) = element_hashes(element);
        let k: u32 = self.config.hashes;
        let m: u64 = self.config.size;
        let mut i: u32 = 0;
        let mut novel: bool = false;
        while i < k
            invariant
                old(self).wf(),
                self.config == old(self).config,
                self.wf(),
                k == self.config.hashes,
                m == self.config.size,
                h1 == spec_h1(element@),
                h2 == spec_h2(element@),
                i <= k,
                self@.len() == old(self)@.len(),
                forall|p: int|
                    0 <= p < self@.len() ==> self@[p] == (old(self)@[p] || spec_hits(
                        element@,
                        i as int,
                        m,
                        p,
                    )),
                novel == (exists|j: u64|
                    (j as int) < (i as int) && !old(self)@[spec_position(element@, j, m) as int]),
            decreases k - i,
        {
            let idx = position(h1, h2, i as u64, m);
            proof {
                assert(idx == spec_position(element@, i as u64, m));
            }
            let ghost pre = self@;
            let prior = self.bit_set.get_and_set(idx as usize);
            if !prior {
                novel = true;
            }
            proof {
                let e = element@;
                let ob = old(self)@;
                assert forall|p: int|
                    0 <= p < self@.len() implies self@[p] == (ob[p] || spec_hits(
                        e,
                        i as int + 1,
                        m,
                        p,
                    )) by {
                    if p == idx as int {
                        assert(spec_position(e, i as u64, m) as int == p);
                        assert(spec_hits(e, i as int + 1, m, p));
                        assert(self@[p]);
                    } else {
                        assert(self@[p] == pre[p]);
                        if spec_hits(e, i as int + 1, m, p) {
                            let j = choose|j: u64|
                                (j as int) < i as int + 1 && spec_position(e, j, m) as int == p;
                            assert((j as int) < i as int);
                            assert(spec_hits(e, i as int, m, p));
                        }
                    }
                }
                if !prior {
                    assert(!ob[spec_position(e, i as u64, m) as int]);
                } else {
                    if exists|j: u64|
                        (j as int) < i as int + 1 && !ob[spec_position(e, j, m) as int] {
                        let j = choose|j: u64|
                            (j as int) < i as int + 1 && !ob[spec_position(e, j, m) as int];
                        if j == i as u64 {
                            assert(pre[idx as int]);
                            assert(spec_hits(e, i as int, m, idx as int));
                            let l = choose|l: u64|
                                (l as int) < i as int && spec_position(e, l, m) as int == idx as int;
                            assert(!ob[spec_position(e, l, m) as int]);
                        }
                    }
                }
            }
            i = i + 1;
        }
        proof {
            let e = element@;
            let ob = old(self)@;
            assert(self@ =~= spec_bloom_add(ob, e, k, m));
            if novel {
                let j = choose|j: u64|
                    (j as int) < k as int && !ob[spec_position(e, j, m) as int];
                assert(!spec_bloom_contains(ob, e, k, m));
            } else {
                assert forall|j: u64| j < k implies ob[spec_position(e, j, m) as int] by {
                    if !ob[spec_position(e, j, m) as int] {
                        assert((j as int) < k as int && !ob[spec_position(e, j, m) as int]);
                    }
                }
            }
        }
        novel
    }

    /// Whether the filter may contain the element: true exactly when all
    /// of its positions are set.  Never false for an element that was
    /// added; spuriously true at the configured false-positive rate.
    pub fn contains(&self, element: &[u8]) -> (r: bool)
        requires
            self.wf(),
        ensures
            r == spec_bloom_contains(
                self@,
                element@,
                self.spec_config().hashes,
                self.spec_config().size,
            ),
    {
        let (h1, h2) = element_hashes(element);
        let k: u32 = self.config.hashes;
        let m: u64 = self.config.size;
        let mut i: u32 = 0;
        while i < k
            invariant
                self.wf(),
                k == self.config.hashes,
                m == self.config.size,
                h1 == spec_h1(element@),
                h2 == spec_h2(element@),
                i <= k,
                forall|j: u64| (j as int) < (i as int) ==> self@[spec_position(element@, j, m) as int],
            decreases k - i,
        {
            let idx = position(h1, h2, i as u64, m);
            proof {
                assert(idx == spec_position(element@, i as u64, m));
            }
            if !self.bit_set.get(idx as usize) {
                proof {
                    assert(!self@[spec_position(element@, i as u64, m) as int]);
                }
                return false;
            }
            i = i + 1;
        }
        true
    }

    /// Merges another filter of the same configuration into this one by
    /// element-wise or; approximates the filter of the union of both
    /// element sets.  Fails with a configuration mismatch, changing
    /// nothing, when size or hash count differ.
    pub fn union(&mut self, other: &BloomFilter) -> (r: Result<(), FilterError>)
        requires
            old(self).wf(),
            other.wf(),
        ensures
            final(self).wf(),
            final(self).spec_config() == old(self).spec_config(),
            r is Ok <==> (old(self).spec_config().size == other.spec_config().size
                && old(self).spec_config().hashes == other.spec_config().hashes),
            r is Ok ==> final(self)@ == or_bits(old(self)@, other@),
            r is Err ==> *final(self) == *old(self) && r == Err::<(), FilterError>(
                FilterError::ConfigurationMismatch,
            ),
    {
        if !self.config.is_compatible_to(&other.config) {
            return Err(FilterError::ConfigurationMismatch);
        }
        match self.bit_set.or(&other.bit_set) {
            Ok(()) => Ok(()),
            Err(e) => {
                proof {
                    assert(false);
                }
                Err(e)
            },
        }
    }

    /// Intersects another filter of the same configuration into this one
    /// by element-wise and; approximates the filter of the intersection of
    /// both element sets.  Fails with a configuration mismatch, changing
    /// nothing, when size or hash count differ.
    pub fn intersect(&mut self, other: &BloomFilter) -> (r: Result<(), FilterError>)
        requires
            old(self).wf(),
            other.wf(),
        ensures
            final(self).wf(),
            final(self).spec_config() == old(self).spec_config(),
            r is Ok <==> (old(self).spec_config().size == other.spec_config().size
                && old(self).spec_config().hashes == other.spec_config().hashes),
            r is Ok ==> final(self)@ == and_bits(old(self)@, other@),
            r is Err ==> *final(self) == *old(self) && r == Err::<(), FilterError>(
                FilterError::ConfigurationMismatch,
            ),
    {
        if !self.config.is_compatible_to(&other.config) {
            return Err(FilterError::ConfigurationMismatch);
        }
        match self.bit_set.and(&other.bit_set) {
            Ok(()) => Ok(()),
            Err(e) => {
                proof {
                    assert(false);
                }
                Err(e)
            },
        }
    }

    /// Unsets every bit: afterwards the filter is equivalent to a freshly
    /// built one of the same configuration.
    pub fn clear(&mut self)
        requires
            old(self).wf(),
        ensures
            final(self).wf(),
            final(self).spec_config() == old(self).spec_config(),
            final(self)@ == all_false(old(self).spec_config().size as nat),
    {
        self.bit_set.clear();
    }

    /// The resolved configuration.
    pub fn config(&self) -> (r: FilterBuilder)
        ensures
            r == self.spec_config(),
    {
        self.config
    }

    /// The size of the filter in bits.
    pub fn size(&self) -> (r: u64)
        ensures
            r == self.spec_config().size,
    {
        self.config.size
    }

    /// The number of hash functions.
    pub fn hashes(&self) -> (r: u32)
        ensures
            r == self.spec_config().hashes,
    {
        self.config.hashes
    }

    /// The element count this configuration is optimal for.
    pub fn expected_elements(&self) -> (r: u64)
        ensures
            r == self.spec_config().expected_elements,
    {
        self.config.expected_elements
    }
}

/// A counting Bloom filter: a resolved configuration and one 4-bit
/// saturating counter per position, which makes removal possible at a
/// precision cost (counters shared between elements, saturation at 15).
#[derive(Debug, Clone)]
pub struct CountingBloomFilter {
    config: FilterBuilder,
    counters: CountingVec,
}

impl View for CountingBloomFilter {
    type V = Seq<u64>;

    closed spec fn view(&self) -> Seq<u64> {
        self.counters@
    }
}

impl CountingBloomFilter {
    /// The configuration the filter was built with.
    pub closed spec fn spec_config(&self) -> FilterBuilder {
        self.config
    }

    /// The storage matches the configuration, and the configuration is
    /// usable.
    pub closed spec fn wf(&self) -> bool {
        self.config.wf() && self.counters@.len() == self.config.size
    }

    /// A fresh counting filter of the given configuration, with every
    /// counter at zero.
    pub fn new(config: FilterBuilder) -> (r: CountingBloomFilter)
        requires
            config.wf(),
        ensures
            r.wf(),
            r.spec_config() == config,
            r@ == all_zero(config.size as nat),
    {
        let slots: usize = (config.size / 16) as usize;
        let counters = CountingVec::new(slots);
        proof {
            assert(config.size % 16 == 0) by {
                assert(config.size == 64 * (config.size / 64));
                assert(64 * (config.size / 64) % 16 == 0) by (nonlinear_arith);
            }
            assert((config.size / 16) * 16 == config.size);
        }
        CountingBloomFilter { config, counters }
    }

    /// Adds an element.  When repeated insertion is disabled and the
    /// element is already contained, nothing changes; otherwise all of its
    /// counters are incremented (each saturating at 15).  Returns whether
    /// the counters were incremented.
    pub fn add(&mut self, element: &[u8]) -> (r: bool)
        requires
            old(self).wf(),
        ensures
            final(self).wf(),
            final(self).spec_config() == old(self).spec_config(),
            r == (old(self).spec_config().enable_repeat_insert || !spec_counting_contains(
                old(self)@,
                element@,
                old(self).spec_config().hashes,
                old(self).spec_config().size,
            )),
            r ==> final(self)@ == spec_apply_incs(
                old(self)@,
                element@,
                old(self).spec_config().size,
                old(self).spec_config().hashes as int,
            ),
            !r ==> final(self)@ == old(self)@,
    {
        if !self.config.enable_repeat_insert && self.contains(element) {
            return false;
        }
        let (h1, h2) = element_hashes(element);
        let k: u32 = self.config.hashes;
        let m: u64 = self.config.size;
        let mut i: u32 = 0;
        while i < k
            invariant
                old(self).wf(),
                self.config == old(self).config,
                self.wf(),
                k == self.config.hashes,
                m == self.config.size,
                h1 == spec_h1(element@),
                h2 == spec_h2(element@),
                i <= k,
                self@ == spec_apply_incs(old(self)@, element@, m, i as int),
            decreases k - i,
        {
            let idx = position(h1, h2, i as u64, m);
            proof {
                assert(idx == spec_position(element@, i as u64, m));
                lemma_apply_incs_len(old(self)@, element@, m, i as int);
            }
            self.counters.increment(idx as usize);
            proof {
                assert(self@ == spec_apply_incs(old(self)@, element@, m, i as int + 1));
            }
            i = i + 1;
        }
        true
    }

    /// Removes an element: when it is contained, all of its counters are
    /// decremented (each stopping at 0) and the call returns true;
    /// otherwise nothing changes and the call returns false.
    pub fn remove(&mut self, element: &[u8]) -> (r: bool)
        requires
            old(self).wf(),
        ensures
            final(self).wf(),
            final(self).spec_config() == old(self).spec_config(),
            r == spec_counting_contains(
                old(self)@,
                element@,
                old(self).spec_config().hashes,
                old(self).spec_config().size,
            ),
            r ==> final(self)@ == spec_apply_decs(
                old(self)@,
                element@,
                old(self).spec_config().size,
                old(self).spec_config().hashes as int,
            ),
            !r ==> final(self)@ == old(self)@,
    {
        if !self.contains(element) {
            return false;
        }
        let (h1, h2) = element_hashes(element);
        let k: u32 = self.config.hashes;
        let m: u64 = self.config.size;
        let mut i: u32 = 0;
        while i < k
            invariant
                old(self).wf(),
                self.config == old(self).config,
                self.wf(),
                k == self.config.hashes,
                m == self.config.size,
                h1 == spec_h1(element@),
                h2 == spec_h2(element@),
                i <= k,
                self@ == spec_apply_decs(old(self)@, element@, m, i as int),
            decreases k - i,
        {
            let idx = position(h1, h2, i as u64, m);
            proof {
                assert(idx == spec_position(element@, i as u64, m));
                lemma_apply_decs_len(old(self)@, element@, m, i as int);
            }
            self.counters.decrement(idx as usize);
            proof {
                assert(self@ == spec_apply_decs(old(self)@, element@, m, i as int + 1));
            }
            i = i + 1;
        }
        true
    }

    /// Whether the filter may contain the element: true exactly when all
    /// of its counters are nonzero.
    pub fn contains(&self, element: &[u8]) -> (r: bool)
        requires
            self.wf(),
        ensures
            r == spec_counting_contains(
                self@,
                element@,
                self.spec_config().hashes,
                self.spec_config().size,
            ),
    {
        let (h1, h2) = element_hashes(element);
        let k: u32 = self.config.hashes;
        let m: u64 = self.config.size;
        let mut i: u32 = 0;
        while i < k
            invariant
                self.wf(),
                k == self.config.hashes,
                m == self.config.size,
                h1 == spec_h1(element@),
                h2 == spec_h2(element@),
                i <= k,
                forall|j: u64|
                    (j as int) < (i as int) ==> self@[spec_position(element@, j, m) as int] > 0,
            decreases k - i,
        {
            let idx = position(h1, h2, i as u64, m);
            proof {
                assert(idx == spec_position(element@, i as u64, m));
            }
            if self.counters.get(idx as usize) == 0 {
                proof {
                    assert(self@[spec_position(element@, i as u64, m) as int] == 0);
                }
                return false;
            }
            i = i + 1;
        }
        true
    }

    /// Resets every counter to zero: afterwards the filter is equivalent
    /// to a freshly built one of the same configuration.
    pub fn clear(&mut self)
        requires
            old(self).wf(),
        ensures
            final(self).wf(),
            final(self).spec_config() == old(self).spec_config(),
            final(self)@ == all_zero(old(self).spec_config().size as nat),
    {
        self.counters.clear();
    }

    /// The resolved configuration.
    pub fn config(&self) -> (r: FilterBuilder)
        ensures
            r == self.spec_config(),
    {
        self.config
    }

    /// The size of the filter in counters.
    pub fn size(&self) -> (r: u64)
        ensures
            r == self.spec_config().size,
    {
        self.config.size
    }

    /// The number of hash functions.
    pub fn hashes(&self) -> (r: u32)
        ensures
            r == self.spec_config().hashes,
    {
        self.config.hashes
    }

    /// The element count this configuration is optimal for.
    pub fn expected_elements(&self) -> (r: u64)
        ensures
            r == self.spec_config().expected_elements,
    {
        self.config.expected_elements
    }

    /// Whether adding an already contained element increments the counters
    /// again.
    pub fn repeat_insert_enabled(&self) -> (r: bool)
        ensures
            r == self.spec_config().enable_repeat_insert,
    {
        self.config.enable_repeat_insert
    }
}

/// No false negatives: an element just added to a Bloom filter is
/// contained, whatever the filter held before.
pub proof fn lemma_bloom_add_no_false_negative(bits: Seq<bool>, e: Seq<u8>, k: u32, m: u64)
    requires
        m >= 1,
        bits.len() == m,
    ensures
        spec_bloom_contains(spec_bloom_add(bits, e, k, m), e, k, m),
{
    let added = spec_bloom_add(bits, e, k, m);
    assert forall|i: u64| i < k implies added[spec_position(e, i, m) as int] by {
        let p = spec_position(e, i, m) as int;
        assert(0 <= p < bits.len());
        assert(spec_hits(e, k as int, m, p));
    }
}

/// A cleared Bloom filter contains nothing: with every bit unset, any
/// membership query with at least one hash answers false.
pub proof fn lemma_bloom_cleared_contains_nothing(e: Seq<u8>, k: u32, m: u64)
    requires
        m >= 1,
        k >= 1,
    ensures
        !spec_bloom_contains(all_false(m as nat), e, k, m),
{
    let p = spec_position(e, 0u64, m) as int;
    assert(0 <= p < m);
    assert(!all_false(m as nat)[p]);
}

/// Counters only grow while increments are applied.
proof fn lemma_apply_incs_mono(cs: Seq<u64>, e: Seq<u8>, m: u64, t1: int, t2: int, q: int)
    requires
        m >= 1,
        cs.len() == m,
        0 <= t1 <= t2,
        0 <= q < m,
    ensures
        spec_apply_incs(cs, e, m, t2)[q] >= spec_apply_incs(cs, e, m, t1)[q],
    decreases t2 - t1,
{
    if t2 > t1 {
        lemma_apply_incs_mono(cs, e, m, t1, t2 - 1, q);
        lemma_apply_incs_len(cs, e, m, t2 - 1);
        let prev = spec_apply_incs(cs, e, m, t2 - 1);
        let p = spec_position(e, (t2 - 1) as u64, m) as int;
        assert(0 <= p < prev.len());
        if p == q {
            assert(sat_inc(prev[q]) >= prev[q]);
        }
    }
}

/// No false negatives for the counting filter: after the increments of an
/// add, every counter of the element is nonzero, whatever the filter held
/// before.
pub proof fn lemma_counting_add_no_false_negative(cs: Seq<u64>, e: Seq<u8>, k: u32, m: u64)
    requires
        m >= 1,
        cs.len() == m,
    ensures
        spec_counting_contains(spec_apply_incs(cs, e, m, k as int), e, k, m),
{
    let full = spec_apply_incs(cs, e, m, k as int);
    assert forall|i: u64| i < k implies full[spec_position(e, i, m) as int] > 0 by {
        let p = spec_position(e, i, m) as int;
        lemma_apply_incs_len(cs, e, m, i as int);
        let prev = spec_apply_incs(cs, e, m, i as int);
        assert(spec_apply_incs(cs, e, m, i as int + 1) == prev.update(p, sat_inc(prev[p])));
        assert(spec_apply_incs(cs, e, m, i as int + 1)[p] >= 1);
        lemma_apply_incs_mono(cs, e, m, i as int + 1, k as int, p);
    }
}

/// No false negatives for the counting filter, covering both outcomes of
/// an add: whether the counters were incremented or the add was skipped
/// because the element was already contained under disabled repeat
/// insertion, the element is contained afterwards.
pub proof fn lemma_counting_filter_add_contains(
    pre: Seq<u64>,
    e: Seq<u8>,
    k: u32,
    m: u64,
    repeat: bool,
)
    requires
        m >= 1,
        pre.len() == m,
    ensures
        spec_counting_contains(
            if repeat || !spec_counting_contains(pre, e, k, m) {
                spec_apply_incs(pre, e, m, k as int)
            } else {
                pre
            },
            e,
            k,
            m,
        ),
{
    if repeat || !spec_counting_contains(pre, e, k, m) {
        lemma_counting_add_no_false_negative(pre, e, k, m);
    }
}

/// A cleared counting filter contains nothing: with every counter at zero,
/// any membership query with at least one hash answers false.
pub proof fn lemma_counting_cleared_contains_nothing(e: Seq<u8>, k: u32, m: u64)
    requires
        m >= 1,
        k >= 1,
    ensures
        !spec_counting_contains(all_zero(m as nat), e, k, m),
{
    let p = spec_position(e, 0u64, m) as int;
    assert(0 <= p < m);
    assert(all_zero(m as nat)[p] == 0);
}

/// Applying `t` increments never changes the number of counters.
proof fn lemma_apply_incs_len(cs: Seq<u64>, e: Seq<u8>, m: u64, t: int)
    requires
        m >= 1,
        cs.len() == m,
    ensures
        spec_apply_incs(cs, e, m, t).len() == cs.len(),
    decreases t,
{
    if t > 0 {
        lemma_apply_incs_len(cs, e, m, t - 1);
        let prev = spec_apply_incs(cs, e, m, t - 1);
        let p = spec_position(e, (t - 1) as u64, m) as int;
        assert(0 <= p < prev.len());
    }
}

/// Applying `t` decrements never changes the number of counters.
proof fn lemma_apply_decs_len(cs: Seq<u64>, e: Seq<u8>, m: u64, t: int)
    requires
        m >= 1,
        cs.len() == m,
    ensures
        spec_apply_decs(cs, e, m, t).len() == cs.len(),
    decreases t,
{
    if t > 0 {
        lemma_apply_decs_len(cs, e, m, t - 1);
        let prev = spec_apply_decs(cs, e, m, t - 1);
        let p = spec_position(e, (t - 1) as u64, m) as int;
        assert(0 <= p < prev.len());
    }
}

} // verus!
