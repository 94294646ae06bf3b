//! Element hashing for the filters.
//!
//! Each element contributes two independent 64-bit hashes of its byte
//! content, computed with the FNV-1a folding scheme from two different
//! offset bases.  Position `i` of an element is then derived by double
//! hashing: `(h1 + i * h2) mod size`, with wrapping 64-bit arithmetic
//! before the reduction.  The scheme is deterministic, so the same element
//! always maps to the same positions in filters of the same size.
use vstd::prelude::*;

verus! {

/// The FNV-1a multiplier.
pub const FNV_PRIME: u64 = 0x100000001b3;

/// Offset basis of the first hash (the standard FNV-1a basis).
pub const FNV_BASIS_H1: u64 = 0xcbf29ce484222325;

/// Offset basis of the second hash.
pub const FNV_BASIS_H2: u64 = 0x84222325cbf29ce4;

/// The FNV-1a fold of `bytes` starting from accumulator `acc`: each byte is
/// xor-ed into the accumulator, which is then multiplied (wrapping) by
/// `FNV_PRIME`.
pub open spec fn fnv1a(bytes: Seq<u8>, acc: u64) -> u64
    decreases bytes.len(),
{
    if bytes.len() == 0 {
        acc
    } else {
        fnv1a(bytes.drop_first(), (acc ^ (bytes.first() as u64)).wrapping_mul(FNV_PRIME))
    }
}

/// The first 64-bit hash of an element.
pub open spec fn spec_h1(e: Seq<u8>) -> u64 {
    fnv1a(e, FNV_BASIS_H1)
}

/// The second 64-bit hash of an element.
pub open spec fn spec_h2(e: Seq<u8>) -> u64 {
    fnv1a(e, FNV_BASIS_H2)
}

/// The `i`-th position of element `e` in a filter of `m` bits:
/// `(h1 + i * h2) mod m` with wrapping 64-bit arithmetic.
pub open spec fn spec_position(e: Seq<u8>, i: u64, m: u64) -> u64
    recommends
        m >= 1,
{
    spec_h1(e).wrapping_add(i.wrapping_mul(spec_h2(e))) % m
}

/// The FNV-1a fold of `data` from `acc`, computed byte by byte.
fn fnv1a_fold(data: &[u8], acc: u64) -> (r: u64)
    ensures
        r == fnv1a(data@, acc),
{
    let mut h: u64 = acc;
    let mut i: usize = 0;
    proof {
        assert(data@.skip(0) =~= data@);
    }
    while i < data.len()
        invariant
            i <= data@.len(),
            fnv1a(data@, acc) == fnv1a(data@.skip(i as int), h),
        decreases data@.len() - i,
    {
        proof {
            let rest = data@.skip(i as int);
            assert(rest.first() == data@[i as int]);
            assert(rest.drop_first() =~= data@.skip(i as int + 1));
        }
        h = (h ^ (data[i] as u64)).wrapping_mul(FNV_PRIME);
        i += 1;
    }
    proof {
        assert(data@.skip(data@.len() as int).len() == 0);
    }
    h
}

/// The two element hashes `(h1, h2)` of an element's bytes.
pub fn element_hashes(element: &[u8]) -> (r: (u64, u64))
    ensures
        r.0 == spec_h1(element@),
        r.1 == spec_h2(element@),
{
    let h1 = fnv1a_fold(element, FNV_BASIS_H1);
    let h2 = fnv1a_fold(element, FNV_BASIS_H2);
    (h1, h2)
}

/// The `i`-th position of an already hashed element in a filter of `m`
/// bits.
pub fn position(h1: u64, h2: u64, i: u64, m: u64) -> (r: u64)
    requires
        m >= 1,
    ensures
        forall|e: Seq<u8>|
            spec_h1(e) == h1 && spec_h2(e) == h2 ==> r == spec_position(e, i, m),
        r < m,
{
    h1.wrapping_add(i.wrapping_mul(h2)) % m
}

} // verus!
