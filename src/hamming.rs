//! Bit differences between 64-bit values.

use vstd::prelude::*;

verus! {

/// Number of set bits of `x`.
pub open spec fn popcount(x: u64) -> nat
    decreases x,
{
    if x == 0 {
        0
    } else {
        (x % 2) as nat + popcount(x / 2)
    }
}

/// Hamming distance of two 64-bit values: the number of bit positions in
/// which they differ.
pub open spec fn hamming(a: u64, b: u64) -> nat {
    popcount(a ^ b)
}

/// A value that can be read as a 64-bit fingerprint.
pub trait IntoU64 {
    spec fn as_u64(&self) -> u64;

    fn into_u64(self) -> (r: u64)
        ensures
            r == self.as_u64(),
    ;
}

impl IntoU64 for u64 {
    open spec fn as_u64(&self) -> u64 {
        *self
    }

    fn into_u64(self) -> (r: u64) {
        self
    }
}

proof fn lemma_popcount_step(x: u64)
    ensures
        popcount(x) == (x & 1) as nat + popcount(x >> 1),
{
    assert(x & 1 == x % 2) by (bit_vector);
    assert(x >> 1 == x / 2) by (bit_vector);
}

pub proof fn lemma_popcount_bound(x: u64)
    ensures
        popcount(x) <= 64,
{
    lemma_popcount_prefix(x, 64);
    assert(x >> 64u64 == 0) by (bit_vector);
}

/// popcount(x) splits into the count below bit `k` plus the count of `x >> k`.
proof fn lemma_popcount_prefix(x: u64, k: u64)
    requires
        k <= 64,
    ensures
        popcount(x) <= k + popcount(x >> k),
    decreases k,
{
    if k > 0 {
        lemma_popcount_prefix(x, (k - 1) as u64);
        let y = x >> ((k - 1) as u64);
        lemma_popcount_step(y);
        assert(y >> 1 == x >> k) by (bit_vector)
            requires
                y == x >> ((k - 1) as u64),
                1 <= k <= 64,
        ;
        assert(y & 1 <= 1) by (bit_vector);
    } else {
        assert(x >> 0u64 == x) by (bit_vector);
    }
}

/// Number of set bits of `x`, one bit at a time.
pub fn count_ones(x: u64) -> (r: u32)
    ensures
        r as nat == popcount(x),
{
    let mut rest: u64 = x;
    let mut n: u32 = 0;
    proof {
        lemma_popcount_bound(x);
    }
    while rest != 0
        invariant
            n as nat + popcount(rest) == popcount(x),
            popcount(x) <= 64,
        decreases rest,
    {
        proof {
            lemma_popcount_step(rest);
            assert(rest >> 1 < rest) by (bit_vector)
                requires
                    rest != 0,
            ;
        }
        n = n + (rest & 1) as u32;
        rest = rest >> 1;
    }
    n
}

/// Number of bit positions in which `a` and `b` differ.
pub fn hamming_distance<T: IntoU64, U: IntoU64>(a: T, b: U) -> (r: u32)
    ensures
        r as nat == hamming(a.as_u64(), b.as_u64()),
{
    count_ones(a.into_u64() ^ b.into_u64())
}

/// A value is at distance zero from itself.
pub proof fn lemma_hamming_self(a: u64)
    ensures
        hamming(a, a) == 0,
{
    assert(a ^ a == 0) by (bit_vector);
}

/// The distance does not depend on the order of its arguments.
pub proof fn lemma_hamming_symmetric(a: u64, b: u64)
    ensures
        hamming(a, b) == hamming(b, a),
{
    assert(a ^ b == b ^ a) by (bit_vector);
}

proof fn lemma_popcount_xor(x: u64, y: u64)
    ensures
        popcount(x ^ y) <= popcount(x) + popcount(y),
    decreases x + y,
{
    if x == 0 {
        assert(x ^ y == y) by (bit_vector)
            requires
                x == 0,
        ;
    } else if y == 0 {
        assert(x ^ y == x) by (bit_vector)
            requires
                y == 0,
        ;
    } else {
        assert((x ^ y) & 1 <= (x & 1) + (y & 1)) by (bit_vector);
        assert((x ^ y) >> 1 == (x >> 1) ^ (y >> 1)) by (bit_vector);
        assert(x >> 1 < x && y >> 1 < y) by (bit_vector)
            requires
                x != 0,
                y != 0,
        ;
        lemma_popcount_step(x);
        lemma_popcount_step(y);
        lemma_popcount_step(x ^ y);
        lemma_popcount_xor(x >> 1, y >> 1);
    }
}

/// Going from `a` to `b` directly never differs in more bits than going
/// through `c`.
pub proof fn lemma_hamming_triangle(a: u64, b: u64, c: u64)
    ensures
        hamming(a, b) <= hamming(a, c) + hamming(c, b),
{
    assert(a ^ b == (a ^ c) ^ (c ^ b)) by (bit_vector);
    lemma_popcount_xor(a ^ c, c ^ b);
}

} // verus!
