//! Folding feature hashes into one fingerprint by a per-bit majority vote.

use vstd::prelude::*;
use vstd::seq_lib::{to_multiset_build, to_multiset_remove, to_multiset_len, to_multiset_contains};

verus! {

/// Bit `i` of `h`, as 0 or 1.
pub open spec fn bit_at(h: u64, i: u64) -> nat {
    ((h >> i) & 1) as nat
}

/// How many of `hs` have bit `i` set.
pub open spec fn bit_count(hs: Seq<u64>, i: u64) -> nat
    decreases hs.len(),
{
    if hs.len() == 0 {
        0
    } else {
        bit_count(hs.drop_last(), i) + bit_at(hs.last(), i)
    }
}

/// Bit `i` wins the vote when strictly more than half of `hs` (rounded down) have it set.
pub open spec fn bit_wins(hs: Seq<u64>, i: u64) -> bool {
    bit_count(hs, i) > hs.len() / 2
}

/// The bits below `k` that win the vote.
pub open spec fn vote_bits(hs: Seq<u64>, k: nat) -> u64
    decreases k,
{
    if k == 0 {
        0
    } else {
        let i = (k - 1) as u64;
        vote_bits(hs, (k - 1) as nat) | (if bit_wins(hs, i) {
            1u64 << i
        } else {
            0u64
        })
    }
}

/// The fingerprint of a sequence of feature hashes: each of the 64 bits is set exactly when
/// a strict majority of the hashes have it set. An empty sequence gives 0.
pub open spec fn aggregate(hs: Seq<u64>) -> u64 {
    vote_bits(hs, 64)
}

proof fn lemma_vote_bits_bit(hs: Seq<u64>, k: nat, j: u64)
    requires
        k <= 64,
        j < 64,
    ensures
        ((vote_bits(hs, k) >> j) & 1 == 1) <==> (j < k && bit_wins(hs, j)),
    decreases k,
{
    if k == 0 {
        assert((0u64 >> j) & 1 == 0) by (bit_vector);
    } else {
        let i = (k - 1) as u64;
        let x = vote_bits(hs, (k - 1) as nat);
        lemma_vote_bits_bit(hs, (k - 1) as nat, j);
        assert(((x | (1u64 << i)) >> j) & 1 == (if j == i { 1u64 } else { (x >> j) & 1 }))
            by (bit_vector)
            requires
                i < 64,
                j < 64,
        ;
        assert((x | 0u64) == x) by (bit_vector);
    }
}

/// Bit `i` of the fingerprint is set exactly when bit `i` wins the vote.
pub proof fn lemma_aggregate_bit(hs: Seq<u64>, i: u64)
    requires
        i < 64,
    ensures
        ((aggregate(hs) >> i) & 1 == 1) <==> bit_wins(hs, i),
{
    lemma_vote_bits_bit(hs, 64, i);
}

proof fn lemma_bit_count_add(a: Seq<u64>, b: Seq<u64>, i: u64)
    ensures
        bit_count(a + b, i) == bit_count(a, i) + bit_count(b, i),
    decreases b.len(),
{
    if b.len() == 0 {
        assert(a + b =~= a);
    } else {
        lemma_bit_count_add(a, b.drop_last(), i);
        assert((a + b).drop_last() =~= a + b.drop_last());
    }
}

proof fn lemma_bit_count_remove(s: Seq<u64>, j: int, i: u64)
    requires
        0 <= j < s.len(),
    ensures
        bit_count(s, i) == bit_count(s.remove(j), i) + bit_at(s[j], i),
{
    let pre = s.subrange(0, j);
    let post = s.subrange(j + 1, s.len() as int);
    assert(s =~= pre + seq![s[j]] + post);
    assert(s.remove(j) =~= pre + post);
    lemma_bit_count_add(pre + seq![s[j]], post, i);
    lemma_bit_count_add(pre, seq![s[j]], i);
    lemma_bit_count_add(pre, post, i);
    assert(seq![s[j]].drop_last() =~= Seq::<u64>::empty());
    assert(bit_count(seq![s[j]], i) == bit_count(Seq::<u64>::empty(), i) + bit_at(s[j], i));
}

proof fn lemma_bit_count_permutation(a: Seq<u64>, b: Seq<u64>, i: u64)
    requires
        a.to_multiset() == b.to_multiset(),
    ensures
        bit_count(a, i) == bit_count(b, i),
    decreases a.len(),
{
    to_multiset_len(a);
    to_multiset_len(b);
    if a.len() > 0 {
        let x = a.last();
        let rest = a.drop_last();
        assert(rest.push(x) =~= a);
        to_multiset_build(rest, x);
        to_multiset_contains(b, x);
        assert(b.to_multiset().count(x) > 0);
        let j = choose|j: int| 0 <= j < b.len() && b[j] == x;
        to_multiset_remove(b, j);
        assert(rest.to_multiset() =~= b.remove(j).to_multiset());
        lemma_bit_count_permutation(rest, b.remove(j), i);
        lemma_bit_count_remove(b, j, i);
    }
}

proof fn lemma_vote_bits_permutation(a: Seq<u64>, b: Seq<u64>, k: nat)
    requires
        a.to_multiset() == b.to_multiset(),
        k <= 64,
    ensures
        vote_bits(a, k) == vote_bits(b, k),
    decreases k,
{
    if k > 0 {
        to_multiset_len(a);
        to_multiset_len(b);
        lemma_bit_count_permutation(a, b, (k - 1) as u64);
        lemma_vote_bits_permutation(a, b, (k - 1) as nat);
    }
}

/// The fingerprint does not depend on the order of the feature hashes: any rearrangement of
/// the same hashes gives the same fingerprint.
pub proof fn lemma_aggregate_permutation(a: Seq<u64>, b: Seq<u64>)
    requires
        a.to_multiset() == b.to_multiset(),
    ensures
        aggregate(a) == aggregate(b),
{
    lemma_vote_bits_permutation(a, b, 64);
}

proof fn lemma_bit_at_bound(h: u64, i: u64)
    ensures
        bit_at(h, i) <= 1,
        bit_at(h, i) == ((h >> i) & 1),
{
    assert((h >> i) & 1 <= 1) by (bit_vector);
}

/// Folds feature hashes into one fingerprint by a per-bit majority vote.
pub fn simhash_impl(hashes: &[u64]) -> (r: u64)
    ensures
        r == aggregate(hashes@),
{
    let mut counts: Vec<u64> = Vec::with_capacity(64);
    let mut b: usize = 0;
    while b < 64
        invariant
            b <= 64,
            counts@.len() == b,
            forall|i: int| 0 <= i < b ==> #[trigger] counts@[i] == 0,
        decreases 64 - b,
    {
        counts.push(0);
        b = b + 1;
    }
    let len = hashes.len();
    let mut n: usize = 0;
    while n < len
        invariant
            len == hashes@.len(),
            n <= hashes@.len(),
            counts@.len() == 64,
            forall|i: int|
                0 <= i < 64 ==> #[trigger] counts@[i] == bit_count(hashes@.subrange(0, n as int), i as u64),
            forall|i: int| 0 <= i < 64 ==> #[trigger] counts@[i] <= n,
        decreases hashes@.len() - n,
    {
        let h = hashes[n];
        let ghost prefix = hashes@.subrange(0, n as int);
        let ghost next = hashes@.subrange(0, n + 1);
        assert(next.drop_last() =~= prefix);
        assert(next.last() == h);
        let mut i: usize = 0;
        while i < 64
            invariant
                i <= 64,
                n < len,
                h == hashes@[n as int],
                next.drop_last() == prefix,
                next.last() == h,
                next.len() == n + 1,
                counts@.len() == 64,
                forall|j: int| 0 <= j < i ==> #[trigger] counts@[j] == bit_count(next, j as u64),
                forall|j: int| i <= j < 64 ==> #[trigger] counts@[j] == bit_count(prefix, j as u64),
                forall|j: int| 0 <= j < i ==> #[trigger] counts@[j] <= n + 1,
                forall|j: int| i <= j < 64 ==> #[trigger] counts@[j] <= n,
            decreases 64 - i,
        {
            proof {
                lemma_bit_at_bound(h, i as u64);
            }
            let bit = (h >> (i as u64)) & 1;
            assert(bit <= 1);
            assert(counts@[i as int] <= n);
            assert(n < usize::MAX);
            counts.set(i, counts[i] + bit);
            i = i + 1;
        }
        n = n + 1;
    }
    assert(hashes@.subrange(0, n as int) =~= hashes@);
    let threshold: u64 = (n / 2) as u64;
    let mut acc: u64 = 0;
    let mut i: usize = 0;
    while i < 64
        invariant
            i <= 64,
            n == hashes@.len(),
            threshold == hashes@.len() / 2,
            counts@.len() == 64,
            forall|j: int| 0 <= j < 64 ==> #[trigger] counts@[j] == bit_count(hashes@, j as u64),
            acc == vote_bits(hashes@, i as nat),
        decreases 64 - i,
    {
        if counts[i] > threshold {
            acc = acc | (1u64 << (i as u64));
        } else {
            assert(acc | 0u64 == acc) by (bit_vector);
        }
        i = i + 1;
    }
    acc
}

} // verus!
