//! The 64-bit hash functions applied to features, with lookup tables for single bytes
//! and byte pairs and hashing of several slices as one input.

use vstd::prelude::*;

verus! {

/// The 64-bit hash function applied to each feature.
#[derive(PartialEq, Eq, Structural, Clone, Copy, Debug)]
pub enum HashMethod {
    /// SipHash-2-4 with both keys zero.
    SipHash,
    /// XXH3, 64-bit, unseeded.
    XXHash,
}

/// What `siphasher`'s SipHash-2-4 with zero keys returns for `bytes`.
pub uninterp spec fn sip_digest(bytes: Seq<u8>) -> u64;

/// What `xxhash_rust`'s unseeded 64-bit XXH3 returns for `bytes`.
pub uninterp spec fn xxh3_digest(bytes: Seq<u8>) -> u64;

/// The hash of a byte string under `method`.
pub open spec fn digest(method: HashMethod, bytes: Seq<u8>) -> u64 {
    match method {
        HashMethod::SipHash => sip_digest(bytes),
        HashMethod::XXHash => xxh3_digest(bytes),
    }
}

/// The bytes of `source` covered by `slices`, one slice after the other.
pub open spec fn joined(source: Seq<u8>, slices: Seq<(usize, usize)>) -> Seq<u8>
    decreases slices.len(),
{
    if slices.len() == 0 {
        Seq::empty()
    } else {
        let last = slices.last();
        joined(source, slices.drop_last()) + source.subrange(last.0 as int, last.1 as int)
    }
}

/// Every slice lies inside a source of `len` bytes.
pub open spec fn slices_in_bounds(slices: Seq<(usize, usize)>, len: int) -> bool {
    forall|k: int| 0 <= k < slices.len() ==> (#[trigger] slices[k]).0 <= slices[k].1 <= len
}

/// The concatenation of `parts`.
pub open spec fn flatten_parts(parts: Seq<&[u8]>) -> Seq<u8>
    decreases parts.len(),
{
    if parts.len() == 0 {
        Seq::empty()
    } else {
        flatten_parts(parts.drop_last()) + parts.last()@
    }
}

/// The two bytes of `v`, least significant first.
pub open spec fn le_pair(v: u16) -> Seq<u8> {
    seq![(v % 256) as u8, (v / 256) as u8]
}

/// Relies on `siphasher::sip::SipHasher::hash` with the keys of `SipHasher::new` (both zero):
/// SipHash-2-4 of the bytes, a function of the bytes alone.
#[verifier::external_body]
fn sip_hash(bytes: &[u8]) -> (r: u64)
    ensures
        r == sip_digest(bytes@),
{
    siphasher::sip::SipHasher::new().hash(bytes)
}

/// Relies on `xxhash_rust::xxh3::xxh3_64`: the unseeded 64-bit XXH3 of the bytes, a function
/// of the bytes alone.
#[verifier::external_body]
fn xxh3_hash(bytes: &[u8]) -> (r: u64)
    ensures
        r == xxh3_digest(bytes@),
{
    xxhash_rust::xxh3::xxh3_64(bytes)
}

fn concat_parts(parts: &[&[u8]]) -> (r: Vec<u8>)
    ensures
        r@ == flatten_parts(parts@),
{
    let mut out: Vec<u8> = Vec::new();
    let mut i: usize = 0;
    while i < parts.len()
        invariant
            i <= parts@.len(),
            out@ == flatten_parts(parts@.subrange(0, i as int)),
        decreases parts@.len() - i,
    {
        let part: &[u8] = parts[i];
        let mut j: usize = 0;
        let ghost before = out@;
        while j < part.len()
            invariant
                j <= part@.len(),
                out@ == before + part@.subrange(0, j as int),
            decreases part@.len() - j,
        {
            out.push(part[j]);
            j = j + 1;
            assert(out@ =~= before + part@.subrange(0, j as int));
        }
        assert(parts@.subrange(0, i + 1).drop_last() =~= parts@.subrange(0, i as int));
        assert(part@.subrange(0, j as int) =~= part@);
        i = i + 1;
    }
    assert(parts@.subrange(0, i as int) =~= parts@);
    out
}

/// SipHash-2-4 (zero keys) of the parts fed one after the other, which is the hash of their
/// concatenation.
pub fn sip_hash_fn(parts: &[&[u8]]) -> (r: u64)
    ensures
        r == sip_digest(flatten_parts(parts@)),
{
    let all = concat_parts(parts);
    sip_hash(all.as_slice())
}

/// Unseeded XXH3 of the parts fed one after the other, which is the hash of their
/// concatenation.
pub fn xxh3_hash_fn(parts: &[&[u8]]) -> (r: u64)
    ensures
        r == xxh3_digest(flatten_parts(parts@)),
{
    let all = concat_parts(parts);
    xxh3_hash(all.as_slice())
}

/// The 16-bit value whose little-endian bytes are `lo`, `hi`.
pub fn le_u16(lo: u8, hi: u8) -> (r: u16)
    ensures
        r == hi as u16 * 256 + lo as u16,
        le_pair(r) == seq![lo, hi],
{
    let r = (hi as u16) << 8u16 | (lo as u16);
    assert(((hi as u16) << 8u16 | (lo as u16)) == (hi as u16) * 256 + (lo as u16)) by (bit_vector);
    assert(le_pair(r) =~= seq![lo, hi]);
    r
}

impl HashMethod {
    /// The hash of `bytes`.
    pub fn hash_bytes(&self, bytes: &[u8]) -> (r: u64)
        ensures
            r == digest(*self, bytes@),
    {
        match self {
            HashMethod::SipHash => sip_hash(bytes),
            HashMethod::XXHash => xxh3_hash(bytes),
        }
    }

    /// The hash of the slices of `source`, taken one after the other as one input.
    pub fn hash_multi(&self, source: &[u8], slices: &Vec<(usize, usize)>) -> (r: u64)
        requires
            slices_in_bounds(slices@, source@.len() as int),
        ensures
            r == digest(*self, joined(source@, slices@)),
    {
        let mut buf: Vec<u8> = Vec::new();
        let mut i: usize = 0;
        while i < slices.len()
            invariant
                i <= slices@.len(),
                slices_in_bounds(slices@, source@.len() as int),
                buf@ == joined(source@, slices@.subrange(0, i as int)),
            decreases slices@.len() - i,
        {
            let (start, end) = slices[i];
            assert(slices@[i as int].0 <= slices@[i as int].1 <= source@.len());
            let ghost before = buf@;
            let mut j: usize = start;
            while j < end
                invariant
                    start <= j <= end <= source@.len(),
                    buf@ == before + source@.subrange(start as int, j as int),
                decreases end - j,
            {
                buf.push(source[j]);
                j = j + 1;
                assert(buf@ =~= before + source@.subrange(start as int, j as int));
            }
            assert(slices@.subrange(0, i + 1).drop_last() =~= slices@.subrange(0, i as int));
            i = i + 1;
        }
        assert(slices@.subrange(0, i as int) =~= slices@);
        self.hash_bytes(buf.as_slice())
    }
}

/// The hashing operations the fingerprint computation needs: single bytes, byte pairs, byte
/// strings, and several slices of one source taken as one input.
pub trait ShHash {
    fn hash_u8(&self, value: u8) -> u64;

    fn hash_u16(&self, value: u16) -> u64;

    fn hash_bytes(&self, bytes: &[u8]) -> u64;

    fn hash_multi(&self, source: &[u8], slices: &Vec<(usize, usize)>) -> u64
        requires
            slices_in_bounds(slices@, source@.len() as int),
    ;
}

/// Precomputed hashes of every byte value and of every 16-bit value (as its two
/// little-endian bytes), for one hash method. Built once, read only afterwards.
#[derive(Debug)]
pub struct HashTables {
    method: HashMethod,
    u8_table: Vec<u64>,
    u16_table: Vec<u64>,
}

impl HashTables {
    /// The hash method whose values the tables hold.
    pub closed spec fn method(&self) -> HashMethod {
        self.method
    }

    /// Each entry holds the hash of the byte, or of the two bytes, that its index stands for.
    #[verifier::type_invariant]
    closed spec fn wf(&self) -> bool {
        &&& self.u8_table@.len() == 256
        &&& self.u16_table@.len() == 65536
        &&& forall|i: int|
            0 <= i < 256 ==> #[trigger] self.u8_table@[i] == digest(self.method, seq![i as u8])
        &&& forall|i: int|
            0 <= i < 65536 ==> #[trigger] self.u16_table@[i] == digest(
                self.method,
                seq![(i % 256) as u8, (i / 256) as u8],
            )
    }

    /// Builds both tables for `method`.
    pub fn new(method: HashMethod) -> (r: HashTables)
        ensures
            r.method() == method,
    {
        let mut u8_table: Vec<u64> = Vec::with_capacity(256);
        let mut i: usize = 0;
        while i < 256
            invariant
                i <= 256,
                u8_table@.len() == i,
                forall|j: int| 0 <= j < i ==> #[trigger] u8_table@[j] == digest(method, seq![j as u8]),
            decreases 256 - i,
        {
            let one: [u8; 1] = [i as u8];
            let h = method.hash_bytes(one.as_slice());
            assert(one@ =~= seq![i as u8]);
            u8_table.push(h);
            i = i + 1;
        }
        let mut u16_table: Vec<u64> = Vec::with_capacity(65536);
        let mut k: usize = 0;
        while k < 65536
            invariant
                k <= 65536,
                u16_table@.len() == k,
                forall|j: int|
                    0 <= j < k ==> #[trigger] u16_table@[j] == digest(
                        method,
                        seq![(j % 256) as u8, (j / 256) as u8],
                    ),
            decreases 65536 - k,
        {
            let two: [u8; 2] = [(k % 256) as u8, (k / 256) as u8];
            let h = method.hash_bytes(two.as_slice());
            assert(two@ =~= seq![(k % 256) as u8, (k / 256) as u8]);
            u16_table.push(h);
            k = k + 1;
        }
        HashTables { method, u8_table, u16_table }
    }
}

impl ShHash for HashTables {
    /// The hash of the single byte `value`, read from the table.
    fn hash_u8(&self, value: u8) -> (r: u64)
        ensures
            r == digest(self.method(), seq![value]),
    {
        proof {
            use_type_invariant(self);
        }
        self.u8_table[value as usize]
    }

    /// The hash of the two little-endian bytes of `value`, read from the table.
    fn hash_u16(&self, value: u16) -> (r: u64)
        ensures
            r == digest(self.method(), le_pair(value)),
    {
        proof {
            use_type_invariant(self);
        }
        self.u16_table[value as usize]
    }

    /// The hash of `bytes`.
    fn hash_bytes(&self, bytes: &[u8]) -> (r: u64)
        ensures
            r == digest(self.method(), bytes@),
    {
        self.method.hash_bytes(bytes)
    }

    /// The hash of the slices of `source`, taken one after the other as one input.
    fn hash_multi(&self, source: &[u8], slices: &Vec<(usize, usize)>) -> (r: u64)
        ensures
            r == digest(self.method(), joined(source@, slices@)),
    {
        self.method.hash_multi(source, slices)
    }
}

/// Hashing two bytes through the table of 16-bit values gives what hashing them as two
/// one-byte slices of one source gives.
pub proof fn lemma_pair_table_matches_multi(method: HashMethod, lo: u8, hi: u8)
    ensures
        digest(method, le_pair((hi as u16 * 256 + lo as u16) as u16)) == digest(
            method,
            joined(seq![lo, hi], seq![(0usize, 1usize), (1usize, 2usize)]),
        ),
{
    let v = (hi as u16 * 256 + lo as u16) as u16;
    let src = seq![lo, hi];
    let sl = seq![(0usize, 1usize), (1usize, 2usize)];
    let first = sl.drop_last();
    assert(first =~= seq![(0usize, 1usize)]);
    assert(first.drop_last() =~= Seq::<(usize, usize)>::empty());
    assert(joined(src, first.drop_last()) == Seq::<u8>::empty());
    assert(src.subrange(0, 1) =~= seq![lo]);
    assert(joined(src, first) =~= seq![lo]);
    assert(src.subrange(1, 2) =~= seq![hi]);
    assert(joined(src, sl) =~= seq![lo, hi]);
    assert(le_pair(v) =~= seq![lo, hi]);
}

} // verus!
