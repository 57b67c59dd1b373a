//! The fingerprint value type.

use vstd::prelude::*;
use vstd::string::{StrSliceExecFns, StringExecFns};
use crate::hamming::{count_ones, hamming, IntoU64};

verus! {

/// A 64-bit text fingerprint. Equality is bitwise; order is that of the numeric value.
#[derive(Clone, Copy, Debug, PartialEq, Eq, Structural, Hash, PartialOrd, Ord)]
pub struct SimHash {
    pub value: u64,
}

/// Lowercase hex digit of `d` (0 to 15).
pub open spec fn hex_digit(d: u64) -> char {
    "0123456789abcdef"@[d as int]
}

/// `0x` followed by the 16 lowercase hex digits of `v`, most significant first.
pub open spec fn hex_text(v: u64) -> Seq<char> {
    seq!['0', 'x'] + Seq::new(16, |i: int| hex_digit((v >> ((60 - 4 * i) as u64)) & 15))
}

fn hex_string(v: u64) -> (r: String)
    ensures
        r@ == hex_text(v),
{
    let digits: &str = "0123456789abcdef";
    proof {
        reveal_strlit("0123456789abcdef");
        reveal_strlit("0x");
    }
    assert(digits.is_ascii());
    let mut out = String::from_str("0x");
    let mut i: u64 = 0;
    while i < 16
        invariant
            i <= 16,
            digits@ == "0123456789abcdef"@,
            digits@.len() == 16,
            digits.is_ascii(),
            out@ == seq!['0', 'x'] + Seq::new(
                i as nat,
                |j: int| hex_digit((v >> ((60 - 4 * j) as u64)) & 15),
            ),
        decreases 16 - i,
    {
        let shift: u64 = 60 - 4 * i;
        let d = (v >> shift) & 15;
        assert(d < 16) by (bit_vector)
            requires
                d == (v >> shift) & 15,
        ;
        let piece = digits.substring_ascii(d as usize, d as usize + 1);
        out.append(piece);
        i = i + 1;
        assert(out@ =~= seq!['0', 'x'] + Seq::new(
            i as nat,
            |j: int| hex_digit((v >> ((60 - 4 * j) as u64)) & 15),
        ));
    }
    out
}

impl IntoU64 for SimHash {
    open spec fn as_u64(&self) -> u64 {
        self.value
    }

    fn into_u64(self) -> (r: u64) {
        self.value
    }
}

impl SimHash {
    /// The fingerprint with value `val`.
    pub fn from_int(val: u64) -> (r: SimHash)
        ensures
            r.value == val,
    {
        SimHash { value: val }
    }

    /// The value of the fingerprint.
    pub fn to_int(&self) -> (r: u64)
        ensures
            r == self.value,
    {
        self.value
    }

    /// Number of bits in which the two fingerprints differ.
    pub fn hamming_distance(&self, other: &SimHash) -> (r: u32)
        ensures
            r as nat == hamming(self.value, other.value),
    {
        count_ones(self.value ^ other.value)
    }

    /// Number of bits in which the two fingerprints differ.
    pub fn difference(&self, other: &SimHash) -> (r: u32)
        ensures
            r as nat == hamming(self.value, other.value),
    {
        self.hamming_distance(other)
    }

    /// The canonical text of the fingerprint: `0x` and 16 lowercase hex digits.
    pub fn to_hex(&self) -> (r: String)
        ensures
            r@ == hex_text(self.value),
    {
        hex_string(self.value)
    }
}

} // verus!
