//! Small conversions between offsets, spans and byte pairs.

use vstd::prelude::*;
use crate::feature::ends_to_spans;
use crate::hash::le_u16;
use crate::simhasher::window_count;

verus! {

/// The spans `(i, i + window_size)` of every window of `window_size` bytes inside `len`
/// bytes, in order; none when `window_size` exceeds `len`.
pub open spec fn window_ranges(len: nat, window_size: nat) -> Seq<(usize, usize)> {
    Seq::new(window_count(len, window_size), |i: int| (i as usize, (i + window_size) as usize))
}

/// The spans of every window of `window_size` bytes inside `len` bytes.
pub fn window_range(len: usize, window_size: usize) -> (r: Vec<(usize, usize)>)
    requires
        window_size >= 1,
    ensures
        r@ == window_ranges(len as nat, window_size as nat),
{
    let count: usize = if window_size <= len {
        len - window_size + 1
    } else {
        0
    };
    let mut out: Vec<(usize, usize)> = Vec::with_capacity(count);
    let mut i: usize = 0;
    while i < count
        invariant
            window_size >= 1,
            count == window_count(len as nat, window_size as nat),
            i <= count,
            out@ == window_ranges(len as nat, window_size as nat).subrange(0, i as int),
        decreases count - i,
    {
        out.push((i, i + window_size));
        i = i + 1;
        assert(out@ =~= window_ranges(len as nat, window_size as nat).subrange(0, i as int));
    }
    assert(out@ =~= window_ranges(len as nat, window_size as nat));
    out
}

/// Spans between consecutive end offsets, the first starting at 0.
pub trait SequentialToRange: Sized {
    fn sequential_to_range(self) -> Vec<(usize, usize)>;
}

impl SequentialToRange for Vec<usize> {
    fn sequential_to_range(self) -> (r: Vec<(usize, usize)>)
        ensures
            r@ == ends_to_spans(self@),
    {
        let mut spans: Vec<(usize, usize)> = Vec::with_capacity(self.len());
        let mut j: usize = 0;
        while j < self.len()
            invariant
                j <= self@.len(),
                spans@ == ends_to_spans(self@).subrange(0, j as int),
            decreases self@.len() - j,
        {
            let start = if j == 0 {
                0
            } else {
                self[j - 1]
            };
            spans.push((start, self[j]));
            j = j + 1;
            assert(spans@ =~= ends_to_spans(self@).subrange(0, j as int));
        }
        assert(ends_to_spans(self@).subrange(0, j as int) =~= ends_to_spans(self@));
        spans
    }
}

/// Byte pairs read as little-endian 16-bit values.
pub trait PairToU16Ext: Sized {
    fn pair_to_u16(self) -> Vec<u16>;
}

impl PairToU16Ext for Vec<(u8, u8)> {
    fn pair_to_u16(self) -> (r: Vec<u16>)
        ensures
            r@.len() == self@.len(),
            forall|j: int|
                0 <= j < r@.len() ==> #[trigger] r@[j] == self@[j].1 as u16 * 256 + self@[j].0 as u16,
    {
        let mut out: Vec<u16> = Vec::with_capacity(self.len());
        let mut j: usize = 0;
        while j < self.len()
            invariant
                j <= self@.len(),
                out@.len() == j,
                forall|k: int|
                    0 <= k < j ==> #[trigger] out@[k] == self@[k].1 as u16 * 256 + self@[k].0 as u16,
            decreases self@.len() - j,
        {
            let (lo, hi) = self[j];
            out.push(le_u16(lo, hi));
            j = j + 1;
        }
        out
    }
}

} // verus!
