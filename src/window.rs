//! Sliding windows over sequences, yielded one at a time.

use vstd::prelude::*;
use crate::simhasher::window_count;

verus! {

/// Each element paired with the next one.
pub open spec fn pairs_of<T>(s: Seq<T>) -> Seq<(T, T)> {
    Seq::new(
        if s.len() >= 1 {
            (s.len() - 1) as nat
        } else {
            0
        },
        |j: int| (s[j], s[j + 1]),
    )
}

/// Every run of `n` consecutive elements, in order.
pub open spec fn windows_of<T>(s: Seq<T>, n: nat) -> Seq<Seq<T>> {
    Seq::new(window_count(s.len(), n), |j: int| s.subrange(j, j + n))
}

/// For unit end offsets `ends`, the byte span of every run of `n` consecutive units: from the
/// end of the unit before the run (or 0) to the end of its last unit.
pub open spec fn sequential_windows(ends: Seq<usize>, n: nat) -> Seq<(usize, usize)> {
    Seq::new(
        window_count(ends.len(), n),
        |j: int|
            (if j == 0 {
                0usize
            } else {
                ends[j - 1]
            }, ends[j + n - 1]),
    )
}

/// Lazily yields each element paired with the next one.
pub struct PairsWindowIter<T> {
    inp: Vec<T>,
    pos: usize,
}

impl<T> PairsWindowIter<T> {
    #[verifier::type_invariant]
    spec fn inv(&self) -> bool {
        self.pos <= pairs_of(self.inp@).len()
    }
}

impl<T: Copy> PairsWindowIter<T> {
    /// The pairs not yet yielded.
    pub closed spec fn remaining(&self) -> Seq<(T, T)> {
        pairs_of(self.inp@).subrange(self.pos as int, pairs_of(self.inp@).len() as int)
    }

    /// Pairs of adjacent elements of `inp`.
    pub fn new(inp: Vec<T>) -> (r: PairsWindowIter<T>)
        ensures
            r.remaining() == pairs_of(inp@),
    {
        let r = PairsWindowIter { inp, pos: 0 };
        assert(r.remaining() =~= pairs_of(r.inp@));
        r
    }

    /// The next pair, or none when all have been yielded.
    pub fn next(&mut self) -> (r: Option<(T, T)>)
        ensures
            old(self).remaining().len() > 0 ==> r == Some(old(self).remaining()[0])
                && final(self).remaining() == old(self).remaining().drop_first(),
            old(self).remaining().len() == 0 ==> r is None && final(self).remaining() == old(
                self,
            ).remaining(),
    {
        proof {
            use_type_invariant(&*self);
        }
        let len = self.inp.len();
        if len >= 1 && self.pos < len - 1 {
            let r = (self.inp[self.pos], self.inp[self.pos + 1]);
            self.pos = self.pos + 1;
            assert(self.remaining() =~= old(self).remaining().drop_first());
            Some(r)
        } else {
            None
        }
    }

    /// All the pairs not yet yielded.
    pub fn collect(self) -> (r: Vec<(T, T)>)
        ensures
            r@ == self.remaining(),
    {
        proof {
            use_type_invariant(&self);
        }
        let len = self.inp.len();
        let mut out: Vec<(T, T)> = Vec::new();
        let mut i: usize = self.pos;
        while len >= 1 && i < len - 1
            invariant
                len == self.inp@.len(),
                self.pos <= i,
                i <= pairs_of(self.inp@).len(),
                out@ == pairs_of(self.inp@).subrange(self.pos as int, i as int),
            decreases self.inp@.len() - i,
        {
            out.push((self.inp[i], self.inp[i + 1]));
            i = i + 1;
            assert(out@ =~= pairs_of(self.inp@).subrange(self.pos as int, i as int));
        }
        out
    }
}

/// Lazily yields every run of `window_size` consecutive elements.
pub struct SlidingWindowIter<T> {
    inp: Vec<T>,
    pos: usize,
    window_size: usize,
}

impl<T> SlidingWindowIter<T> {
    #[verifier::type_invariant]
    spec fn inv(&self) -> bool {
        &&& self.window_size >= 1
        &&& self.pos <= window_count(self.inp@.len(), self.window_size as nat)
    }
}

impl<T: Copy> SlidingWindowIter<T> {
    /// The windows not yet yielded.
    pub closed spec fn remaining(&self) -> Seq<Seq<T>> {
        let all = windows_of(self.inp@, self.window_size as nat);
        all.subrange(self.pos as int, all.len() as int)
    }

    /// Runs of `window_size` consecutive elements of `inp`.
    pub fn new(inp: Vec<T>, window_size: usize) -> (r: SlidingWindowIter<T>)
        requires
            window_size >= 1,
        ensures
            r.remaining() == windows_of(inp@, window_size as nat),
    {
        let r = SlidingWindowIter { inp, pos: 0, window_size };
        assert(r.remaining() =~= windows_of(r.inp@, window_size as nat));
        r
    }

    fn window_at(&self, i: usize) -> (r: Vec<T>)
        requires
            i + self.window_size <= self.inp@.len(),
        ensures
            r@ == self.inp@.subrange(i as int, i + self.window_size),
    {
        let len = self.inp.len();
        let mut w: Vec<T> = Vec::with_capacity(self.window_size);
        let mut k: usize = 0;
        while k < self.window_size
            invariant
                len == self.inp@.len(),
                k <= self.window_size,
                i + self.window_size <= self.inp@.len(),
                w@ == self.inp@.subrange(i as int, i + k),
            decreases self.window_size - k,
        {
            w.push(self.inp[i + k]);
            k = k + 1;
            assert(w@ =~= self.inp@.subrange(i as int, i + k));
        }
        w
    }

    /// The next window, or none when all have been yielded.
    pub fn next(&mut self) -> (r: Option<Vec<T>>)
        ensures
            old(self).remaining().len() > 0 ==> (r matches Some(w) && w@ == old(self).remaining()[0]
                && final(self).remaining() == old(self).remaining().drop_first()),
            old(self).remaining().len() == 0 ==> r is None && final(self).remaining() == old(
                self,
            ).remaining(),
    {
        proof {
            use_type_invariant(&*self);
        }
        if self.window_size <= self.inp.len() && self.pos <= self.inp.len() - self.window_size {
            let w = self.window_at(self.pos);
            self.pos = self.pos + 1;
            assert(self.remaining() =~= old(self).remaining().drop_first());
            Some(w)
        } else {
            None
        }
    }

    /// All the windows not yet yielded.
    pub fn collect(self) -> (r: Vec<Vec<T>>)
        ensures
            r@.len() == self.remaining().len(),
            forall|j: int| 0 <= j < r@.len() ==> #[trigger] r@[j]@ == self.remaining()[j],
    {
        proof {
            use_type_invariant(&self);
        }
        let count: usize = if self.window_size <= self.inp.len() {
            self.inp.len() - self.window_size + 1
        } else {
            0
        };
        let mut out: Vec<Vec<T>> = Vec::new();
        let mut i: usize = self.pos;
        while i < count
            invariant
                self.window_size >= 1,
                count == window_count(self.inp@.len(), self.window_size as nat),
                self.pos <= i <= count,
                out@.len() == i - self.pos,
                forall|j: int| 0 <= j < out@.len() ==> #[trigger] out@[j]@ == self.remaining()[j],
            decreases count - i,
        {
            let w = self.window_at(i);
            out.push(w);
            i = i + 1;
        }
        out
    }
}

/// Lazily yields the byte span of every run of `window_size` consecutive units, given the end
/// offset of each unit.
pub struct SequentialSlidingWindowIter {
    ends: Vec<usize>,
    pos: usize,
    window_size: usize,
}

impl SequentialSlidingWindowIter {
    #[verifier::type_invariant]
    spec fn inv(&self) -> bool {
        &&& self.window_size >= 1
        &&& self.pos <= window_count(self.ends@.len(), self.window_size as nat)
    }

    /// The spans not yet yielded.
    pub closed spec fn remaining(&self) -> Seq<(usize, usize)> {
        let all = sequential_windows(self.ends@, self.window_size as nat);
        all.subrange(self.pos as int, all.len() as int)
    }

    /// Spans of runs of `window_size` units whose end offsets are `ends`.
    pub fn new(ends: Vec<usize>, window_size: usize) -> (r: SequentialSlidingWindowIter)
        requires
            window_size >= 1,
        ensures
            r.remaining() == sequential_windows(ends@, window_size as nat),
    {
        let r = SequentialSlidingWindowIter { ends, pos: 0, window_size };
        assert(r.remaining() =~= sequential_windows(r.ends@, window_size as nat));
        r
    }

    fn span_at(&self, i: usize) -> (r: (usize, usize))
        requires
            self.window_size >= 1,
            i + self.window_size <= self.ends@.len(),
        ensures
            r == sequential_windows(self.ends@, self.window_size as nat)[i as int],
    {
        let len = self.ends.len();
        let start = if i == 0 {
            0
        } else {
            self.ends[i - 1]
        };
        (start, self.ends[i + self.window_size - 1])
    }

    /// The next span, or none when all have been yielded.
    pub fn next(&mut self) -> (r: Option<(usize, usize)>)
        ensures
            old(self).remaining().len() > 0 ==> r == Some(old(self).remaining()[0])
                && final(self).remaining() == old(self).remaining().drop_first(),
            old(self).remaining().len() == 0 ==> r is None && final(self).remaining() == old(
                self,
            ).remaining(),
    {
        proof {
            use_type_invariant(&*self);
        }
        if self.window_size <= self.ends.len() && self.pos <= self.ends.len() - self.window_size {
            let s = self.span_at(self.pos);
            self.pos = self.pos + 1;
            assert(self.remaining() =~= old(self).remaining().drop_first());
            Some(s)
        } else {
            None
        }
    }

    /// All the spans not yet yielded.
    pub fn collect(self) -> (r: Vec<(usize, usize)>)
        ensures
            r@ == self.remaining(),
    {
        proof {
            use_type_invariant(&self);
        }
        let count: usize = if self.window_size <= self.ends.len() {
            self.ends.len() - self.window_size + 1
        } else {
            0
        };
        let mut out: Vec<(usize, usize)> = Vec::new();
        let mut i: usize = self.pos;
        while i < count
            invariant
                self.window_size >= 1,
                count == window_count(self.ends@.len(), self.window_size as nat),
                self.pos <= i <= count,
                out@ == sequential_windows(self.ends@, self.window_size as nat).subrange(
                    self.pos as int,
                    i as int,
                ),
            decreases count - i,
        {
            let s = self.span_at(i);
            out.push(s);
            i = i + 1;
            assert(out@ =~= sequential_windows(self.ends@, self.window_size as nat).subrange(
                self.pos as int,
                i as int,
            ));
        }
        out
    }
}

/// Pairs each element with the next one.
pub trait PairIterExt<T>: Sized {
    fn sliding_pairs(self) -> PairsWindowIter<T>;
}

impl<T: Copy> PairIterExt<T> for Vec<T> {
    fn sliding_pairs(self) -> (r: PairsWindowIter<T>)
        ensures
            r.remaining() == pairs_of(self@),
    {
        PairsWindowIter::new(self)
    }
}

/// Runs of consecutive elements.
pub trait SlidingWindowIterExt<T>: Sized {
    fn sliding_window(self, window_size: usize) -> SlidingWindowIter<T>
        requires
            window_size >= 1,
    ;
}

impl<T: Copy> SlidingWindowIterExt<T> for Vec<T> {
    fn sliding_window(self, window_size: usize) -> (r: SlidingWindowIter<T>)
        ensures
            r.remaining() == windows_of(self@, window_size as nat),
    {
        SlidingWindowIter::new(self, window_size)
    }
}

/// Spans of runs of consecutive units, from the units' end offsets.
pub trait SequentialSlidingWindowIterExt: Sized {
    fn sliding_sequential_window(self, window_size: usize) -> SequentialSlidingWindowIter
        requires
            window_size >= 1,
    ;
}

impl SequentialSlidingWindowIterExt for Vec<usize> {
    fn sliding_sequential_window(self, window_size: usize) -> (r: SequentialSlidingWindowIter)
        ensures
            r.remaining() == sequential_windows(self@, window_size as nat),
    {
        SequentialSlidingWindowIter::new(self, window_size)
    }
}

} // verus!
