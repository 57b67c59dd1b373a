//! Fingerprints of texts: windows of units, hashed and folded by majority vote.

use vstd::prelude::*;
use vstd::utf8::{encode_utf8, is_ascii_chars, is_char_boundary, is_continuation_byte, valid_utf8};
use vstd::string::StringSliceAdditionalSpecFns;
use crate::aggregate::{aggregate, simhash_impl};
use crate::feature::{FeatureType, unit_spans, unit_spans_of, byte_spans, char_ends, ends_to_spans};
use crate::hash::{HashMethod, HashTables, ShHash, digest, joined, slices_in_bounds, le_u16};

verus! {

/// The window size given to a `SimHasher` was 0.
#[derive(Clone, Copy, Debug, PartialEq, Eq)]
pub struct InvalidWindowSize(pub &'static str);

impl InvalidWindowSize {
    /// Why the window size was refused.
    pub fn reason(&self) -> (r: &'static str)
        ensures
            r == self.0,
    {
        self.0
    }
}

/// Errors of configuring a `SimHasher`.
#[derive(Clone, Copy, Debug, PartialEq, Eq)]
pub enum Error {
    InvalidWindowSize(InvalidWindowSize),
}

/// Number of windows of `n` consecutive units among `units` units.
pub open spec fn window_count(units: nat, n: nat) -> nat {
    if n <= units {
        (units - n + 1) as nat
    } else {
        0
    }
}

/// The bytes of each window of `n` consecutive spans, in order.
pub open spec fn window_contents(bytes: Seq<u8>, spans: Seq<(usize, usize)>, n: nat) -> Seq<Seq<u8>> {
    Seq::new(window_count(spans.len(), n), |j: int| joined(bytes, spans.subrange(j, j + n)))
}

/// The hash of each window.
pub open spec fn feature_hashes(method: HashMethod, bytes: Seq<u8>, spans: Seq<(usize, usize)>, n: nat) -> Seq<u64> {
    Seq::new(window_count(spans.len(), n), |j: int| digest(method, joined(bytes, spans.subrange(j, j + n))))
}

/// The bytes of each feature of `text`: each window of `n` consecutive units.
pub open spec fn text_features(feature_type: FeatureType, n: nat, text: Seq<char>) -> Seq<Seq<u8>> {
    window_contents(encode_utf8(text), unit_spans(feature_type, text), n)
}

/// The fingerprint of `text`: the majority vote over the hashes of its features.
pub open spec fn fingerprint(method: HashMethod, feature_type: FeatureType, n: nat, text: Seq<char>) -> u64 {
    aggregate(feature_hashes(method, encode_utf8(text), unit_spans(feature_type, text), n))
}

/// Spans that follow each other without a gap, each inside `len` bytes.
pub open spec fn contiguous(spans: Seq<(usize, usize)>, len: int) -> bool {
    &&& forall|k: int| 0 <= k < spans.len() ==> (#[trigger] spans[k]).0 <= spans[k].1 <= len
    &&& forall|k: int| 0 <= k < spans.len() - 1 ==> #[trigger] spans[k].1 == spans[k + 1].0
}

proof fn lemma_joined_contiguous(bytes: Seq<u8>, w: Seq<(usize, usize)>)
    requires
        w.len() > 0,
        contiguous(w, bytes.len() as int),
    ensures
        joined(bytes, w) == bytes.subrange(w[0].0 as int, w.last().1 as int),
    decreases w.len(),
{
    let last = w.last();
    assert(w[0].0 <= w[0].1 <= bytes.len());
    assert(last.0 <= last.1 <= bytes.len());
    if w.len() == 1 {
        assert(joined(bytes, w.drop_last()) == Seq::<u8>::empty());
        assert(joined(bytes, w) =~= bytes.subrange(w[0].0 as int, w.last().1 as int));
    } else {
        let front = w.drop_last();
        assert(contiguous(front, bytes.len() as int)) by {
            assert forall|k: int| 0 <= k < front.len() - 1 implies #[trigger] front[k].1 == front[k + 1].0 by {
                assert(w[k].1 == w[k + 1].0);
            }
        }
        lemma_joined_contiguous(bytes, front);
        lemma_span_order(front, bytes.len() as int);
        assert(w[w.len() - 2].1 == w[w.len() - 1].0);
        assert(front.last() == w[w.len() - 2]);
        assert(front[0] == w[0]);
        assert(joined(bytes, w) =~= bytes.subrange(w[0].0 as int, w.last().1 as int));
    }
}

proof fn lemma_contiguous_sub(spans: Seq<(usize, usize)>, len: int, j: int, n: int)
    requires
        contiguous(spans, len),
        0 <= j,
        0 <= n,
        j + n <= spans.len(),
    ensures
        contiguous(spans.subrange(j, j + n), len),
{
    let w = spans.subrange(j, j + n);
    assert forall|k: int| 0 <= k < w.len() - 1 implies #[trigger] w[k].1 == w[k + 1].0 by {
        assert(spans[j + k].1 == spans[j + k + 1].0);
    }
    assert forall|k: int| 0 <= k < w.len() implies #[trigger] w[k].0 <= w[k].1 <= len by {
        assert(spans[j + k].0 <= spans[j + k].1 <= len);
    }
}

proof fn lemma_byte_spans_contiguous(len: nat)
    requires
        len <= usize::MAX,
    ensures
        contiguous(byte_spans(len), len as int),
{
    let s = byte_spans(len);
    assert forall|k: int| 0 <= k < s.len() implies #[trigger] s[k].0 <= s[k].1 <= len by {}
    assert forall|k: int| 0 <= k < s.len() - 1 implies #[trigger] s[k].1 == s[k + 1].0 by {}
}

/// Hashes of the single bytes, read from the table.
fn byte_hashes(tables: &HashTables, bytes: &[u8]) -> (r: Vec<u64>)
    ensures
        r@ == feature_hashes(tables.method(), bytes@, byte_spans(bytes@.len()), 1),
{
    let len = bytes.len();
    let mut out: Vec<u64> = Vec::with_capacity(len);
    let mut i: usize = 0;
    let ghost spans = byte_spans(bytes@.len());
    while i < len
        invariant
            len == bytes@.len(),
            i <= len,
            spans == byte_spans(bytes@.len()),
            out@ == feature_hashes(tables.method(), bytes@, spans, 1).subrange(0, i as int),
        decreases len - i,
    {
        let h = tables.hash_u8(bytes[i]);
        proof {
            let w = spans.subrange(i as int, i + 1);
            lemma_byte_spans_contiguous(bytes@.len());
            lemma_contiguous_sub(spans, len as int, i as int, 1);
            lemma_joined_contiguous(bytes@, w);
            assert(joined(bytes@, w) =~= seq![bytes@[i as int]]);
        }
        out.push(h);
        i = i + 1;
        assert(out@ =~= feature_hashes(tables.method(), bytes@, spans, 1).subrange(0, i as int));
    }
    assert(feature_hashes(tables.method(), bytes@, spans, 1).subrange(0, i as int) =~= feature_hashes(tables.method(), bytes@, spans, 1));
    out
}

/// Hashes of the pairs of adjacent bytes, read from the table.
fn pair_hashes(tables: &HashTables, bytes: &[u8]) -> (r: Vec<u64>)
    ensures
        r@ == feature_hashes(tables.method(), bytes@, byte_spans(bytes@.len()), 2),
{
    let len = bytes.len();
    let count: usize = if len >= 2 { len - 1 } else { 0 };
    let mut out: Vec<u64> = Vec::with_capacity(count);
    let mut i: usize = 0;
    let ghost spans = byte_spans(bytes@.len());
    while i < count
        invariant
            len == bytes@.len(),
            count == window_count(len as nat, 2),
            i <= count,
            spans == byte_spans(bytes@.len()),
            out@ == feature_hashes(tables.method(), bytes@, spans, 2).subrange(0, i as int),
        decreases count - i,
    {
        let h = tables.hash_u16(le_u16(bytes[i], bytes[i + 1]));
        proof {
            let w = spans.subrange(i as int, i + 2);
            lemma_byte_spans_contiguous(bytes@.len());
            lemma_contiguous_sub(spans, len as int, i as int, 2);
            lemma_joined_contiguous(bytes@, w);
            assert(joined(bytes@, w) =~= seq![bytes@[i as int], bytes@[i + 1]]);
        }
        out.push(h);
        i = i + 1;
        assert(out@ =~= feature_hashes(tables.method(), bytes@, spans, 2).subrange(0, i as int));
    }
    assert(feature_hashes(tables.method(), bytes@, spans, 2).subrange(0, i as int) =~= feature_hashes(tables.method(), bytes@, spans, 2));
    out
}

/// Hashes of the windows of `n` consecutive bytes, each hashed as one slice.
fn byte_window_hashes(method: HashMethod, bytes: &[u8], n: usize) -> (r: Vec<u64>)
    requires
        n >= 1,
    ensures
        r@ == feature_hashes(method, bytes@, byte_spans(bytes@.len()), n as nat),
{
    let len = bytes.len();
    let count: usize = if len >= n { len - n + 1 } else { 0 };
    let mut out: Vec<u64> = Vec::with_capacity(count);
    let mut i: usize = 0;
    let ghost spans = byte_spans(bytes@.len());
    while i < count
        invariant
            n >= 1,
            len == bytes@.len(),
            count == window_count(len as nat, n as nat),
            i <= count,
            spans == byte_spans(bytes@.len()),
            out@ == feature_hashes(method, bytes@, spans, n as nat).subrange(0, i as int),
        decreases count - i,
    {
        let h = method.hash_bytes(&bytes[i..i + n]);
        proof {
            let w = spans.subrange(i as int, i + n);
            lemma_byte_spans_contiguous(bytes@.len());
            lemma_contiguous_sub(spans, len as int, i as int, n as int);
            lemma_joined_contiguous(bytes@, w);
        }
        out.push(h);
        i = i + 1;
        assert(out@ =~= feature_hashes(method, bytes@, spans, n as nat).subrange(0, i as int));
    }
    assert(feature_hashes(method, bytes@, spans, n as nat).subrange(0, i as int) =~= feature_hashes(method, bytes@, spans, n as nat));
    out
}

/// Hashes of the windows of `n` consecutive spans that follow each other without a gap,
/// each window hashed as the one slice it covers.
fn contiguous_window_hashes(method: HashMethod, bytes: &[u8], spans: &Vec<(usize, usize)>, n: usize) -> (r: Vec<u64>)
    requires
        n >= 1,
        contiguous(spans@, bytes@.len() as int),
    ensures
        r@ == feature_hashes(method, bytes@, spans@, n as nat),
{
    let units = spans.len();
    let count: usize = if units >= n { units - n + 1 } else { 0 };
    let mut out: Vec<u64> = Vec::with_capacity(count);
    let mut i: usize = 0;
    while i < count
        invariant
            n >= 1,
            contiguous(spans@, bytes@.len() as int),
            units == spans@.len(),
            count == window_count(units as nat, n as nat),
            i <= count,
            out@ == feature_hashes(method, bytes@, spans@, n as nat).subrange(0, i as int),
        decreases count - i,
    {
        let start = spans[i].0;
        let end = spans[i + n - 1].1;
        proof {
            let w = spans@.subrange(i as int, i + n);
            lemma_contiguous_sub(spans@, bytes@.len() as int, i as int, n as int);
            lemma_joined_contiguous(bytes@, w);
            assert(w[0] == spans@[i as int]);
            assert(w.last() == spans@[i + n - 1]);
            assert(start <= spans@[i as int].1);
            assert(start <= end) by {
                if n > 1 {
                    assert(w[0].0 <= w.last().1) by {
                        lemma_span_order(w, bytes@.len() as int);
                    }
                }
            }
        }
        let h = method.hash_bytes(&bytes[start..end]);
        out.push(h);
        i = i + 1;
        assert(out@ =~= feature_hashes(method, bytes@, spans@, n as nat).subrange(0, i as int));
    }
    assert(feature_hashes(method, bytes@, spans@, n as nat).subrange(0, i as int) =~= feature_hashes(method, bytes@, spans@, n as nat));
    out
}

proof fn lemma_span_order(w: Seq<(usize, usize)>, len: int)
    requires
        w.len() > 0,
        contiguous(w, len),
    ensures
        w[0].0 <= w.last().1,
    decreases w.len(),
{
    if w.len() > 1 {
        let front = w.drop_last();
        assert(contiguous(front, len)) by {
            assert forall|k: int| 0 <= k < front.len() - 1 implies #[trigger] front[k].1 == front[k + 1].0 by {
                assert(w[k].1 == w[k + 1].0);
            }
        }
        lemma_span_order(front, len);
        assert(w[w.len() - 2].1 == w[w.len() - 1].0);
    }
}

/// The bytes of the window of `n` spans from span `start`, one span after the other.
fn join_window(bytes: &[u8], spans: &Vec<(usize, usize)>, start: usize, n: usize) -> (r: Vec<u8>)
    requires
        start + n <= spans@.len(),
        slices_in_bounds(spans@, bytes@.len() as int),
    ensures
        r@ == joined(bytes@, spans@.subrange(start as int, start + n)),
{
    let units = spans.len();
    let mut buf: Vec<u8> = Vec::new();
    let mut k: usize = 0;
    while k < n
        invariant
            k <= n,
            units == spans@.len(),
            start + n <= spans@.len(),
            slices_in_bounds(spans@, bytes@.len() as int),
            buf@ == joined(bytes@, spans@.subrange(start as int, start + k)),
        decreases n - k,
    {
        let (a, b) = spans[start + k];
        assert(spans@[start + k].0 <= spans@[start + k].1 <= bytes@.len());
        let ghost before = buf@;
        let mut x: usize = a;
        while x < b
            invariant
                a <= x <= b <= bytes@.len(),
                buf@ == before + bytes@.subrange(a as int, x as int),
            decreases b - x,
        {
            buf.push(bytes[x]);
            x = x + 1;
            assert(buf@ =~= before + bytes@.subrange(a as int, x as int));
        }
        assert(spans@.subrange(start as int, start + k + 1).drop_last() =~= spans@.subrange(start as int, start + k));
        k = k + 1;
    }
    buf
}

/// Hashes of the windows of `n` consecutive spans, each window hashed as its slices taken
/// one after the other.
fn multi_window_hashes(tables: &HashTables, bytes: &[u8], spans: &Vec<(usize, usize)>, n: usize) -> (r: Vec<u64>)
    requires
        n >= 1,
        slices_in_bounds(spans@, bytes@.len() as int),
    ensures
        r@ == feature_hashes(tables.method(), bytes@, spans@, n as nat),
{
    let units = spans.len();
    let count: usize = if units >= n { units - n + 1 } else { 0 };
    let mut out: Vec<u64> = Vec::with_capacity(count);
    let mut i: usize = 0;
    while i < count
        invariant
            n >= 1,
            slices_in_bounds(spans@, bytes@.len() as int),
            units == spans@.len(),
            count == window_count(units as nat, n as nat),
            i <= count,
            out@ == feature_hashes(tables.method(), bytes@, spans@, n as nat).subrange(0, i as int),
        decreases count - i,
    {
        let mut window: Vec<(usize, usize)> = Vec::with_capacity(n);
        let mut k: usize = 0;
        while k < n
            invariant
                k <= n,
                i + n <= units,
                units == spans@.len(),
                slices_in_bounds(spans@, bytes@.len() as int),
                window@ == spans@.subrange(i as int, i + k),
            decreases n - k,
        {
            window.push(spans[i + k]);
            k = k + 1;
            assert(window@ =~= spans@.subrange(i as int, i + k));
        }
        assert forall|j: int| 0 <= j < window@.len() implies #[trigger] window@[j].0 <= window@[j].1 <= bytes@.len() by {
            assert(spans@[i + j].0 <= spans@[i + j].1 <= bytes@.len());
        }
        let h = tables.hash_multi(bytes, &window);
        out.push(h);
        i = i + 1;
        assert(out@ =~= feature_hashes(tables.method(), bytes@, spans@, n as nat).subrange(0, i as int));
    }
    assert(feature_hashes(tables.method(), bytes@, spans@, n as nat).subrange(0, i as int) =~= feature_hashes(tables.method(), bytes@, spans@, n as nat));
    out
}

/// Computes fingerprints of texts under one configuration: a hash method, a feature type
/// and a window size of at least 1.
#[derive(Debug)]
pub struct SimHasher {
    hash_method: HashMethod,
    feature_type: FeatureType,
    window_size: usize,
    tables: HashTables,
}

impl SimHasher {
    /// The configured hash method.
    pub closed spec fn method(&self) -> HashMethod {
        self.hash_method
    }

    /// The configured feature type.
    pub closed spec fn features(&self) -> FeatureType {
        self.feature_type
    }

    /// The configured window size.
    pub closed spec fn window(&self) -> nat {
        self.window_size as nat
    }

    /// The fingerprint this hasher gives `text`.
    pub open spec fn fingerprint_of(&self, text: Seq<char>) -> u64 {
        fingerprint(self.method(), self.features(), self.window(), text)
    }

    /// The window size is positive and the tables belong to the hash method.
    #[verifier::type_invariant]
    closed spec fn wf(&self) -> bool {
        &&& self.window_size >= 1
        &&& self.tables.method() == self.hash_method
    }

    /// A hasher for the configuration; fails when `window_size` is 0.
    pub fn new(hash_method: HashMethod, features: FeatureType, window_size: usize) -> (r: Result<
        SimHasher,
        Error,
    >)
        ensures
            window_size == 0 <==> r is Err,
            r matches Ok(h) ==> h.method() == hash_method && h.features() == features
                && h.window() == window_size,
            r matches Err(e) ==> e == Error::InvalidWindowSize(
                InvalidWindowSize("Window size must be greater than 0"),
            ),
    {
        if window_size == 0 {
            return Err(Error::InvalidWindowSize(InvalidWindowSize("Window size must be greater than 0")));
        }
        Ok(SimHasher {
            hash_method,
            feature_type: features,
            window_size,
            tables: HashTables::new(hash_method),
        })
    }

    /// The configured hash method.
    pub fn hash_method(&self) -> (r: HashMethod)
        ensures
            r == self.method(),
    {
        self.hash_method
    }

    /// The configured feature type.
    pub fn feature_type(&self) -> (r: FeatureType)
        ensures
            r == self.features(),
    {
        self.feature_type
    }

    /// The configured window size.
    pub fn window_size(&self) -> (r: usize)
        ensures
            r == self.window(),
    {
        self.window_size
    }

    /// A hasher of the same configuration.
    pub fn duplicate(&self) -> (r: SimHasher)
        ensures
            r.method() == self.method(),
            r.features() == self.features(),
            r.window() == self.window(),
    {
        proof {
            use_type_invariant(self);
        }
        SimHasher {
            hash_method: self.hash_method,
            feature_type: self.feature_type,
            window_size: self.window_size,
            tables: HashTables::new(self.hash_method),
        }
    }

    /// The hash of each feature of `text`, in order.
    fn feature_hash_list(&self, text: &str) -> (r: Vec<u64>)
        ensures
            r@ == feature_hashes(
                self.method(),
                encode_utf8(text@),
                unit_spans(self.features(), text@),
                self.window(),
            ),
    {
        proof {
            use_type_invariant(self);
        }
        let bytes = text.as_bytes();
        let n = self.window_size;
        match self.feature_type {
            FeatureType::Bytes => {
                if n == 1 {
                    byte_hashes(&self.tables, bytes)
                } else if n == 2 {
                    pair_hashes(&self.tables, bytes)
                } else {
                    byte_window_hashes(self.hash_method, bytes, n)
                }
            },
            FeatureType::Chars => {
                let spans = unit_spans_of(text, FeatureType::Chars);
                proof {
                    assert forall|k: int| 0 <= k < spans@.len() - 1 implies #[trigger] spans@[k].1
                        == spans@[k + 1].0 by {}
                }
                contiguous_window_hashes(self.hash_method, bytes, &spans, n)
            },
            _ => {
                let spans = unit_spans_of(text, self.feature_type);
                multi_window_hashes(&self.tables, bytes, &spans, n)
            },
        }
    }

    /// The fingerprint of `text`.
    pub fn hash(&self, text: &str) -> (r: u64)
        ensures
            r == self.fingerprint_of(text@),
    {
        let hashes = self.feature_hash_list(text);
        simhash_impl(hashes.as_slice())
    }

    /// The bytes of each feature of `text`, in order: what `hash` hashes.
    pub fn feature_extractor(&self, text: &str) -> (r: Vec<Vec<u8>>)
        ensures
            r@.len() == text_features(self.features(), self.window(), text@).len(),
            forall|j: int|
                0 <= j < r@.len() ==> #[trigger] r@[j]@ == text_features(
                    self.features(),
                    self.window(),
                    text@,
                )[j],
    {
        proof {
            use_type_invariant(self);
        }
        window_bytes(text, self.feature_type, self.window_size)
    }
}

impl Clone for SimHasher {
    /// A hasher of the same configuration, with its own tables.
    fn clone(&self) -> (r: SimHasher)
        ensures
            r.method() == self.method(),
            r.features() == self.features(),
            r.window() == self.window(),
    {
        self.duplicate()
    }
}

fn window_bytes(text: &str, feature_type: FeatureType, n: usize) -> (r: Vec<Vec<u8>>)
    requires
        n >= 1,
    ensures
        r@.len() == text_features(feature_type, n as nat, text@).len(),
        forall|j: int|
            0 <= j < r@.len() ==> #[trigger] r@[j]@ == text_features(feature_type, n as nat, text@)[j],
{
    let bytes = text.as_bytes();
    let spans = unit_spans_of(text, feature_type);
    let units = spans.len();
    let count: usize = if units >= n { units - n + 1 } else { 0 };
    let ghost want = text_features(feature_type, n as nat, text@);
    let mut out: Vec<Vec<u8>> = Vec::with_capacity(count);
    let mut i: usize = 0;
    while i < count
        invariant
            n >= 1,
            bytes@ == encode_utf8(text@),
            spans@ == unit_spans(feature_type, text@),
            slices_in_bounds(spans@, bytes@.len() as int),
            units == spans@.len(),
            count == window_count(units as nat, n as nat),
            want == text_features(feature_type, n as nat, text@),
            want.len() == count,
            i <= count,
            out@.len() == i,
            forall|j: int| 0 <= j < i ==> #[trigger] out@[j]@ == want[j],
        decreases count - i,
    {
        let w = join_window(bytes, &spans, i, n);
        out.push(w);
        i = i + 1;
    }
    out
}

/// The bytes of each feature of `text`: each window of `window_size` consecutive units of
/// `feature_type`. Fails when `window_size` is 0.
pub fn extract_features(text: &str, feature_type: FeatureType, window_size: usize) -> (r: Result<
    Vec<Vec<u8>>,
    Error,
>)
    ensures
        window_size == 0 <==> r is Err,
        r matches Ok(fs) ==> fs@.len() == text_features(feature_type, window_size as nat, text@).len()
            && forall|j: int|
            0 <= j < fs@.len() ==> #[trigger] fs@[j]@ == text_features(
                feature_type,
                window_size as nat,
                text@,
            )[j],
{
    if window_size == 0 {
        return Err(Error::InvalidWindowSize(InvalidWindowSize("Window size must be greater than 0")));
    }
    Ok(window_bytes(text, feature_type, window_size))
}

/// The fingerprint of `text` under the configuration. Fails when `window_size` is 0.
pub fn hash(text: &str, method: HashMethod, feature_type: FeatureType, window_size: usize) -> (r: Result<u64, Error>)
    ensures
        window_size == 0 <==> r is Err,
        r matches Ok(f) ==> f == fingerprint(method, feature_type, window_size as nat, text@),
{
    match SimHasher::new(method, feature_type, window_size) {
        Ok(h) => Ok(h.hash(text)),
        Err(e) => Err(e),
    }
}

/// Two hashers of the same configuration give a text the same fingerprint, and so does one
/// hasher asked twice: the fingerprint is a function of the configuration and the text.
pub proof fn lemma_hash_deterministic(a: &SimHasher, b: &SimHasher, text: Seq<char>)
    requires
        a.method() == b.method(),
        a.features() == b.features(),
        a.window() == b.window(),
    ensures
        a.fingerprint_of(text) == b.fingerprint_of(text),
{
}

/// The fingerprint does not depend on the order in which feature hashes are folded: folding
/// any rearrangement of a text's feature hashes gives the text's fingerprint.
pub proof fn lemma_hash_order_independent(h: &SimHasher, text: Seq<char>, hashes: Seq<u64>)
    requires
        hashes.to_multiset() == feature_hashes(
            h.method(),
            encode_utf8(text),
            unit_spans(h.features(), text),
            h.window(),
        ).to_multiset(),
    ensures
        aggregate(hashes) == h.fingerprint_of(text),
{
    crate::aggregate::lemma_aggregate_permutation(
        hashes,
        feature_hashes(h.method(), encode_utf8(text), unit_spans(h.features(), text), h.window()),
    );
}

/// The 16-bit values `hash_pair` hashes for the bytes `b`: each pair of adjacent bytes read
/// little-endian. Fewer than two bytes give no pair.
pub open spec fn byte_pair_values(b: Seq<u8>) -> Seq<u16> {
    Seq::new(
        if b.len() >= 2 {
            (b.len() - 1) as nat
        } else {
            0
        },
        |i: int| (b[i + 1] as u16 * 256 + b[i] as u16) as u16,
    )
}

/// The majority-vote fingerprint of the byte pairs of `val`, each hashed by `f`. A text of
/// fewer than two bytes has no pair and gives 0.
pub fn hash_pair<F: Fn(u16) -> u64>(val: &str, f: F) -> (r: u64)
    requires
        forall|v: u16| f.requires((v,)),
    ensures
        exists|hs: Seq<u64>|
            {
                &&& hs.len() == byte_pair_values(val.spec_bytes()).len()
                &&& forall|i: int|
                    0 <= i < hs.len() ==> f.ensures(
                        (byte_pair_values(val.spec_bytes())[i],),
                        #[trigger] hs[i],
                    )
                &&& r == aggregate(hs)
            },
{
    let bytes = val.as_bytes();
    let len = bytes.len();
    let ghost values = byte_pair_values(bytes@);
    let mut hashes: Vec<u64> = Vec::new();
    if len >= 2 {
        let mut i: usize = 0;
        while i < len - 1
            invariant
                len == bytes@.len(),
                len >= 2,
                i <= len - 1,
                values == byte_pair_values(bytes@),
                forall|v: u16| f.requires((v,)),
                hashes@.len() == i,
                forall|k: int| 0 <= k < i ==> f.ensures((values[k],), #[trigger] hashes@[k]),
            decreases len - 1 - i,
        {
            let v = le_u16(bytes[i], bytes[i + 1]);
            let h = f(v);
            hashes.push(h);
            i = i + 1;
        }
    }
    let r = simhash_impl(hashes.as_slice());
    assert(hashes@.len() == values.len());
    r
}

proof fn lemma_ascii_char_ends(bytes: Seq<u8>, k: int)
    requires
        valid_utf8(bytes),
        forall|i: int| 0 <= i < bytes.len() ==> !is_continuation_byte(#[trigger] bytes[i]),
        0 <= k <= bytes.len(),
        bytes.len() <= usize::MAX,
    ensures
        char_ends(bytes, k) == Seq::new(k as nat, |i: int| (i + 1) as usize),
    decreases k,
{
    if k > 0 {
        lemma_ascii_char_ends(bytes, k - 1);
        if k < bytes.len() {
            vstd::utf8::is_char_boundary_iff_not_is_continuation_byte(bytes, k);
        } else {
            vstd::utf8::is_char_boundary_start_end_of_seq(bytes);
        }
        assert(is_char_boundary(bytes, k));
        assert(char_ends(bytes, k) =~= Seq::new(k as nat, |i: int| (i + 1) as usize));
    }
}

/// On ASCII text every byte is a char, so the byte and char feature types give the same
/// fingerprint for any hash method and window size.
pub proof fn lemma_ascii_bytes_chars_agree(method: HashMethod, n: nat, text: Seq<char>)
    requires
        is_ascii_chars(text),
        encode_utf8(text).len() <= usize::MAX,
    ensures
        fingerprint(method, FeatureType::Bytes, n, text) == fingerprint(method, FeatureType::Chars, n, text),
{
    let bytes = encode_utf8(text);
    vstd::utf8::is_ascii_chars_encode_utf8(text);
    vstd::utf8::is_ascii_chars_nat_bound(text);
    vstd::utf8::encode_utf8_valid_utf8(text);
    assert forall|i: int| 0 <= i < bytes.len() implies !is_continuation_byte(#[trigger] bytes[i]) by {
        assert(text[i] as u8 == bytes[i]);
        assert((text[i] as nat) < 128);
    }
    lemma_ascii_char_ends(bytes, bytes.len() as int);
    assert(ends_to_spans(char_ends(bytes, bytes.len() as int)) =~= byte_spans(bytes.len()));
}

} // verus!
