//! The units text is cut into: bytes, chars, grapheme clusters and words.

use vstd::prelude::*;
use vstd::utf8::{encode_utf8, decode_utf8, valid_utf8, is_char_boundary, encode_utf8_decode_utf8};
use vstd::string::StringSliceAdditionalSpecFns;
use unicode_segmentation::UnicodeSegmentation;
use crate::hash::slices_in_bounds;
use crate::window::{sequential_windows, SequentialSlidingWindowIter};

verus! {

/// The unit that features are made of.
#[derive(PartialEq, Eq, Structural, Clone, Copy, Debug)]
pub enum FeatureType {
    /// Raw bytes.
    Bytes,
    /// Extended grapheme clusters.
    Graphemes,
    /// Unicode scalar values.
    Chars,
    /// Words by Unicode word segmentation, without punctuation-only pieces.
    Words,
}

/// The extended grapheme clusters of `text` that `unicode_segmentation` finds, each as its
/// byte offset and byte length.
pub uninterp spec fn grapheme_pieces(text: Seq<char>) -> Seq<(usize, usize)>;

/// The words of `text` that `unicode_segmentation` finds, each as its byte offset and byte
/// length.
pub uninterp spec fn word_pieces(text: Seq<char>) -> Seq<(usize, usize)>;

/// Every piece (offset, length) ends inside a text of `len` bytes.
pub open spec fn pieces_in_bounds(pieces: Seq<(usize, usize)>, len: int) -> bool {
    forall|k: int| 0 <= k < pieces.len() ==> (#[trigger] pieces[k]).0 + pieces[k].1 <= len
}

/// Each piece (offset, length) is non-empty, starts and ends on char boundaries of `bytes`,
/// and ends no later than the next piece starts.
pub open spec fn pieces_ordered(pieces: Seq<(usize, usize)>, bytes: Seq<u8>) -> bool {
    &&& pieces_in_bounds(pieces, bytes.len() as int)
    &&& forall|k: int|
        0 <= k < pieces.len() ==> (#[trigger] pieces[k]).1 > 0 && is_char_boundary(bytes, pieces[k].0 as int)
            && is_char_boundary(bytes, pieces[k].0 + pieces[k].1)
    &&& forall|k: int| 0 <= k < pieces.len() - 1 ==> (#[trigger] pieces[k]).0 + pieces[k].1 <= pieces[k + 1].0
}

/// The pieces cover a text of `len` bytes from offset 0 to its end without gaps.
pub open spec fn pieces_tile(pieces: Seq<(usize, usize)>, len: int) -> bool {
    &&& pieces.len() == 0 <==> len == 0
    &&& pieces.len() > 0 ==> pieces[0].0 == 0 && pieces.last().0 + pieces.last().1 == len
    &&& forall|k: int| 0 <= k < pieces.len() - 1 ==> (#[trigger] pieces[k]).0 + pieces[k].1 == pieces[k + 1].0
}

/// Relies on `UnicodeSegmentation::grapheme_indices(text, true)`: the extended grapheme
/// clusters are non-empty slices of `text` that follow each other from its start to its end,
/// each at the reported offset; the result depends on `text` alone.
#[verifier::external_body]
fn grapheme_pieces_of(text: &str) -> (r: Vec<(usize, usize)>)
    ensures
        r@ == grapheme_pieces(text@),
        pieces_ordered(r@, text.spec_bytes()),
        pieces_tile(r@, text.spec_bytes().len() as int),
{
    text.grapheme_indices(true).map(|(i, g)| (i, g.len())).collect()
}

/// Relies on `UnicodeSegmentation::unicode_word_indices`: the words are non-empty slices of
/// `text` in order, without overlap, each at the reported offset; the result depends on
/// `text` alone.
#[verifier::external_body]
fn word_pieces_of(text: &str) -> (r: Vec<(usize, usize)>)
    ensures
        r@ == word_pieces(text@),
        pieces_ordered(r@, text.spec_bytes()),
{
    text.unicode_word_indices().map(|(i, w)| (i, w.len())).collect()
}

/// The byte spans of the pieces.
pub open spec fn piece_spans(pieces: Seq<(usize, usize)>) -> Seq<(usize, usize)> {
    Seq::new(pieces.len(), |k: int| (pieces[k].0, (pieces[k].0 + pieces[k].1) as usize))
}

/// One span per byte.
pub open spec fn byte_spans(len: nat) -> Seq<(usize, usize)> {
    Seq::new(len, |i: int| (i as usize, (i + 1) as usize))
}

/// The positions in `1..=upto` that are char boundaries of `bytes`, ascending: the end of
/// each char that ends there.
pub open spec fn char_ends(bytes: Seq<u8>, upto: int) -> Seq<usize>
    decreases upto,
{
    if upto <= 0 {
        Seq::empty()
    } else if is_char_boundary(bytes, upto) {
        char_ends(bytes, upto - 1).push(upto as usize)
    } else {
        char_ends(bytes, upto - 1)
    }
}

/// Spans that tile a text from offset 0, given the end of each.
pub open spec fn ends_to_spans(ends: Seq<usize>) -> Seq<(usize, usize)> {
    Seq::new(
        ends.len(),
        |j: int|
            (if j == 0 {
                0usize
            } else {
                ends[j - 1]
            }, ends[j]),
    )
}

/// The byte spans of the units of `text` under `feature_type`, in order.
pub open spec fn unit_spans(feature_type: FeatureType, text: Seq<char>) -> Seq<(usize, usize)> {
    let bytes = encode_utf8(text);
    match feature_type {
        FeatureType::Bytes => byte_spans(bytes.len()),
        FeatureType::Chars => ends_to_spans(char_ends(bytes, bytes.len() as int)),
        FeatureType::Graphemes => piece_spans(grapheme_pieces(text)),
        FeatureType::Words => piece_spans(word_pieces(text)),
    }
}

/// Every span starts and ends on a char boundary of `bytes`.
pub open spec fn spans_on_char_boundaries(spans: Seq<(usize, usize)>, bytes: Seq<u8>) -> bool {
    forall|k: int|
        0 <= k < spans.len() ==> is_char_boundary(bytes, (#[trigger] spans[k]).0 as int)
            && is_char_boundary(bytes, spans[k].1 as int)
}

/// The end offsets of the chars of `text`.
pub fn char_end_offsets(text: &str) -> (r: Vec<usize>)
    ensures
        r@ == char_ends(text.spec_bytes(), text.spec_bytes().len() as int),
        forall|j: int| 0 <= j < r@.len() ==> 0 < #[trigger] r@[j] <= text.spec_bytes().len(),
        forall|j: int| 0 <= j < r@.len() ==> is_char_boundary(text.spec_bytes(), #[trigger] r@[j] as int),
        forall|j: int, k: int| 0 <= j < k < r@.len() ==> r@[j] < r@[k],
{
    let len = text.as_bytes().len();
    let mut ends: Vec<usize> = Vec::new();
    let mut i: usize = 0;
    while i < len
        invariant
            i <= len,
            len == text.spec_bytes().len(),
            ends@ == char_ends(text.spec_bytes(), i as int),
            forall|j: int| 0 <= j < ends@.len() ==> 0 < #[trigger] ends@[j] <= i,
            forall|j: int| 0 <= j < ends@.len() ==> is_char_boundary(text.spec_bytes(), #[trigger] ends@[j] as int),
            forall|j: int, k: int| 0 <= j < k < ends@.len() ==> ends@[j] < ends@[k],
        decreases len - i,
    {
        if text.is_char_boundary(i + 1) {
            ends.push(i + 1);
        }
        i = i + 1;
    }
    ends
}

fn ends_to_spans_exec(ends: &Vec<usize>) -> (r: Vec<(usize, usize)>)
    ensures
        r@ == ends_to_spans(ends@),
{
    let mut spans: Vec<(usize, usize)> = Vec::with_capacity(ends.len());
    let mut j: usize = 0;
    while j < ends.len()
        invariant
            j <= ends@.len(),
            spans@ == ends_to_spans(ends@).subrange(0, j as int),
        decreases ends@.len() - j,
    {
        let start = if j == 0 {
            0
        } else {
            ends[j - 1]
        };
        spans.push((start, ends[j]));
        j = j + 1;
        assert(spans@ =~= ends_to_spans(ends@).subrange(0, j as int));
    }
    assert(ends_to_spans(ends@).subrange(0, j as int) =~= ends_to_spans(ends@));
    spans
}

fn pieces_to_spans(pieces: &Vec<(usize, usize)>, len: usize) -> (r: Vec<(usize, usize)>)
    requires
        pieces_in_bounds(pieces@, len as int),
    ensures
        r@ == piece_spans(pieces@),
        slices_in_bounds(r@, len as int),
{
    let mut spans: Vec<(usize, usize)> = Vec::with_capacity(pieces.len());
    let mut j: usize = 0;
    while j < pieces.len()
        invariant
            j <= pieces@.len(),
            pieces_in_bounds(pieces@, len as int),
            spans@ == piece_spans(pieces@).subrange(0, j as int),
        decreases pieces@.len() - j,
    {
        let (start, n) = pieces[j];
        assert(pieces@[j as int].0 + pieces@[j as int].1 <= len);
        spans.push((start, start + n));
        j = j + 1;
        assert(spans@ =~= piece_spans(pieces@).subrange(0, j as int));
    }
    assert(piece_spans(pieces@).subrange(0, j as int) =~= piece_spans(pieces@));
    spans
}

/// The byte spans of the units of `text` under `feature_type`, in order. Spans of chars,
/// grapheme clusters and words never cut a char.
pub fn unit_spans_of(text: &str, feature_type: FeatureType) -> (r: Vec<(usize, usize)>)
    ensures
        r@ == unit_spans(feature_type, text@),
        slices_in_bounds(r@, text.spec_bytes().len() as int),
        feature_type != FeatureType::Bytes ==> spans_on_char_boundaries(r@, text.spec_bytes()),
{
    let len = text.as_bytes().len();
    proof {
        vstd::utf8::encode_utf8_valid_utf8(text@);
    }
    match feature_type {
        FeatureType::Bytes => {
            let mut spans: Vec<(usize, usize)> = Vec::with_capacity(len);
            let mut i: usize = 0;
            while i < len
                invariant
                    i <= len,
                    len == text.spec_bytes().len(),
                    spans@ == byte_spans(i as nat),
                decreases len - i,
            {
                spans.push((i, i + 1));
                i = i + 1;
                assert(spans@ =~= byte_spans(i as nat));
            }
            spans
        },
        FeatureType::Chars => {
            let ends = char_end_offsets(text);
            let spans = ends_to_spans_exec(&ends);
            assert forall|k: int| 0 <= k < spans@.len() implies #[trigger] spans@[k].0
                <= spans@[k].1 <= len by {
                if k > 0 {
                    assert(ends@[k - 1] < ends@[k]);
                }
            }
            assert forall|k: int| 0 <= k < spans@.len() implies is_char_boundary(
                text.spec_bytes(),
                (#[trigger] spans@[k]).0 as int,
            ) && is_char_boundary(text.spec_bytes(), spans@[k].1 as int) by {
                assert(is_char_boundary(text.spec_bytes(), ends@[k] as int));
                if k > 0 {
                    assert(is_char_boundary(text.spec_bytes(), ends@[k - 1] as int));
                }
            }
            spans
        },
        FeatureType::Graphemes => {
            let pieces = grapheme_pieces_of(text);
            let spans = pieces_to_spans(&pieces, len);
            assert forall|k: int| 0 <= k < spans@.len() implies is_char_boundary(
                text.spec_bytes(),
                (#[trigger] spans@[k]).0 as int,
            ) && is_char_boundary(text.spec_bytes(), spans@[k].1 as int) by {
                assert(pieces@[k].1 > 0);
            }
            spans
        },
        FeatureType::Words => {
            let pieces = word_pieces_of(text);
            let spans = pieces_to_spans(&pieces, len);
            assert forall|k: int| 0 <= k < spans@.len() implies is_char_boundary(
                text.spec_bytes(),
                (#[trigger] spans@[k]).0 as int,
            ) && is_char_boundary(text.spec_bytes(), spans@[k].1 as int) by {
                assert(pieces@[k].1 > 0);
            }
            spans
        },
    }
}

/// The end offset of each piece.
pub open spec fn piece_ends(pieces: Seq<(usize, usize)>) -> Seq<usize> {
    Seq::new(pieces.len(), |k: int| (pieces[k].0 + pieces[k].1) as usize)
}

fn pieces_to_ends(pieces: &Vec<(usize, usize)>, len: usize) -> (r: Vec<usize>)
    requires
        pieces_in_bounds(pieces@, len as int),
    ensures
        r@ == piece_ends(pieces@),
{
    let mut ends: Vec<usize> = Vec::with_capacity(pieces.len());
    let mut j: usize = 0;
    while j < pieces.len()
        invariant
            j <= pieces@.len(),
            pieces_in_bounds(pieces@, len as int),
            ends@ == piece_ends(pieces@).subrange(0, j as int),
        decreases pieces@.len() - j,
    {
        let (start, n) = pieces[j];
        assert(pieces@[j as int].0 + pieces@[j as int].1 <= len);
        ends.push(start + n);
        j = j + 1;
        assert(ends@ =~= piece_ends(pieces@).subrange(0, j as int));
    }
    assert(piece_ends(pieces@).subrange(0, j as int) =~= piece_ends(pieces@));
    ends
}

/// The units of a text, as bytes or byte offsets.
pub trait Features {
    /// The bytes.
    fn byte_features(&self) -> Vec<u8>;

    /// The end offset of each extended grapheme cluster.
    fn grapheme_features(&self) -> Vec<usize>;

    /// The end offset of each char.
    fn char_features(&self) -> Vec<usize>;

    /// The byte span of each word.
    fn word_features(&self) -> Vec<(usize, usize)>;
}

impl Features for str {
    fn byte_features(&self) -> (r: Vec<u8>)
        ensures
            r@ == self.spec_bytes(),
    {
        let bytes = self.as_bytes();
        let mut out: Vec<u8> = Vec::with_capacity(bytes.len());
        let mut i: usize = 0;
        while i < bytes.len()
            invariant
                i <= bytes@.len(),
                out@ == bytes@.subrange(0, i as int),
            decreases bytes@.len() - i,
        {
            out.push(bytes[i]);
            i = i + 1;
            assert(out@ =~= bytes@.subrange(0, i as int));
        }
        assert(bytes@.subrange(0, i as int) =~= bytes@);
        out
    }

    fn grapheme_features(&self) -> (r: Vec<usize>)
        ensures
            r@ == piece_ends(grapheme_pieces(self@)),
    {
        let len = self.as_bytes().len();
        let pieces = grapheme_pieces_of(self);
        pieces_to_ends(&pieces, len)
    }

    fn char_features(&self) -> (r: Vec<usize>)
        ensures
            r@ == char_ends(self.spec_bytes(), self.spec_bytes().len() as int),
    {
        char_end_offsets(self)
    }

    fn word_features(&self) -> (r: Vec<(usize, usize)>)
        ensures
            r@ == piece_spans(word_pieces(self@)),
    {
        let len = self.as_bytes().len();
        let pieces = word_pieces_of(self);
        pieces_to_spans(&pieces, len)
    }
}

/// Relies on `std::str::from_utf8`: it accepts exactly the valid UTF-8 byte strings, and then
/// reads the same bytes as text.
#[verifier::external_body]
fn utf8_text<'a>(bytes: &'a [u8]) -> (r: Option<&'a str>)
    ensures
        r matches Some(s) ==> s.spec_bytes() == bytes@,
        r is None ==> !valid_utf8(bytes@),
{
    std::str::from_utf8(bytes).ok()
}

/// The byte span of every run of `n_chars` consecutive extended grapheme clusters of
/// `value`; none when `value` is not valid UTF-8.
pub fn graphemes(n_chars: usize, value: &[u8]) -> (r: Vec<(usize, usize)>)
    requires
        n_chars >= 1,
    ensures
        valid_utf8(value@) ==> r@ == sequential_windows(
            piece_ends(grapheme_pieces(decode_utf8(value@))),
            n_chars as nat,
        ),
        !valid_utf8(value@) ==> r@.len() == 0,
{
    match utf8_text(value) {
        Some(s) => {
            proof {
                encode_utf8_decode_utf8(s@);
                vstd::utf8::encode_utf8_valid_utf8(s@);
            }
            let ends = s.grapheme_features();
            SequentialSlidingWindowIter::new(ends, n_chars).collect()
        },
        None => Vec::new(),
    }
}

/// The byte span of every run of `n_chars` consecutive chars of `value`; none when `value`
/// is not valid UTF-8.
pub fn chars(n_chars: usize, value: &[u8]) -> (r: Vec<(usize, usize)>)
    requires
        n_chars >= 1,
    ensures
        valid_utf8(value@) ==> r@ == sequential_windows(
            char_ends(value@, value@.len() as int),
            n_chars as nat,
        ),
        !valid_utf8(value@) ==> r@.len() == 0,
{
    match utf8_text(value) {
        Some(s) => {
            proof {
                vstd::utf8::encode_utf8_valid_utf8(s@);
            }
            let ends = s.char_features();
            SequentialSlidingWindowIter::new(ends, n_chars).collect()
        },
        None => Vec::new(),
    }
}

} // verus!
