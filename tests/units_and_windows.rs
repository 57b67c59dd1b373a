use simhash::aggregate::simhash_impl;
use simhash::feature::Features;
use simhash::hash::{HashTables, ShHash};
use simhash::util::{window_range, PairToU16Ext, SequentialToRange};
use simhash::window::{PairIterExt, SequentialSlidingWindowIterExt, SlidingWindowIterExt};
use simhash::{FeatureType, HashMethod, SimHasher};

#[test]
fn test_byte_features() {
    let s = "hello";
    let bytes: Vec<u8> = s.byte_features();
    assert_eq!(bytes, vec![104, 101, 108, 108, 111]);
}

#[test]
fn test_grapheme_features() {
    let s = "a\u{310}e\u{301}o\u{308}\u{332}";
    let graphemes: Vec<usize> = s.grapheme_features();
    assert_eq!(graphemes, vec![3, 6, 11]);
}

#[test]
fn test_char_features() {
    let s = "hello";
    let chars: Vec<char> = s
        .char_features()
        .iter()
        .map(|&i| s[i - 1..i].chars().next().unwrap())
        .collect();
    assert_eq!(chars, vec!['h', 'e', 'l', 'l', 'o']);
}

#[test]
fn test_word_features() {
    let s = "Hello, world! This is Rust.";
    let words: Vec<(usize, usize)> = s.word_features();
    let extracted = words.iter().map(|&(start, end)| &s[start..end]).collect::<Vec<&str>>();
    assert_eq!(extracted, vec!["Hello", "world", "This", "is", "Rust"]);
}

#[test]
fn test_sip_hash() {
    let v1 = HashMethod::SipHash.hash_bytes(b"hello");
    let v2 = HashMethod::SipHash.hash_bytes(b"world");
    assert_ne!(v1, v2);
    assert_eq!(v1, HashMethod::SipHash.hash_bytes(b"hello"));
}

#[test]
fn test_xxh3_hash() {
    let v1 = HashMethod::XXHash.hash_bytes(b"hello");
    let v2 = HashMethod::XXHash.hash_bytes(b"world");
    assert_ne!(v1, v2);
    assert_eq!(v1, HashMethod::XXHash.hash_bytes(b"hello"));
}

#[test]
fn test_hashing_u8() {
    let data = b"bob";
    let tables = HashTables::new(HashMethod::SipHash);
    let v1 = data.iter().map(|&b| tables.hash_u8(b)).collect::<Vec<_>>();
    let v2 = data.iter().map(|&b| HashMethod::SipHash.hash_bytes(&[b])).collect::<Vec<_>>();
    assert_eq!(v1, v2);
}

#[test]
fn test_pairs() {
    let data = "abce";
    let tables = HashTables::new(HashMethod::SipHash);
    let v1 = data
        .byte_features()
        .sliding_pairs()
        .collect()
        .pair_to_u16()
        .iter()
        .map(|&v| tables.hash_u16(v))
        .collect::<Vec<_>>();
    let v2 = data
        .byte_features()
        .sliding_window(2)
        .collect()
        .iter()
        .map(|w| HashMethod::SipHash.hash_bytes(w))
        .collect::<Vec<_>>();
    assert_eq!(v1, v2);
}

#[test]
fn test_simhasher() {
    let sh = SimHasher::new(HashMethod::SipHash, FeatureType::Bytes, 1).unwrap();
    let v1 = sh.hash("hello");
    let v2 = sh.hash("world");
    assert_ne!(v1, v2);
    assert_eq!(v1, sh.hash("hello"));
    assert_eq!(v1, 3880401949562285464);
}

#[test]
fn compare_approaches() {
    let sh = SimHasher::new(HashMethod::SipHash, FeatureType::Bytes, 1).unwrap();
    let val = "h";
    let v1 = sh.hash(val);
    let h2 = window_range(val.len(), 1)
        .iter()
        .map(|&(start, end)| HashMethod::SipHash.hash_bytes(&val.as_bytes()[start..end]))
        .collect::<Vec<u64>>();
    let v2 = simhash_impl(&h2);
    assert_eq!(v1, v2);
}

#[test]
fn test_sliding_pair() {
    let data = b"hello";
    let pairs = data.to_vec().sliding_pairs().collect();
    assert_eq!(pairs, vec![(b'h', b'e'), (b'e', b'l'), (b'l', b'l'), (b'l', b'o')]);
}

#[test]
fn test_sliding_window() {
    let data = b"hello";
    let windows = data.to_vec().sliding_window(3).collect();
    assert_eq!(
        windows,
        vec![vec![b'h', b'e', b'l'], vec![b'e', b'l', b'l'], vec![b'l', b'l', b'o']]
    );
}

#[test]
fn test_sliding_window_4() {
    let data = b"hello";
    let windows = data.to_vec().sliding_window(4).collect();
    assert_eq!(windows, vec![vec![b'h', b'e', b'l', b'l'], vec![b'e', b'l', b'l', b'o']]);
}

#[test]
fn test_sliding_window_5() {
    let data = b"hello";
    let windows = data.to_vec().sliding_window(5).collect();
    assert_eq!(windows, vec![vec![b'h', b'e', b'l', b'l', b'o']]);
}

#[test]
fn test_sliding_window_6() {
    let data = b"hello";
    let windows = data.to_vec().sliding_window(6).collect();
    assert_eq!(windows.is_empty(), true);
}

#[test]
fn test_graphemes() {
    let s = "a\u{310}e\u{301}o\u{308}\u{332}";
    let graphemes: Vec<(usize, usize)> = s.grapheme_features().sliding_pairs().collect();
    assert_eq!(graphemes, vec![(3, 6), (6, 11)]);
    let graphemes = s.grapheme_features().sequential_to_range().sliding_pairs().collect();
    assert_eq!(graphemes, vec![((0, 3), (3, 6)), ((3, 6), (6, 11))]);
}

#[test]
fn test_graphemes_sequential() {
    let s = "a\u{310}e\u{301}o\u{308}\u{332}";
    let graphemes: Vec<(usize, usize)> = s.grapheme_features().sliding_sequential_window(2).collect();
    assert_eq!(graphemes, vec![(0, 6), (3, 11)]);
}

#[test]
fn test_words() {
    let s = "Hello, world! This is Rust.";
    let word_pairs = s.word_features().sliding_pairs().collect();
    let extracted = word_pairs
        .iter()
        .map(|&((start1, end1), (start2, end2))| (&s[start1..end1], &s[start2..end2]))
        .collect::<Vec<(&str, &str)>>();
    assert_eq!(
        extracted,
        vec![("Hello", "world"), ("world", "This"), ("This", "is"), ("is", "Rust")]
    );
}

#[test]
fn test_words_sequential() {
    let s = "Hello, world! This is Rust.";
    let word_pairs = s.word_features().sliding_pairs().collect();
    let mut results = Vec::new();
    let mut index = 0;
    for (_, (w1, w2)) in word_pairs {
        let span = &s[index..w2];
        index = w1;
        results.push(span.to_string());
    }
    assert_eq!(results, vec!["Hello, world", "world! This", "This is", "is Rust"]);
}
