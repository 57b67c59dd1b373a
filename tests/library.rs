use simhash::aggregate::simhash_impl;
use simhash::feature::{chars, graphemes, unit_spans_of};
use simhash::fingerprint::SimHash;
use simhash::hash::{le_u16, sip_hash_fn, xxh3_hash_fn, HashTables, ShHash};
use simhash::group::{group, group_texts};
use simhash::map::SimEntry;
use simhash::simhasher::{extract_features, hash, hash_pair, Error, InvalidWindowSize};
use simhash::util::window_range;
use simhash::window::{PairIterExt, SequentialSlidingWindowIterExt, SlidingWindowIterExt};
use simhash::{hamming_distance, FeatureType, HashMethod, HashTree, SimHasher, SimMap};

const METHODS: [HashMethod; 2] = [HashMethod::SipHash, HashMethod::XXHash];
const TYPES: [FeatureType; 4] =
    [FeatureType::Bytes, FeatureType::Chars, FeatureType::Graphemes, FeatureType::Words];

#[test]
fn hash_is_deterministic_and_separates_texts() {
    for &m in METHODS.iter() {
        for &ft in TYPES.iter() {
            for n in 1..4 {
                let h = SimHasher::new(m, ft, n).unwrap();
                let again = SimHasher::new(m, ft, n).unwrap();
                assert_eq!(h.hash("hello world"), h.hash("hello world"));
                assert_eq!(h.hash("hello world"), again.hash("hello world"));
            }
        }
        let h = SimHasher::new(m, FeatureType::Bytes, 2).unwrap();
        assert_ne!(h.hash("hello"), h.hash("world"));
        assert_eq!(h.hash("hello"), h.hash("hello"));
    }
}

#[test]
fn free_hash_matches_hasher() {
    let h = SimHasher::new(HashMethod::XXHash, FeatureType::Chars, 3).unwrap();
    assert_eq!(hash("near duplicate", HashMethod::XXHash, FeatureType::Chars, 3), Ok(h.hash("near duplicate")));
}

#[test]
fn zero_window_is_refused() {
    let expected = Error::InvalidWindowSize(InvalidWindowSize("Window size must be greater than 0"));
    assert_eq!(SimHasher::new(HashMethod::SipHash, FeatureType::Bytes, 0).err(), Some(expected));
    assert_eq!(hash("x", HashMethod::XXHash, FeatureType::Words, 0), Err(expected));
    assert_eq!(extract_features("x", FeatureType::Chars, 0), Err(expected));
    assert_eq!(group(&vec!["x".to_string()], 3, HashMethod::XXHash, FeatureType::Bytes, 0), Err(expected));
    assert_eq!(expected, Error::InvalidWindowSize(InvalidWindowSize("Window size must be greater than 0")));
    match expected {
        Error::InvalidWindowSize(e) => assert_eq!(e.reason(), "Window size must be greater than 0"),
    }
}

#[test]
fn empty_text_has_zero_fingerprint() {
    for &m in METHODS.iter() {
        for &ft in TYPES.iter() {
            assert_eq!(SimHasher::new(m, ft, 1).unwrap().hash(""), 0);
        }
    }
}

#[test]
fn text_shorter_than_window_has_zero_fingerprint() {
    let h = SimHasher::new(HashMethod::SipHash, FeatureType::Bytes, 5).unwrap();
    assert_eq!(h.hash("abcd"), 0);
    assert_ne!(h.hash("abcde"), 0);
    assert_eq!(h.feature_extractor("abcd").len(), 0);
}

#[test]
fn single_feature_fingerprint_is_its_hash() {
    let h = SimHasher::new(HashMethod::SipHash, FeatureType::Bytes, 3).unwrap();
    assert_eq!(h.hash("abc"), HashMethod::SipHash.hash_bytes(b"abc"));
    let w = SimHasher::new(HashMethod::XXHash, FeatureType::Words, 1).unwrap();
    assert_eq!(w.hash("word"), HashMethod::XXHash.hash_bytes(b"word"));
}

#[test]
fn word_windows_hash_the_words_without_the_gap() {
    let w = SimHasher::new(HashMethod::XXHash, FeatureType::Words, 2).unwrap();
    assert_eq!(w.hash("Hello, world!"), HashMethod::XXHash.hash_bytes(b"Helloworld"));
}

#[test]
fn ascii_feature_types_agree() {
    let val = "Hello world!";
    for n in 1..5 {
        let sh_bytes = SimHasher::new(HashMethod::SipHash, FeatureType::Bytes, n).unwrap();
        let sh_chars = SimHasher::new(HashMethod::SipHash, FeatureType::Chars, n).unwrap();
        let sh_graph = SimHasher::new(HashMethod::SipHash, FeatureType::Graphemes, n).unwrap();
        assert_eq!(sh_bytes.hash(val), sh_chars.hash(val));
        assert_eq!(sh_bytes.hash(val), sh_graph.hash(val));
    }
}

#[test]
fn extract_words_skips_punctuation() {
    let f = extract_features("Hello, world!", FeatureType::Words, 1).unwrap();
    assert_eq!(f, vec![b"Hello".to_vec(), b"world".to_vec()]);
}

#[test]
fn extract_grapheme_clusters() {
    let s = "a\u{310}e\u{301}o\u{308}\u{332}";
    assert_eq!(unit_spans_of(s, FeatureType::Graphemes), vec![(0, 3), (3, 6), (6, 11)]);
    let f = extract_features(s, FeatureType::Graphemes, 1).unwrap();
    let expected: Vec<Vec<u8>> =
        vec![s.as_bytes()[0..3].to_vec(), s.as_bytes()[3..6].to_vec(), s.as_bytes()[6..11].to_vec()];
    assert_eq!(f, expected);
    assert_eq!(unit_spans_of(s, FeatureType::Chars).len(), 7);
}

#[test]
fn extract_byte_and_char_windows() {
    assert_eq!(
        extract_features("héllo", FeatureType::Chars, 2).unwrap(),
        vec!["hé".as_bytes().to_vec(), "él".as_bytes().to_vec(), b"ll".to_vec(), b"lo".to_vec()]
    );
    assert_eq!(
        extract_features("abc", FeatureType::Bytes, 2).unwrap(),
        vec![b"ab".to_vec(), b"bc".to_vec()]
    );
    let h = SimHasher::new(HashMethod::SipHash, FeatureType::Words, 2).unwrap();
    assert_eq!(h.feature_extractor("one two, three"), vec![b"onetwo".to_vec(), b"twothree".to_vec()]);
}

#[test]
fn hamming_laws_on_values() {
    let a: u64 = 0b1011;
    let b: u64 = 0b0110;
    let c: u64 = 0xffff_0000_0000_0001;
    assert_eq!(hamming_distance(a, a), 0);
    assert_eq!(hamming_distance(a, b), 3);
    assert_eq!(hamming_distance(a, b), hamming_distance(b, a));
    assert!(hamming_distance(a, b) <= hamming_distance(a, c) + hamming_distance(c, b));
    assert_eq!(hamming_distance(0u64, u64::MAX), 64);
    let x = SimHash::from_int(a);
    let y = SimHash::from_int(b);
    assert_eq!(x.hamming_distance(&y), 3);
    assert_eq!(x.difference(&y), 3);
    assert_eq!(x.to_int(), a);
}

#[test]
fn fingerprint_text_form() {
    assert_eq!(SimHash::from_int(255).to_hex(), "0x00000000000000ff");
    assert_eq!(SimHash::from_int(0xdead_beef_0123_4567).to_hex(), "0xdeadbeef01234567");
    assert!(SimHash::from_int(1) < SimHash::from_int(2));
}

#[test]
fn majority_vote() {
    assert_eq!(simhash_impl(&[]), 0);
    assert_eq!(simhash_impl(&[0x1234_5678_9abc_def0]), 0x1234_5678_9abc_def0);
    assert_eq!(simhash_impl(&[0b011, 0b001, 0b110]), 0b011);
    assert_eq!(simhash_impl(&[0b1, 0b0]), 0);
    assert_eq!(simhash_impl(&[u64::MAX, u64::MAX, 0]), u64::MAX);
}

#[test]
fn majority_vote_ignores_order() {
    let a = [5u64, 9, 17, 3, 0xff00];
    let b = [0xff00u64, 3, 17, 9, 5];
    assert_eq!(simhash_impl(&a), simhash_impl(&b));
}

#[test]
fn tree_exact_and_near_lookup() {
    let mut t: HashTree<u32> = HashTree::new();
    assert_eq!(t.len(), 0);
    assert_eq!(t.contains(42, 64), None);
    t.add(0xabcd, 7);
    assert_eq!(t.contains(0xabcd, 0), Some(&7));
    assert_eq!(t.contains(0xabcc, 1), Some(&7));
    assert_eq!(t.contains(0xabcc, 0), None);
    assert_eq!(t.contains(0xabcd ^ 0x8000_0000_0000_0003, 3), Some(&7));
    assert_eq!(t.contains(0xabcd ^ 0x8000_0000_0000_0003, 2), None);
    assert_eq!(t.len(), 1);
    t.add(0xabcd, 8);
    assert_eq!(t.len(), 1);
    assert_eq!(t.contains(0xabcd, 0), Some(&8));
    t.add(u64::MAX, 9);
    assert_eq!(t.len(), 2);
    assert_eq!(t.contains(u64::MAX, 0), Some(&9));
    assert_eq!(t.contains(u64::MAX - 1, 1), Some(&9));
}

#[test]
fn map_repeat_and_near_keys() {
    let h = SimHasher::new(HashMethod::XXHash, FeatureType::Words, 1).unwrap();
    let mut m: SimMap<usize> = SimMap::new(h, 0);
    assert!(m.is_empty());
    let first = m.maybe_insert_close_or("hello world".to_string(), || 1);
    assert_eq!(first, 1);
    assert_eq!(m.maybe_insert_close_or("hello world".to_string(), || 2), 1);
    assert_eq!(m.maybe_insert_close_or("hello, world!".to_string(), || 3), 1);
    assert_eq!(m.maybe_insert_close_or("something else".to_string(), || 4), 4);
    assert_eq!(m.len(), 3);
    assert_eq!(m.get(&"hello, world!".to_string()), Some(&1));
    assert!(m.contains_key(&"something else".to_string()));
    assert!(!m.contains_key(&"absent".to_string()));
    assert_eq!(m.get(&"absent".to_string()), None);
    assert_eq!(m.max_dist(), 0);
    assert_eq!(m.hasher().window_size(), 1);
    assert_eq!(m.iter().len(), 3);
}

#[test]
fn map_with_capacity_starts_empty() {
    let h = SimHasher::new(HashMethod::SipHash, FeatureType::Bytes, 2).unwrap();
    let m: SimMap<u8> = SimMap::with_capacity(h, 4, 100);
    assert_eq!(m.len(), 0);
    assert_eq!(m.max_dist(), 4);
}

#[test]
fn group_cat_cats_dog() {
    let h = SimHasher::new(HashMethod::XXHash, FeatureType::Bytes, 2).unwrap();
    let (cat, cats, dog) = (h.hash("cat"), h.hash("cats"), h.hash("dog"));
    let max_diff = hamming_distance(cat, cats) as u8;
    let texts = vec!["cat".to_string(), "cats".to_string(), "dog".to_string()];
    let groups = group(&texts, max_diff, HashMethod::XXHash, FeatureType::Bytes, 2).unwrap();
    if (hamming_distance(dog, cat) as u8) > max_diff {
        assert_eq!(groups, vec![vec![0, 1], vec![2]]);
    } else {
        assert_eq!(groups, vec![vec![0, 1, 2]]);
    }
    let apart = group_texts(&texts, h.clone(), 0);
    assert_eq!(apart, vec![vec![0], vec![1], vec![2]]);
}

#[test]
fn group_repeated_texts_together() {
    let h = SimHasher::new(HashMethod::SipHash, FeatureType::Chars, 1).unwrap();
    let texts = vec!["a".to_string(), "b".to_string(), "a".to_string(), "".to_string()];
    let groups = group_texts(&texts, h, 0);
    assert_eq!(groups, vec![vec![0, 2], vec![1], vec![3]]);
    let short = SimHasher::new(HashMethod::SipHash, FeatureType::Chars, 2).unwrap();
    assert_eq!(group_texts(&texts, short, 0), vec![vec![0, 1, 2, 3]]);
}

#[test]
fn pair_table_matches_multi_range_path() {
    for &m in METHODS.iter() {
        let tables = HashTables::new(m);
        let slices = vec![(0usize, 1usize), (1usize, 2usize)];
        for a in 0..=255u8 {
            for b in 0..=255u8 {
                let v = le_u16(a, b);
                assert_eq!(v, u16::from_le_bytes([a, b]));
                assert_eq!(tables.hash_u16(v), m.hash_multi(&[a, b], &slices));
            }
            assert_eq!(tables.hash_u8(a), tables.hash_bytes(&[a]));
        }
    }
}

#[test]
fn multi_range_hashes_concatenation() {
    let src = b"abcdef";
    assert_eq!(
        HashMethod::XXHash.hash_multi(src, &vec![(0, 2), (4, 6)]),
        HashMethod::XXHash.hash_bytes(b"abef")
    );
    let parts: [&[u8]; 2] = [b"ab", b"ef"];
    assert_eq!(sip_hash_fn(&parts), HashMethod::SipHash.hash_bytes(b"abef"));
    assert_eq!(xxh3_hash_fn(&parts), HashMethod::XXHash.hash_bytes(b"abef"));
    let tables = HashTables::new(HashMethod::SipHash);
    assert_eq!(tables.hash_multi(src, &vec![(1, 3)]), HashMethod::SipHash.hash_bytes(b"bc"));
}

#[test]
fn hash_pair_agrees_with_byte_pairs() {
    let tables = HashTables::new(HashMethod::XXHash);
    let h = SimHasher::new(HashMethod::XXHash, FeatureType::Bytes, 2).unwrap();
    assert_eq!(hash_pair("abcdef", |v| tables.hash_u16(v)), h.hash("abcdef"));
    assert_eq!(hash_pair("", |v| tables.hash_u16(v)), 0);
    assert_eq!(hash_pair("a", |v| tables.hash_u16(v)), 0);
    assert_eq!(hash_pair("a", |v| tables.hash_u16(v)), h.hash("a"));
}

#[test]
fn window_ranges_and_windows() {
    assert_eq!(window_range(5, 3), vec![(0, 3), (1, 4), (2, 5)]);
    assert_eq!(window_range(2, 3), vec![]);
    assert_eq!(vec![1u8].sliding_pairs().collect(), vec![]);
    let mut it = vec![1u8, 2, 3].sliding_pairs();
    assert_eq!(it.next(), Some((1, 2)));
    assert_eq!(it.collect(), vec![(2, 3)]);
    let mut w = vec![1u8, 2, 3].sliding_window(2);
    assert_eq!(w.next(), Some(vec![1, 2]));
    assert_eq!(w.next(), Some(vec![2, 3]));
    assert_eq!(w.next(), None);
    let mut s = vec![2usize, 5, 9].sliding_sequential_window(1);
    assert_eq!(s.next(), Some((0, 2)));
    assert_eq!(s.collect(), vec![(2, 5), (5, 9)]);
}

#[test]
fn byte_windows_over_text() {
    assert_eq!(chars(2, "héllo".as_bytes()), vec![(0, 3), (1, 4), (3, 5), (4, 6)]);
    assert_eq!(chars(2, &[b'a', 0xff, b'b']), vec![]);
    let s = "a\u{310}e\u{301}o\u{308}\u{332}";
    assert_eq!(graphemes(2, s.as_bytes()), vec![(0, 6), (3, 11)]);
    assert_eq!(graphemes(1, &[0xc3]), vec![]);
}

#[test]
fn map_entry_operations() {
    let h = SimHasher::new(HashMethod::XXHash, FeatureType::Words, 1).unwrap();
    let fp = h.hash("red apple");
    let mut m: SimMap<u32> = SimMap::new(h, 0);
    let key = "red apple".to_string();
    assert_eq!(m.entry(&key), SimEntry::Vacant(fp));
    assert_eq!(m.close_value(fp), None);
    m.insert_both(key.clone(), fp, 10);
    assert_eq!(m.entry(&key), SimEntry::Occupied(10));
    assert_eq!(m.close_value(fp), Some(10));
    let other = "red, apple".to_string();
    match m.entry(&other) {
        SimEntry::Vacant(f) => {
            assert_eq!(f, fp);
            let v = m.close_value(f).unwrap();
            m.insert_map_only(other.clone(), v);
        }
        SimEntry::Occupied(_) => panic!("new key reported as present"),
    }
    assert_eq!(m.get(&other), Some(&10));
    m.insert_tree_only(fp ^ 0xffff, 11);
    assert_eq!(m.close_value(fp ^ 0xffff), Some(11));
    assert_eq!(m.len(), 2);
}

#[test]
fn map_get_mut_changes_value() {
    let h = SimHasher::new(HashMethod::SipHash, FeatureType::Bytes, 1).unwrap();
    let mut m: SimMap<u32> = SimMap::new(h, 2);
    m.maybe_insert_close_or("abc".to_string(), || 1);
    if let Some(v) = m.get_mut(&"abc".to_string()) {
        *v = 9;
    }
    assert_eq!(m.get(&"abc".to_string()), Some(&9));
    assert!(m.get_mut(&"zzz".to_string()).is_none());
}

#[test]
fn tree_search_visits_lower_nibbles_first() {
    let mut t: HashTree<char> = HashTree::new();
    t.add(0x2, 'b');
    t.add(0x1, 'a');
    assert_eq!(t.contains(0x0, 1), Some(&'a'));
    let mut u: HashTree<char> = HashTree::new();
    u.add(0x10, 'x');
    u.add(0x01, 'y');
    assert_eq!(u.contains(0x0, 1), Some(&'x'));
}

#[test]
fn map_adopts_the_value_the_probe_finds() {
    let h = SimHasher::new(HashMethod::SipHash, FeatureType::Bytes, 2).unwrap();
    let mut m: SimMap<usize> = SimMap::new(h, 64);
    m.maybe_insert_close_or("first".to_string(), || 0);
    m.maybe_insert_close_or("second".to_string(), || 1);
    let fp = m.hasher().hash("third");
    let probe = m.close_value(fp);
    assert_eq!(probe, Some(0));
    assert_eq!(m.maybe_insert_close_or("third".to_string(), || 2), 0);
}
