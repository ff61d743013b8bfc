//! The Bloom filter.

use lsm_storage_engine::bloom::{fnv1a_64, BloomError};
use lsm_storage_engine::BloomFilter;

#[test]
fn no_false_negatives() {
    let mut bf = BloomFilter::new(1000, 10);
    let keys: Vec<Vec<u8>> = (0..1000u32).map(|i| i.to_le_bytes().to_vec()).collect();
    for k in &keys {
        bf.insert(k);
    }
    for k in &keys {
        assert!(bf.might_contain(k), "false negative for key {k:?}");
    }
}

#[test]
fn false_positive_rate_is_reasonable() {
    // About 0.8 to 1% are to be expected with 10 bits per key; 5% is far off.
    let n = 5000usize;
    let mut bf = BloomFilter::new(n, 10);
    for i in 0..n as u32 {
        bf.insert(&i.to_le_bytes());
    }
    let mut false_positives = 0u32;
    let trials = 20_000u32;
    for i in 0..trials {
        let probe = (i + 10_000_000).to_le_bytes(); // was not inserted
        if bf.might_contain(&probe) {
            false_positives += 1;
        }
    }
    let rate = false_positives as f64 / trials as f64;
    assert!(rate < 0.05, "false positive rate too high: {rate}");
}

#[test]
fn disabled_filter_always_says_maybe() {
    let bf = BloomFilter::disabled();
    assert!(bf.might_contain(b"anything"));
    assert!(!bf.is_enabled());
}

#[test]
fn roundtrip_serialization() {
    let mut bf = BloomFilter::new(100, 8);
    for i in 0..100u32 {
        bf.insert(&i.to_le_bytes());
    }
    let bytes = bf.serialize();
    let bf2 = BloomFilter::deserialize(&bytes).unwrap();
    for i in 0..100u32 {
        assert!(bf2.might_contain(&i.to_le_bytes()));
    }
    assert_eq!(bf2.serialize(), bytes);
}

#[test]
fn positions_have_exact_values() {
    let bf = BloomFilter::new(1, 10);
    assert_eq!(bf.positions(b"alpha"), vec![43, 26, 9, 56, 39, 22, 5]);
    assert_eq!(bf.positions(b""), vec![37, 8, 43, 14, 49, 20, 55]);
    assert_eq!(bf.positions(b"x"), vec![7, 30, 53, 12, 35, 58, 17]);
    // 4 bits per key give 3 hashes; 128 bits are two words.
    let bf = BloomFilter::new(32, 4);
    assert_eq!(bf.positions(b"alpha"), vec![43, 26, 9]);
    assert_eq!(bf.positions(b""), vec![37, 8, 107]);
    assert!(BloomFilter::disabled().positions(b"alpha").is_empty());
}

#[test]
fn serialized_form_has_exact_bytes() {
    let mut bf = BloomFilter::new(1, 10);
    bf.insert(b"x");
    let expected: Vec<u8> = vec![
        64, 0, 0, 0, 0, 0, 0, 0, 7, 0, 0, 0, 1, 0, 0, 0, 0, 0, 0, 0, 128, 16, 2, 64, 8, 0, 32, 4,
    ];
    assert_eq!(bf.serialize(), expected);
    assert_eq!(BloomFilter::disabled().serialize(), vec![0u8; 20]);
}

fn number_of_hashes(bits_per_key: usize) -> u32 {
    let bytes = BloomFilter::new(1, bits_per_key).serialize();
    u32::from_le_bytes([bytes[8], bytes[9], bytes[10], bytes[11]])
}

#[test]
fn number_of_hashes_is_nearest_to_bits_times_ln_2() {
    for bits in 0..2000usize {
        let expected = ((bits.max(1) as f64) * std::f64::consts::LN_2).round() as u32;
        assert_eq!(number_of_hashes(bits), expected, "bits per key: {bits}");
    }
    assert_eq!(number_of_hashes(10), 7);
    assert_eq!(number_of_hashes(44), 30);
    assert_eq!(number_of_hashes(45), 31);
    assert_eq!(number_of_hashes(100), 69);
    assert_eq!(number_of_hashes(1_000_000), 693_147);
}

#[test]
fn many_hashes_give_no_false_negatives() {
    let mut bf = BloomFilter::new(20, 100);
    for i in 0..20u32 {
        bf.insert(&i.to_le_bytes());
    }
    for i in 0..20u32 {
        assert!(bf.might_contain(&i.to_le_bytes()));
        assert_eq!(bf.positions(&i.to_le_bytes()).len(), 69);
    }
    assert!(!bf.might_contain(b"alpha"));
}

#[test]
fn hashes_have_exact_values() {
    let basis = 0xcbf2_9ce4_8422_2325;
    assert_eq!(fnv1a_64(basis, b""), basis);
    assert_eq!(fnv1a_64(basis, b"a"), 0xaf63_dc4c_8601_ec8c);
    assert_eq!(fnv1a_64(basis, b"foobar"), 0x8594_4171_f739_67e8);
    // One string after the other.
    assert_eq!(fnv1a_64(fnv1a_64(basis, b"foo"), b"bar"), fnv1a_64(basis, b"foobar"));
    // Another seed, another hash.
    assert_eq!(fnv1a_64(7, b""), 7);
    for seed in 0..1000u64 {
        assert_ne!(fnv1a_64(seed, b"foobar"), fnv1a_64(seed + 1, b"foobar"));
    }
}

#[test]
fn size_is_rounded_up_to_words() {
    let num_bits = |items: usize, bits: usize| {
        let bytes = BloomFilter::new(items, bits).serialize();
        let mut first = [0u8; 8];
        first.copy_from_slice(&bytes[0..8]);
        (u64::from_le_bytes(first), bytes.len())
    };
    assert_eq!(num_bits(0, 0), (64, 28));
    assert_eq!(num_bits(6, 10), (64, 28));
    assert_eq!(num_bits(7, 10), (128, 36));
    assert_eq!(num_bits(1000, 10), (10048, 20 + 157 * 8));
}

#[test]
fn empty_filter_rules_every_key_out() {
    let bf = BloomFilter::new(10, 10);
    assert!(bf.is_enabled());
    assert!(!bf.might_contain(b"alpha"));
    assert!(!bf.might_contain(b""));
}

#[test]
fn inserting_keeps_the_keys_from_before() {
    let mut bf = BloomFilter::new(2, 10);
    bf.insert(b"alpha");
    let copy = bf.clone();
    bf.insert(b"x");
    assert!(bf.might_contain(b"alpha"));
    assert!(bf.might_contain(b"x"));
    assert!(copy.might_contain(b"alpha"));
}

#[test]
fn inserting_into_a_disabled_filter_does_nothing() {
    let mut bf = BloomFilter::disabled();
    bf.insert(b"alpha");
    assert!(!bf.is_enabled());
    assert_eq!(bf.serialize(), vec![0u8; 20]);
}

#[test]
fn damaged_serialized_filters_are_refused() {
    let bytes = BloomFilter::new(10, 10).serialize();
    assert!(matches!(
        BloomFilter::deserialize(&bytes[0..19]),
        Err(BloomError::TooShort)
    ));
    assert!(matches!(
        BloomFilter::deserialize(&bytes[0..bytes.len() - 1]),
        Err(BloomError::Truncated)
    ));
    // Bytes behind the words are not looked at.
    let mut longer = bytes.clone();
    longer.push(1);
    assert_eq!(BloomFilter::deserialize(&longer).unwrap().serialize(), bytes);
}

#[test]
fn a_filter_with_too_few_words_is_noticed() {
    let mut bytes = BloomFilter::new(10, 10).serialize();
    assert!(BloomFilter::deserialize(&bytes).unwrap().is_consistent());
    bytes[0] = 129; // two words hold 128 bits
    assert!(!BloomFilter::deserialize(&bytes).unwrap().is_consistent());
}
