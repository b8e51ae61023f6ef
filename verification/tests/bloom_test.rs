use std::collections::HashSet;

use fold_rs::bloom::{hash_pair, hash_with_seed, BloomFilter, SEED1, SEED2};
use fold_rs::error::IoError;
use rand::distr::Alphanumeric;
use rand::RngExt;

/// The filter size for `n` keys at false-positive rate `target_fpr`, by the
/// standard formulas.
fn bloom_size(n: usize, target_fpr: f64) -> (usize, u32) {
    let ln2 = std::f64::consts::LN_2;
    if n == 0 {
        return (0, 1);
    }
    let m = (-(n as f64) * target_fpr.ln() / (ln2 * ln2)).ceil() as usize;
    let k = (((m as f64 / n as f64) * ln2).round() as u32).clamp(1, 30);
    (m, k)
}

#[test]
fn new_filter_is_empty() {
    let filter = BloomFilter::new(64, 7);

    for i in 0..64 {
        assert!(!filter.test_bit(i));
    }
}

#[test]
fn set_and_test_single_bit() {
    let mut filter = BloomFilter::new(64, 7);

    filter.set_bit(21);

    assert!(filter.test_bit(21));

    assert!(!filter.test_bit(20));
    assert!(!filter.test_bit(22));
}

#[test]
fn set_multiple_bits() {
    let mut filter = BloomFilter::new(64, 7);

    filter.set_bit(0);
    filter.set_bit(7);
    filter.set_bit(8);
    filter.set_bit(63);

    assert!(filter.test_bit(0));
    assert!(filter.test_bit(7));
    assert!(filter.test_bit(8));
    assert!(filter.test_bit(63));
}

#[test]
fn bits_do_not_interfere() {
    let mut filter = BloomFilter::new(16, 7);

    filter.set_bit(3);

    for i in 0..16 {
        if i == 3 {
            assert!(filter.test_bit(i));
        } else {
            assert!(!filter.test_bit(i));
        }
    }
}

#[test]
fn inserted_key_is_found() {
    let mut bloom = BloomFilter::new(1024, 7);

    bloom.insert(b"apple");

    assert!(bloom.may_contain(b"apple"));
}

#[test]
fn multiple_inserted_keys_are_found() {
    let mut bloom = BloomFilter::new(8192, 7);

    let keys = [
        b"apple".as_slice(),
        b"banana".as_slice(),
        b"cat".as_slice(),
        b"dog".as_slice(),
    ];

    for key in keys {
        bloom.insert(key);
    }

    for key in keys {
        assert!(bloom.may_contain(key));
    }
}

#[test]
fn empty_filter_contains_nothing() {
    let bloom = BloomFilter::new(1024, 7);

    assert!(!bloom.may_contain(b"apple"));
    assert!(!bloom.may_contain(b"banana"));
}

#[test]
fn no_false_negatives() {
    let mut bloom = BloomFilter::new(20_000, 7);

    for i in 0..1000 {
        let key = format!("key{i}");
        bloom.insert(key.as_bytes());
    }

    for i in 0..1000 {
        let key = format!("key{i}");
        assert!(bloom.may_contain(key.as_bytes()));
    }
}

#[test]
fn zero_false_negatives() {
    const NUM_KEYS: usize = 10_000;

    let (num_bits, k) = bloom_size(NUM_KEYS, 0.01);

    let mut filter = BloomFilter::new(num_bits, k);

    let mut rng = rand::rng();

    let mut inserted_keys = Vec::with_capacity(NUM_KEYS);

    for _ in 0..NUM_KEYS {
        let key: String = (&mut rng)
            .sample_iter(&Alphanumeric)
            .take(32)
            .map(char::from)
            .collect();

        filter.insert(key.as_bytes());

        inserted_keys.push(key);
    }

    for key in &inserted_keys {
        assert!(
            filter.may_contain(key.as_bytes()),
            "false negative for key: {key}",
        );
    }
}

#[test]
fn measured_false_positive_rate() {
    const NUM_INSERTED: usize = 10_000;
    const NUM_QUERIES: usize = 10_000;
    const TARGET_FPR: f64 = 0.01;

    let (num_bits, k) = bloom_size(NUM_INSERTED, TARGET_FPR);

    let mut filter = BloomFilter::new(num_bits, k);

    let mut rng = rand::rng();

    let mut inserted = HashSet::with_capacity(NUM_INSERTED);

    while inserted.len() < NUM_INSERTED {
        let key: String = (&mut rng)
            .sample_iter(&Alphanumeric)
            .take(32)
            .map(char::from)
            .collect();

        if inserted.insert(key.clone()) {
            filter.insert(key.as_bytes());
        }
    }

    let mut false_positives = 0usize;
    let mut queries = 0usize;

    while queries < NUM_QUERIES {
        let key = format!(
            "missing_{}",
            (&mut rng)
                .sample_iter(&Alphanumeric)
                .take(32)
                .map(char::from)
                .collect::<String>()
        );

        if inserted.contains(&key) {
            continue;
        }

        queries += 1;

        if filter.may_contain(key.as_bytes()) {
            false_positives += 1;
        }
    }

    let actual_fpr = false_positives as f64 / NUM_QUERIES as f64;

    println!(
        "Bloom Filter\n\
         Target FPR : {:.4}\n\
         Actual FPR : {:.4}\n\
         False Positives : {}/{}",
        TARGET_FPR, actual_fpr, false_positives, NUM_QUERIES,
    );

    assert!(
        (actual_fpr - TARGET_FPR).abs() < 0.005,
        "target={:.4}, actual={:.4}",
        TARGET_FPR,
        actual_fpr
    );
}

#[test]
fn bit_ops_locates_byte_and_mask() {
    let filter = BloomFilter::new(64, 7);
    assert_eq!(filter.bit_ops(0), (0, 1));
    assert_eq!(filter.bit_ops(21), (2, 1 << 5));
    assert_eq!(filter.bit_ops(63), (7, 1 << 7));
}

#[test]
fn new_rounds_byte_count_up() {
    assert_eq!(BloomFilter::new(0, 1).bits.len(), 0);
    assert_eq!(BloomFilter::new(1, 1).bits.len(), 1);
    assert_eq!(BloomFilter::new(8, 1).bits.len(), 1);
    assert_eq!(BloomFilter::new(9, 1).bits.len(), 2);
}

#[test]
fn hash_of_empty_key_is_the_seed() {
    assert_eq!(hash_with_seed(b"", SEED1), SEED1);
    assert_eq!(hash_pair(b""), (SEED1, SEED2));
}

#[test]
fn hash_of_one_byte() {
    let x = SEED1 ^ 0x61;
    let y = x.wrapping_mul(0x100000001b3);
    let expected = y ^ (y >> 32);
    assert_eq!(hash_with_seed(b"a", SEED1), expected);
    assert_ne!(hash_with_seed(b"a", SEED1), hash_with_seed(b"b", SEED1));
}

#[test]
fn write_then_read_round_trips() {
    let mut bloom = BloomFilter::new(100, 5);
    bloom.insert(b"apple");
    bloom.insert(b"pear");
    let mut out = vec![9u8];
    bloom.write_to(&mut out);
    assert_eq!(out.len(), 1 + bloom.serialized_size());
    assert_eq!(bloom.serialized_size(), 4 + 1 + 13);
    assert_eq!(&out[1..5], &100u32.to_le_bytes());
    assert_eq!(out[5], 5);
    out.extend_from_slice(b"trailing");
    let read = BloomFilter::read_from(&out[1..]).unwrap();
    assert_eq!(read.num_bits, 100);
    assert_eq!(read.k, 5);
    assert_eq!(read.bits, bloom.bits);
    assert!(read.may_contain(b"apple"));
    assert!(read.may_contain(b"pear"));
}

#[test]
fn read_from_short_input_fails() {
    assert!(matches!(BloomFilter::read_from(&[1, 0, 0]), Err(IoError::UnexpectedEof)));
    assert!(matches!(BloomFilter::read_from(&[16, 0, 0, 0]), Err(IoError::UnexpectedEof)));
    assert!(matches!(BloomFilter::read_from(&[16, 0, 0, 0, 3, 0xff]), Err(IoError::UnexpectedEof)));
    let ok = BloomFilter::read_from(&[16, 0, 0, 0, 3, 0xff, 0x01]).unwrap();
    assert_eq!(ok.bits, vec![0xff, 0x01]);
    assert!(ok.test_bit(8));
    assert!(!ok.test_bit(9));
}
