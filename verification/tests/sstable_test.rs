use fold_rs::error::IoError;
use fold_rs::memtable::{Entry, Memtable};
use fold_rs::sstable::footer::{Footer, FOOTER_SIZE};
use fold_rs::sstable::reader::{SstableLookup, SstableReader};
use fold_rs::sstable::writer::{SstableWriter, SSTABLE_MAGIC};

/// The filter size for `n` keys at false-positive rate `target_fpr`, by the
/// standard formulas.
fn bloom_size(n: usize, target_fpr: f64) -> (usize, u32) {
    let ln2 = std::f64::consts::LN_2;
    if n == 0 {
        return (0, 1);
    }
    let m = (-(n as f64) * target_fpr.ln() / (ln2 * ln2)).ceil() as usize;
    let k = (((m as f64 / n as f64) * ln2).round() as u32).clamp(1, 30);
    (m, k)
}

fn writer_for(expected_keys: usize) -> SstableWriter {
    let (num_bits, k) = bloom_size(expected_keys, 0.01);
    SstableWriter::new(num_bits, k)
}

#[test]
fn zero_false_negative_end_to_end() {
    let mut writer = writer_for(10_000);

    let mut expected = Vec::new();

    for i in 0..10_000 {
        let key = format!("key-{i:05}").into_bytes();

        let value = format!("value-{i:05}").into_bytes();

        writer.add(&key, &Entry::Value(value.clone()));

        expected.push((key, value));
    }

    let meta = writer.finish();

    let reader = SstableReader::open(meta.contents).unwrap();

    for (key, value) in expected {
        match reader.get(&key).unwrap() {
            Some(SstableLookup::Found(v)) => {
                assert_eq!(v, value);
            }

            other => panic!("unexpected lookup result: {other:?}"),
        }
    }
}

#[test]
fn sstable_size_matches_test() {
    const NUM_KEYS: usize = 1000;
    const TOLERANCE: u64 = 4 * 4096;

    let mut memtable = Memtable::new();

    for i in 0..NUM_KEYS {
        let key = format!("{i:016}").into_bytes();

        let value = vec![b'x'; 100];

        memtable.put(key, value);
    }

    let mut writer = writer_for(NUM_KEYS);

    for (key, entry) in memtable.iter() {
        writer.add(key, entry);
    }

    let meta = writer.finish();

    let file_size = meta.contents.len() as u64;

    println!("file size = {file_size}");

    let data_size: u64 = 1000 * (4 + 4 + 1 + 16 + 100);

    let index_entries = data_size.div_ceil(4096);

    let index_size = index_entries * (4 + 16 + 8);

    let bloom_size = 1200;

    let expected = data_size + index_size + bloom_size + 24;

    assert!(
        file_size >= expected - TOLERANCE && file_size <= expected + TOLERANCE,
        "expected ≈ {expected} bytes, got {file_size}",
    );

    let mut magic = [0u8; 8];

    magic.copy_from_slice(&meta.contents[meta.contents.len() - 8..]);

    let magic = u64::from_le_bytes(magic);

    assert_eq!(magic, SSTABLE_MAGIC);
}

#[test]
fn tombstones_and_missing_keys() {
    let mut writer = writer_for(3);
    writer.add(b"apple", &Entry::Value(b"red".to_vec()));
    writer.add(b"banana", &Entry::Tombstone);
    writer.add(b"cherry", &Entry::Value(Vec::new()));
    let meta = writer.finish();
    assert_eq!(meta.key_count, 3);
    assert_eq!(meta.min_key, b"apple".to_vec());
    assert_eq!(meta.max_key, b"cherry".to_vec());
    assert!(meta.bloom.may_contain(b"banana"));
    let reader = SstableReader::open(meta.contents).unwrap();
    assert_eq!(reader.get(b"apple").unwrap(), Some(SstableLookup::Found(b"red".to_vec())));
    assert_eq!(reader.get(b"banana").unwrap(), Some(SstableLookup::Tombstone));
    assert_eq!(reader.get(b"cherry").unwrap(), Some(SstableLookup::Found(Vec::new())));
    assert_eq!(reader.get(b"aardvark").unwrap(), None);
    assert_eq!(reader.get(b"blueberry").unwrap(), None);
    assert_eq!(reader.get(b"zucchini").unwrap(), None);
    assert_eq!(reader.find_block_offset(b"aardvark"), None);
    assert_eq!(reader.find_block_offset(b"blueberry"), Some(0));
}

#[test]
fn many_blocks_are_indexed() {
    let mut writer = writer_for(2000);
    for i in 0..2000u32 {
        let key = format!("k{i:06}").into_bytes();
        let entry = if i % 7 == 0 { Entry::Tombstone } else { Entry::Value(vec![(i % 251) as u8; 64]) };
        writer.add(&key, &entry);
    }
    let meta = writer.finish();
    let reader = SstableReader::open(meta.contents).unwrap();
    assert!(reader.find_block_offset(b"k001999").unwrap() > 0);
    for i in 0..2000u32 {
        let key = format!("k{i:06}").into_bytes();
        let got = reader.get(&key).unwrap();
        if i % 7 == 0 {
            assert_eq!(got, Some(SstableLookup::Tombstone));
        } else {
            assert_eq!(got, Some(SstableLookup::Found(vec![(i % 251) as u8; 64])));
        }
    }
    assert_eq!(reader.get(b"k002000").unwrap(), None);
    assert_eq!(reader.get(b"k0005").unwrap(), None);
}

#[test]
fn footer_round_trip_and_errors() {
    let footer = Footer { index_offset: 1234, bloom_offset: 5678, version: 1 };
    let mut out = Vec::new();
    footer.write_to(&mut out);
    assert_eq!(out.len(), FOOTER_SIZE);
    assert_eq!(&out[0..8], &1234u64.to_le_bytes());
    assert_eq!(&out[8..16], &5678u64.to_le_bytes());
    assert_eq!(out[16], 1);
    assert_eq!(&out[17..24], &[0u8; 7]);
    assert_eq!(&out[24..32], &SSTABLE_MAGIC.to_le_bytes());
    assert_eq!(Footer::read_from(&out), Ok(footer));
    assert_eq!(Footer::read_from(&out[1..]), Err(IoError::InvalidFooterSize));
    out[31] ^= 1;
    assert_eq!(Footer::read_from(&out), Err(IoError::InvalidMagic));
}

#[test]
fn open_rejects_bad_files() {
    assert!(matches!(SstableReader::open(vec![0u8; 10]), Err(IoError::TooSmall)));
    assert!(matches!(SstableReader::open(vec![0u8; 32]), Err(IoError::InvalidMagic)));
    let mut bad = Vec::new();
    Footer { index_offset: 10, bloom_offset: 5, version: 1 }.write_to(&mut bad);
    assert!(matches!(SstableReader::open(bad), Err(IoError::InvalidOffsets)));
    let mut short_index = vec![9, 0, 0, 0];
    Footer { index_offset: 0, bloom_offset: 4, version: 1 }.write_to(&mut short_index);
    assert!(matches!(SstableReader::open(short_index), Err(IoError::UnexpectedEof)));
}

#[test]
fn empty_bloom_filter_opens_and_refuses_lookups() {
    let mut file = vec![0u8, 0, 0, 0, 3];
    Footer { index_offset: 0, bloom_offset: 0, version: 1 }.write_to(&mut file);
    let reader = SstableReader::open(file).expect("an empty filter still opens");
    assert_eq!(reader.get(b"a"), Err(IoError::EmptyBloomFilter));
}
