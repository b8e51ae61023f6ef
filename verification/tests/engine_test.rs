use fold_rs::sstable::reader::SstableReader;
use fold_rs::durability::logs_covered_by_flush;
use fold_rs::storage_engine::StorageEngine;
use fold_rs::wal::format::{serialize, RecordType, WalRecord};

/// The filter size for `n` keys at false-positive rate `target_fpr`, by the
/// standard formulas.
fn bloom_size(n: usize, target_fpr: f64) -> (usize, u32) {
    let ln2 = std::f64::consts::LN_2;
    if n == 0 {
        return (0, 1);
    }
    let m = (-(n as f64) * target_fpr.ln() / (ln2 * ln2)).ceil() as usize;
    let k = (((m as f64 / n as f64) * ln2).round() as u32).clamp(1, 30);
    (m, k)
}

/// Writes the memtable out as the newest SSTable.
fn flush(engine: &mut StorageEngine) {
    let (num_bits, k) = bloom_size(engine.memtable_len(), 0.01);
    if let Some((_seq, meta)) = engine.prepare_flush(num_bits, k) {
        let reader = SstableReader::open(meta.contents).unwrap();
        engine.install_flushed(reader);
    }
}

fn log_put(log: &mut Vec<u8>, key: &[u8], value: &[u8]) {
    serialize(&WalRecord { record_type: RecordType::Put, key, value }, log);
}

fn log_delete(log: &mut Vec<u8>, key: &[u8]) {
    serialize(&WalRecord { record_type: RecordType::Delete, key, value: &[] }, log);
}

fn empty_engine() -> StorageEngine {
    StorageEngine::open(Vec::new(), 1, 2, Vec::new())
}

#[test]
fn recovers_after_reopen() {
    let mut log = Vec::new();
    {
        let mut engine = empty_engine();

        for i in 0..100 {
            let key = format!("key-{i}");

            let value = format!("value-{i}");

            log_put(&mut log, key.as_bytes(), value.as_bytes());
            engine.put(key.as_bytes(), value.as_bytes());
        }
    }

    let engine = StorageEngine::open(Vec::new(), 1, 2, vec![log]);

    for i in 0..100 {
        let key = format!("key-{i}");

        let value = format!("value-{i}");

        let actual = engine.get(key.as_bytes()).unwrap();

        assert_eq!(actual, Some(value.into_bytes()));
    }
}

#[test]
fn recovers_deletes_after_reopen() {
    let mut log = Vec::new();
    {
        let mut engine = empty_engine();

        log_put(&mut log, b"a", b"1");
        engine.put(b"a", b"1");

        log_delete(&mut log, b"a");
        engine.delete(b"a");
    }

    let engine = StorageEngine::open(Vec::new(), 1, 2, vec![log]);

    assert_eq!(engine.get(b"a").unwrap(), None);
}

#[test]
fn overwrite_across_flush_boundary_returns_newest_value() {
    let mut engine = empty_engine();

    engine.put(b"k", b"v1");

    flush(&mut engine);

    assert_eq!(engine.sstable_count(), 1);

    engine.put(b"k", b"v2");

    assert_eq!(engine.get(b"k").unwrap(), Some(b"v2".to_vec()));
}

#[test]
fn tombstone_shadows_value_across_flush_boundary() {
    let mut engine = empty_engine();

    engine.put(b"k", b"v");

    flush(&mut engine);

    assert_eq!(engine.sstable_count(), 1);

    engine.delete(b"k");

    assert_eq!(engine.get(b"k").unwrap(), None);
}

#[test]
fn tombstone_in_newer_sstable_shadows_older_value() {
    let mut engine = empty_engine();

    engine.put(b"k", b"v");

    flush(&mut engine);

    assert_eq!(engine.sstable_count(), 1);

    engine.delete(b"k");

    flush(&mut engine);

    assert_eq!(engine.sstable_count(), 2);

    assert_eq!(engine.get(b"k").unwrap(), None);
}

#[test]
fn creates_multiple_sstables_after_many_flushes() {
    const FLUSH_THRESHOLD_BYTES: usize = 4 * 1024 * 1024;
    const TOTAL_DATA: usize = 50 * 1024 * 1024;
    const VALUE_SIZE: usize = 1024;

    let mut engine = empty_engine();

    let mut written = 0usize;
    let mut key_index = 0usize;

    while written < TOTAL_DATA {
        let key = format!("key-{key_index}");
        let value = vec![(key_index % 256) as u8; VALUE_SIZE];

        if engine.put(key.as_bytes(), value.as_ref()) {
            flush(&mut engine);
        }

        written += key.len() + value.len();

        key_index += 1;

        if key_index.is_multiple_of(5000) {
            println!("inserted {key_index}");
        }
    }

    let expected_flushes = TOTAL_DATA / FLUSH_THRESHOLD_BYTES;

    assert!(
        engine.sstable_count() >= expected_flushes.saturating_sub(1),
        "too few SSTables: expected about {}, got {}",
        expected_flushes,
        engine.sstable_count(),
    );

    assert!(
        engine.sstable_count() <= expected_flushes + 1,
        "too many SSTables: expected about {}, got {}",
        expected_flushes,
        engine.sstable_count(),
    );
}

#[test]
fn ignores_half_written_final_record() {
    const N: usize = 100;

    let mut log = Vec::new();

    for i in 0..N {
        let key = format!("key-{i}");

        let value = format!("value-{i}");

        log_put(&mut log, key.as_bytes(), value.as_bytes());
    }

    let full_len = log.len();

    log.truncate(full_len - 3);

    let engine = StorageEngine::open(Vec::new(), 1, 2, vec![log]);

    for i in 0..(N - 1) {
        let key = format!("key-{i}");

        let expected = format!("value-{i}").into_bytes();

        assert_eq!(
            engine.get(key.as_bytes()).unwrap(),
            Some(expected),
            "failed on key {key}"
        );
    }

    let final_key = format!("key-{}", N - 1);

    assert_eq!(
        engine.get(final_key.as_bytes()).unwrap(),
        None,
        "last record should be discarded",
    );
}

#[test]
fn opens_empty_wal() {
    let engine = StorageEngine::open(Vec::new(), 1, 2, vec![Vec::new()]);

    assert_eq!(engine.get(b"missing").unwrap(), None);
}

#[test]
fn later_logs_override_earlier_ones() {
    let mut older = Vec::new();
    log_put(&mut older, b"a", b"old");
    log_put(&mut older, b"b", b"kept");
    let mut newer = Vec::new();
    log_put(&mut newer, b"a", b"new");
    log_delete(&mut newer, b"b");
    let engine = StorageEngine::open(Vec::new(), 1, 2, vec![older, newer]);
    assert_eq!(engine.get(b"a").unwrap(), Some(b"new".to_vec()));
    assert_eq!(engine.get(b"b").unwrap(), None);
}

#[test]
fn reopen_with_sstables_reads_through_layers() {
    let mut engine = empty_engine();
    engine.put(b"x", b"1");
    engine.put(b"y", b"2");
    let (num_bits, k) = bloom_size(engine.memtable_len(), 0.01);
    let (seq, meta) = engine.prepare_flush(num_bits, k).unwrap();
    assert_eq!(seq, 1);
    let bytes = meta.contents.clone();
    engine.install_flushed(SstableReader::open(meta.contents).unwrap());
    assert_eq!(engine.memtable_size_bytes(), 0);
    let mut log = Vec::new();
    log_put(&mut log, b"y", b"3");
    let mut reopened = StorageEngine::open(vec![SstableReader::open(bytes).unwrap()], 2, 3, vec![log]);
    assert_eq!(reopened.get(b"x").unwrap(), Some(b"1".to_vec()));
    assert_eq!(reopened.get(b"y").unwrap(), Some(b"3".to_vec()));
    assert_eq!(reopened.get(b"z").unwrap(), None);
    assert_eq!(reopened.next_sstable_seq(), 2);
    assert_eq!(reopened.next_sstable_seq(), 3);
    assert_eq!(reopened.next_wal_seq(), 3);
}

#[test]
fn flush_of_empty_memtable_does_nothing() {
    let mut engine = empty_engine();
    assert!(engine.prepare_flush(0, 0).is_none());
    assert_eq!(engine.next_sstable_seq(), 1);
}

#[test]
fn put_reports_when_flush_is_due() {
    let mut engine = empty_engine();
    assert!(!engine.put(b"k", &[0u8; 1000]));
    assert!(engine.put(b"big", &vec![0u8; 4 * 1024 * 1024]));
}

#[test]
fn flush_covers_every_live_log_but_the_fresh_one() {
    assert_eq!(logs_covered_by_flush(&[3, 4, 5], 6), vec![3, 4, 5]);
    assert_eq!(logs_covered_by_flush(&[3, 6, 5], 6), vec![3, 5]);
    assert_eq!(logs_covered_by_flush(&[], 1), Vec::<u64>::new());
}

#[test]
fn writes_survive_flush_and_restarts() {
    let mut engine = empty_engine();
    engine.put(b"a", b"1");
    engine.put(b"b", b"2");
    let (num_bits, k) = bloom_size(engine.memtable_len(), 0.01);
    let (_, meta) = engine.prepare_flush(num_bits, k).unwrap();
    let table = meta.contents.clone();
    engine.install_flushed(SstableReader::open(meta.contents).unwrap());
    let mut log = Vec::new();
    log_put(&mut log, b"b", b"3");
    engine.put(b"b", b"3");
    log_delete(&mut log, b"a");
    engine.delete(b"a");
    log_put(&mut log, b"c", b"4");
    engine.put(b"c", b"4");
    let before: Vec<_> = [&b"a"[..], b"b", b"c", b"d"].iter().map(|k| engine.get(k).unwrap()).collect();
    let first = StorageEngine::open(vec![SstableReader::open(table.clone()).unwrap()], 2, 3, vec![log.clone()]);
    let after: Vec<_> = [&b"a"[..], b"b", b"c", b"d"].iter().map(|k| first.get(k).unwrap()).collect();
    assert_eq!(before, after);
    assert_eq!(after, vec![None, Some(b"3".to_vec()), Some(b"4".to_vec()), None]);
    let second = StorageEngine::open(vec![SstableReader::open(table).unwrap()], 2, 4, vec![log, Vec::new()]);
    let again: Vec<_> = [&b"a"[..], b"b", b"c", b"d"].iter().map(|k| second.get(k).unwrap()).collect();
    assert_eq!(again, after);
}
