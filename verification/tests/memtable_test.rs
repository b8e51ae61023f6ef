use fold_rs::memtable::{calc_entry_size, Entry, LookupResult, Memtable, ENTRY_OVERHEAD_BYTES};

fn b(s: &str) -> Vec<u8> {
    s.as_bytes().to_vec()
}

#[test]
fn iter_returns_sorted_keys() {
    let mut memtable = Memtable::new();

    memtable.put(b("z"), b("1"));

    memtable.put(b("a"), b("2"));

    memtable.put(b("m"), b("3"));

    let mut prev: Option<&Vec<u8>> = None;

    for (key, _) in memtable.iter() {
        if let Some(prev_key) = prev {
            assert!(prev_key < key, "keys are not strictly increasing");
        }

        prev = Some(key);
    }
}

#[test]
fn tombstone_round_trip() {
    let mut memtable = Memtable::new();

    memtable.put(b("a"), b("1"));

    let initial_size = memtable.size_bytes();

    assert_eq!(memtable.get(b"a"), LookupResult::Found(b("1")));

    memtable.delete(b("a"));

    let tombstone_size = memtable.size_bytes();

    assert_eq!(memtable.get(b"a"), LookupResult::Tombstone);

    assert_ne!(tombstone_size, initial_size);

    memtable.put(b("a"), b("2"));

    assert_eq!(memtable.get(b"a"), LookupResult::Found(b("2")));

    let expected = 1 + 1 + ENTRY_OVERHEAD_BYTES;

    assert_eq!(memtable.size_bytes(), expected);
}

#[test]
fn size_tracking_matches_ground_truth() {
    let mut memtable = Memtable::new();

    for i in 0..1000 {
        let key = format!("key-{i}").into_bytes();

        let value = vec![b'x'; i % 100 + 1];

        memtable.put(key, value);
    }

    let actual = memtable.size_bytes();

    let expected: usize = memtable
        .iter()
        .iter()
        .map(|(key, entry)| calc_entry_size(key, entry))
        .sum();

    assert_eq!(actual, expected);
}

#[test]
fn missing_key_is_not_in_memtable() {
    let mut memtable = Memtable::new();
    assert_eq!(memtable.get(b"k"), LookupResult::NotInMemtable);
    memtable.put(b("k"), b("v"));
    assert_eq!(memtable.get(b"j"), LookupResult::NotInMemtable);
    assert_eq!(memtable.get(b"kk"), LookupResult::NotInMemtable);
    assert_eq!(memtable.get(b""), LookupResult::NotInMemtable);
}

#[test]
fn entry_sizes() {
    assert_eq!(calc_entry_size(b"abc", &Entry::Value(b("hello"))), 3 + 5 + 48);
    assert_eq!(calc_entry_size(b"abc", &Entry::Tombstone), 3 + 48);
}

#[test]
fn size_accounting_on_overwrite_and_delete() {
    let mut memtable = Memtable::new();
    assert!(memtable.is_empty());
    memtable.put(b("key"), b("value"));
    assert_eq!(memtable.size_bytes(), 3 + 5 + 48);
    memtable.put(b("key"), b("v"));
    assert_eq!(memtable.size_bytes(), 3 + 1 + 48);
    memtable.put(b("other"), b("xy"));
    assert_eq!(memtable.size_bytes(), (3 + 1 + 48) + (5 + 2 + 48));
    memtable.delete(b("key"));
    assert_eq!(memtable.size_bytes(), (3 + 48) + (5 + 2 + 48));
    memtable.delete(b("new"));
    assert_eq!(memtable.size_bytes(), (3 + 48) + (5 + 2 + 48) + (3 + 48));
    assert_eq!(memtable.len(), 3);
    assert!(!memtable.is_empty());
}

#[test]
fn iter_orders_bytewise_and_by_length() {
    let mut memtable = Memtable::default();
    for k in ["b", "a", "ab", "", "aa", "ba", "a\u{0}"] {
        memtable.put(b(k), b("v"));
    }
    let keys: Vec<Vec<u8>> = memtable.iter().iter().map(|(k, _)| k.clone()).collect();
    let mut expected: Vec<Vec<u8>> = ["b", "a", "ab", "", "aa", "ba", "a\u{0}"].iter().map(|s| b(s)).collect();
    expected.sort();
    assert_eq!(keys, expected);
    assert!(matches!(memtable.iter()[0].1, Entry::Value(_)));
}
