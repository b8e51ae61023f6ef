use fold_rs::file_names::{
    is_orphan_tmp_name, next_seq_after, parse_u64, sort_by_seq, sstable_seq_from_name,
    wal_seq_from_name,
};

#[test]
fn removes_orphan_sstables() {
    assert!(is_orphan_tmp_name(b"000001.sst.tmp"));
    assert!(!is_orphan_tmp_name(b"000001.sst"));
    assert!(!is_orphan_tmp_name(b"sst.tmp"));
}

#[test]
fn parses_decimal_numbers_like_str_parse() {
    assert_eq!(parse_u64(b"00000015"), Some(15));
    assert_eq!(parse_u64(b"+7"), Some(7));
    assert_eq!(parse_u64(b""), None);
    assert_eq!(parse_u64(b"+"), None);
    assert_eq!(parse_u64(b"-1"), None);
    assert_eq!(parse_u64(b"1a"), None);
    assert_eq!(parse_u64(b"18446744073709551615"), Some(u64::MAX));
    assert_eq!(parse_u64(b"18446744073709551616"), None);
    for s in ["0", "42", "+42", "099", "x", " 1", "1 ", "99999999999999999999"] {
        assert_eq!(parse_u64(s.as_bytes()), s.parse::<u64>().ok(), "{s}");
    }
}

#[test]
fn recognises_file_names() {
    assert_eq!(sstable_seq_from_name(b"00000001.sst"), Some(1));
    assert_eq!(sstable_seq_from_name(b"00000015.sst"), Some(15));
    assert_eq!(sstable_seq_from_name(b"00000015.sst.tmp"), None);
    assert_eq!(sstable_seq_from_name(b"abc.sst"), None);
    assert_eq!(wal_seq_from_name(b"wal.00000003.log"), Some(3));
    assert_eq!(wal_seq_from_name(b"wal.log"), None);
    assert_eq!(wal_seq_from_name(b"wal.3"), None);
    assert_eq!(wal_seq_from_name(b"xwal.3.log"), None);
}

#[test]
fn next_sequence_numbers() {
    assert_eq!(next_seq_after(&[]), 1);
    assert_eq!(next_seq_after(&[1, 2, 15]), 16);
    assert_eq!(next_seq_after(&[15, 2]), 16);
}

#[test]
fn sorts_by_sequence_number() {
    let files = vec![(15, b"c".to_vec()), (1, b"a".to_vec()), (2, b"b".to_vec()), (1, b"a2".to_vec())];
    let sorted = sort_by_seq(files);
    let seqs: Vec<u64> = sorted.iter().map(|(s, _)| *s).collect();
    assert_eq!(seqs, vec![1, 1, 2, 15]);
    assert_eq!(sorted[0].1, b"a".to_vec());
    assert_eq!(sorted[1].1, b"a2".to_vec());
    assert_eq!(sorted[3].1, b"c".to_vec());
}
