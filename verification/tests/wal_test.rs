use fold_rs::wal::format::{encoded_len, serialize, RecordType, WalRecord, HEADER_SIZE};
use fold_rs::wal::reader::WalReader;

fn write_records(n: usize) -> Vec<u8> {
    let mut log = Vec::new();
    for i in 0..n {
        let key = format!("key-{i}");

        let value = vec![b'x'; 128];

        let record = WalRecord {
            record_type: RecordType::Put,
            key: key.as_bytes(),
            value: &value,
        };

        serialize(&record, &mut log);
    }
    log
}

#[test]
fn wal_file_size_matches_encoded_sizes() {
    let mut log = Vec::new();

    let mut expected_size = 0usize;

    for i in 0..100 {
        let key = format!("key-{i}");
        let value = vec![b'x'; 128];

        let record = WalRecord {
            record_type: RecordType::Put,
            key: key.as_bytes(),
            value: &value,
        };

        expected_size += encoded_len(record.key, record.value);

        serialize(&record, &mut log);
    }

    assert_eq!(log.len(), expected_size);
}

#[test]
fn recovers_until_truncated_record() {
    let log = write_records(1000);

    let new_size = (log.len() as f64 * 0.6) as usize;

    let truncated = log[..new_size].to_vec();

    let mut reader = WalReader::new(truncated);

    let recovered = reader.read_all();

    assert!(
        recovered.len() > 500,
        "recovered {} records",
        recovered.len()
    );

    assert!(
        recovered.len() < 700,
        "recovered {} records",
        recovered.len()
    );
}

#[test]
fn stops_on_crc_failure() {
    let mut bytes = write_records(100);

    let midpoint = bytes.len() / 2;

    bytes[midpoint] ^= 0xFF;

    let mut reader = WalReader::new(bytes);

    let recovered = reader.read_all();

    assert_eq!(recovered.len(), 50);
}

#[test]
fn empty_wal_yields_no_records() {
    let mut reader = WalReader::new(Vec::new());

    assert!(reader.read_one().is_none());

    let mut reader = WalReader::new(Vec::new());

    let recovered = reader.read_all();

    assert_eq!(recovered.len(), 0);
}

#[test]
fn truncated_header_yields_no_records() {
    let mut reader = WalReader::new(vec![1, 2, 3, 4, 5]);

    assert!(reader.read_one().is_none());

    let mut reader = WalReader::new(vec![1, 2, 3, 4, 5]);

    let recovered = reader.read_all();

    assert_eq!(recovered.len(), 0);
}

#[test]
fn exactly_header_size_but_no_payload() {
    let mut reader = WalReader::new(vec![0u8; HEADER_SIZE]);

    let recovered = reader.read_all();

    assert_eq!(recovered.len(), 0);
}

#[test]
fn record_layout_and_checksum() {
    let record = WalRecord { record_type: RecordType::Delete, key: b"ab", value: b"" };
    let mut buf = vec![7u8];
    serialize(&record, &mut buf);
    let body = [2u8, 0, 0, 0, 0, 0, 0, 0, 1, b'a', b'b'];
    assert_eq!(&buf[5..], &body);
    assert_eq!(&buf[1..5], &crc32fast::hash(&body).to_le_bytes());
    assert_eq!(buf.len(), 1 + encoded_len(b"ab", b""));
    assert_eq!(encoded_len(b"ab", b"xyz"), 13 + 2 + 3);
}

#[test]
fn records_round_trip_in_order() {
    let mut log = Vec::new();
    serialize(&WalRecord { record_type: RecordType::Put, key: b"k1", value: b"v1" }, &mut log);
    serialize(&WalRecord { record_type: RecordType::Delete, key: b"k1", value: b"" }, &mut log);
    serialize(&WalRecord { record_type: RecordType::Put, key: b"", value: b"empty key" }, &mut log);
    let mut reader = WalReader::new(log);
    let first = reader.read_one().unwrap();
    assert_eq!(first.record_type, RecordType::Put);
    assert_eq!(first.key, b"k1".to_vec());
    assert_eq!(first.value, b"v1".to_vec());
    let second = reader.read_one().unwrap();
    assert_eq!(second.record_type, RecordType::Delete);
    assert_eq!(second.key, b"k1".to_vec());
    let third = reader.read_one().unwrap();
    assert_eq!(third.key, Vec::<u8>::new());
    assert_eq!(third.value, b"empty key".to_vec());
    assert!(reader.read_one().is_none());
}

#[test]
fn unknown_record_type_stops_reading() {
    let mut log = Vec::new();
    serialize(&WalRecord { record_type: RecordType::Put, key: b"k", value: b"v" }, &mut log);
    log[12] = 7;
    let mut reader = WalReader::new(log);
    assert!(reader.read_one().is_none());
}

#[test]
fn truncated_final_record_is_dropped() {
    let mut log = write_records(3);
    let full = log.len();
    log.truncate(full - 1);
    let mut reader = WalReader::new(log);
    assert_eq!(reader.read_all().len(), 2);
}

#[test]
fn record_type_bytes() {
    assert_eq!(RecordType::Put.to_byte(), 0);
    assert_eq!(RecordType::Delete.to_byte(), 1);
    assert_eq!(RecordType::from_byte(1), Some(RecordType::Delete));
    assert_eq!(RecordType::from_byte(2), None);
}
