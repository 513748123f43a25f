use rustedgedb::memtable::{Lookup, MemTable, MemTableError};
use rustedgedb::wal::{frame_record, read_log, replay, sequence_watermark, WALError, WALRecord};

fn log_of(records: &[WALRecord]) -> Vec<u8> {
    let mut out = Vec::new();
    let mut last = 0;
    for r in records {
        out.extend_from_slice(&frame_record(last, r).unwrap());
        last = r.sequence_number;
    }
    out
}

fn put(key: &[u8], value: &[u8], seq: u64) -> WALRecord {
    WALRecord::new(key.to_vec(), Some(value.to_vec()), 1000 + seq, seq)
}

fn del(key: &[u8], seq: u64) -> WALRecord {
    WALRecord::new(key.to_vec(), None, 1000 + seq, seq)
}

#[test]
fn test_wal_recovery() {
    let log = log_of(&[put(b"key1", b"value1", 1), put(b"key2", b"value2", 2), del(b"key1", 3)]);

    let mut memtable = MemTable::new(1024 * 1024);
    replay(&log, &mut memtable).unwrap();

    assert!(matches!(memtable.get(b"key1").unwrap(), Lookup::Tombstone));
    assert!(matches!(memtable.get(b"key2").unwrap(), Lookup::Value(v) if v == b"value2"));
    assert_eq!(memtable.len(), 2);
}

#[test]
fn test_wal_corruption_handling() {
    let mut log = log_of(&[put(b"key1", b"value1", 1), put(b"key2", b"value2", 2)]);
    log.extend_from_slice(b"corrupted data here");

    let mut memtable = MemTable::new(1024 * 1024);
    replay(&log, &mut memtable).unwrap();

    assert!(matches!(memtable.get(b"key1").unwrap(), Lookup::Value(v) if v == b"value1"));
    assert!(matches!(memtable.get(b"key2").unwrap(), Lookup::Value(v) if v == b"value2"));
}

#[test]
fn test_wal_record_structure() {
    let record = WALRecord::new(b"test_key".to_vec(), Some(b"test_value".to_vec()), 1234567890, 42);

    assert!(!record.is_deletion());
    assert_eq!(record.key, b"test_key");
    assert_eq!(record.value, Some(b"test_value".to_vec()));
    assert_eq!(record.timestamp, 1234567890);
    assert_eq!(record.sequence_number, 42);

    let delete_record = WALRecord::new(b"delete_key".to_vec(), None, 1234567890, 43);

    assert!(delete_record.is_deletion());
    assert_eq!(delete_record.value, None);
}

#[test]
fn test_wal_to_entry_conversion() {
    let record = WALRecord::new(b"test_key".to_vec(), Some(b"test_value".to_vec()), 1234567890, 42);

    let entry = record.to_entry();
    assert_eq!(entry.key, b"test_key");
    assert_eq!(entry.value, Some(b"test_value".to_vec()));
    assert_eq!(entry.timestamp, 1234567890);
    assert_eq!(entry.sequence_number, 42);
}

#[test]
fn record_layout_is_bit_exact() {
    let bytes = frame_record(6, &WALRecord::new(b"ab".to_vec(), Some(b"xyz".to_vec()), 0x0102, 7)).unwrap();
    let mut expected = vec![2, 0, 0, 0, 3, 0, 0, 0, 2, 1, 0, 0, 0, 0, 0, 0, 7, 0, 0, 0, 0, 0, 0, 0];
    expected.extend_from_slice(b"abxyz");
    assert_eq!(bytes, expected);
    let tombstone = frame_record(0, &WALRecord::new(b"ab".to_vec(), None, 0, 1)).unwrap();
    assert_eq!(&tombstone[4..8], &[0, 0, 0, 0]);
    assert_eq!(tombstone.len(), 26);
}

#[test]
fn frame_record_checks_sequence() {
    assert!(matches!(frame_record(0, &put(b"k", b"v", 2)), Err(WALError::InvalidRecord(_))));
    assert!(matches!(frame_record(5, &put(b"k", b"v", 5)), Err(WALError::InvalidRecord(_))));
    assert!(matches!(frame_record(u64::MAX, &put(b"k", b"v", 0)), Err(WALError::InvalidRecord(_))));
    assert!(frame_record(5, &put(b"k", b"v", 6)).is_ok());
}

#[test]
fn read_log_round_trips_records() {
    let records = [put(b"a", b"1", 1), del(b"b", 2), put(b"c", b"33", 3)];
    let back = read_log(&log_of(&records));
    assert_eq!(back.len(), 3);
    for (got, want) in back.iter().zip(records.iter()) {
        assert_eq!(got.key, want.key);
        assert_eq!(got.value, want.value);
        assert_eq!(got.timestamp, want.timestamp);
        assert_eq!(got.sequence_number, want.sequence_number);
    }
}

#[test]
fn replay_keeps_log_sequence_numbers() {
    let log = log_of(&[put(b"a", b"1", 1), put(b"b", b"2", 2)]);
    let mut memtable = MemTable::new(1024);
    assert_eq!(replay(&log, &mut memtable).unwrap(), 2);
    let entries = memtable.entries();
    assert_eq!(entries[0].sequence_number, 1);
    assert_eq!(entries[1].sequence_number, 2);
    assert_eq!(entries[1].timestamp, 1002);
}

#[test]
fn resync_skips_a_corrupt_record() {
    let mut log = log_of(&[put(b"a", b"1", 1)]);
    // A header whose key length is far beyond the sanity bound.
    log.extend_from_slice(&[0xff; 24]);
    log.extend_from_slice(&log_of(&[put(b"b", b"2", 1)]));
    let mut memtable = MemTable::new(1024);
    replay(&log, &mut memtable).unwrap();
    assert!(matches!(memtable.get(b"a").unwrap(), Lookup::Value(v) if v == b"1"));
    assert!(matches!(memtable.get(b"b").unwrap(), Lookup::Value(v) if v == b"2"));
    // Without resynchronisation the reader stops at the corruption.
    assert_eq!(sequence_watermark(&log), 1);
}

#[test]
fn torn_tail_is_ignored() {
    let mut log = log_of(&[put(b"a", b"1", 1), put(b"b", b"2", 2)]);
    let next = log_of(&[put(b"c", b"3", 1)]);
    log.extend_from_slice(&next[..20]);
    let records = read_log(&log);
    assert_eq!(records.len(), 2);
    assert_eq!(sequence_watermark(&log), 2);
}

#[test]
fn watermark_is_highest_sequence() {
    assert_eq!(sequence_watermark(&[]), 0);
    let log = log_of(&[put(b"a", b"1", 1), put(b"b", b"2", 2), del(b"a", 3)]);
    assert_eq!(sequence_watermark(&log), 3);
}

#[test]
fn replay_reports_memtable_errors() {
    let log = log_of(&[put(b"key1", b"value1", 1), put(b"key2", b"value2", 2)]);
    let mut memtable = MemTable::new(30);
    assert!(matches!(replay(&log, &mut memtable), Err(WALError::MemTable(MemTableError::TableFull))));
    let empty_key = log_of(&[WALRecord::new(Vec::new(), Some(b"v".to_vec()), 0, 1)]);
    let mut memtable = MemTable::new(1024);
    assert!(matches!(
        replay(&empty_key, &mut memtable),
        Err(WALError::MemTable(MemTableError::InvalidKey(_)))
    ));
}

#[test]
fn empty_value_reads_back_as_tombstone() {
    let log = log_of(&[put(b"k", b"", 1)]);
    let records = read_log(&log);
    assert_eq!(records.len(), 1);
    assert!(records[0].is_deletion());
}
