use rustedgedb::memtable::{Entry, Lookup, MemTable, MemTableError};

#[test]
fn test_memtable_creation() {
    let memtable = MemTable::new(1024);
    assert_eq!(memtable.size_bytes(), 0);
    assert!(memtable.is_empty());
    assert_eq!(memtable.len(), 0);
    assert!(!memtable.is_full());
}

#[test]
fn test_memtable_put_and_get() {
    let mut memtable = MemTable::new(1024);

    memtable.put(b"key1", b"value1").unwrap();
    assert!(matches!(memtable.get(b"key1").unwrap(), Lookup::Value(v) if v == b"value1"));
    assert_eq!(memtable.len(), 1);
    assert!(!memtable.is_empty());

    memtable.put(b"key1", b"new_value").unwrap();
    assert!(matches!(memtable.get(b"key1").unwrap(), Lookup::Value(v) if v == b"new_value"));
    assert_eq!(memtable.len(), 1);
}

#[test]
fn test_memtable_delete() {
    let mut memtable = MemTable::new(1024);

    memtable.put(b"key1", b"value1").unwrap();
    assert!(matches!(memtable.get(b"key1").unwrap(), Lookup::Value(v) if v == b"value1"));

    memtable.delete(b"key1").unwrap();
    assert!(matches!(memtable.get(b"key1").unwrap(), Lookup::Tombstone));

    assert_eq!(memtable.len(), 1);
}

#[test]
fn test_memtable_size_tracking() {
    let mut memtable = MemTable::new(50);

    memtable.put(b"key1", b"value1").unwrap();
    assert!(memtable.size_bytes() > 0);
    assert!(!memtable.is_full());

    let result = memtable.put(b"key2", b"value2");
    assert!(result.is_err());
    assert!(matches!(result.unwrap_err(), MemTableError::TableFull));

    assert!(matches!(memtable.get(b"key1").unwrap(), Lookup::Value(v) if v == b"value1"));
    assert_eq!(memtable.len(), 1);
}

#[test]
fn test_memtable_sequence_numbers() {
    let mut memtable = MemTable::new(1024);

    let initial_seq = memtable.sequence_number();

    memtable.put(b"key1", b"value1").unwrap();
    assert_eq!(memtable.sequence_number(), initial_seq + 1);

    memtable.put(b"key2", b"value2").unwrap();
    assert_eq!(memtable.sequence_number(), initial_seq + 2);

    memtable.delete(b"key1").unwrap();
    assert_eq!(memtable.sequence_number(), initial_seq + 3);
}

#[test]
fn test_memtable_entries() {
    let mut memtable = MemTable::new(1024);

    memtable.put(b"key1", b"value1").unwrap();
    memtable.put(b"key2", b"value2").unwrap();
    memtable.delete(b"key1").unwrap();

    let entries = memtable.entries();
    assert_eq!(entries.len(), 2);

    assert!(entries[0].key <= entries[1].key);

    let deleted_entry = entries.iter().find(|e| e.key == b"key1").unwrap();
    assert!(deleted_entry.is_deletion());
}

#[test]
fn test_memtable_clear() {
    let mut memtable = MemTable::new(1024);

    memtable.put(b"key1", b"value1").unwrap();
    memtable.put(b"key2", b"value2").unwrap();

    assert_eq!(memtable.len(), 2);
    assert!(!memtable.is_empty());

    memtable.clear();

    assert_eq!(memtable.len(), 0);
    assert!(memtable.is_empty());
    assert_eq!(memtable.size_bytes(), 0);
    assert_eq!(memtable.sequence_number(), 0);
}

#[test]
fn test_memtable_invalid_inputs() {
    let mut memtable = MemTable::new(1024);

    let result = memtable.put(b"", b"value");
    assert!(result.is_err());
    assert!(matches!(result.unwrap_err(), MemTableError::InvalidKey(_)));

    let result = memtable.get(b"");
    assert!(result.is_err());
    assert!(matches!(result.unwrap_err(), MemTableError::InvalidKey(_)));

    let result = memtable.delete(b"");
    assert!(result.is_err());
    assert!(matches!(result.unwrap_err(), MemTableError::InvalidKey(_)));
}

#[test]
fn test_memtable_ordering() {
    let mut memtable = MemTable::new(1024);

    memtable.put(b"zebra", b"zebra_value").unwrap();
    memtable.put(b"apple", b"apple_value").unwrap();
    memtable.put(b"banana", b"banana_value").unwrap();

    let entries = memtable.entries();
    assert_eq!(entries.len(), 3);

    assert_eq!(entries[0].key, b"apple");
    assert_eq!(entries[1].key, b"banana");
    assert_eq!(entries[2].key, b"zebra");
}

#[test]
fn memtable_size_is_sum_of_entry_sizes() {
    let mut memtable = MemTable::new(1024);
    memtable.put(b"key1", b"value1").unwrap();
    assert_eq!(memtable.size_bytes(), 4 + 6 + 16);
    memtable.put(b"key2", b"v").unwrap();
    assert_eq!(memtable.size_bytes(), 26 + 4 + 1 + 16);
    // Replacing an entry charges the new size instead of the old one.
    memtable.put(b"key1", b"v").unwrap();
    assert_eq!(memtable.size_bytes(), 21 + 21);
    memtable.delete(b"key2").unwrap();
    assert_eq!(memtable.size_bytes(), 21 + 20);
}

#[test]
fn memtable_full_when_size_reaches_bound() {
    let mut memtable = MemTable::new(26);
    memtable.put(b"key1", b"value1").unwrap();
    assert_eq!(memtable.size_bytes(), 26);
    assert!(memtable.is_full());
    // A replacement that still fits is accepted.
    memtable.put(b"key1", b"value2").unwrap();
    assert!(matches!(memtable.get(b"key1").unwrap(), Lookup::Value(v) if v == b"value2"));
}

#[test]
fn memtable_full_put_changes_nothing_but_sequence() {
    let mut memtable = MemTable::new(30);
    memtable.put(b"key1", b"value1").unwrap();
    let before = memtable.sequence_number();
    assert!(matches!(memtable.put(b"key2", b"value2"), Err(MemTableError::TableFull)));
    assert_eq!(memtable.sequence_number(), before + 1);
    assert_eq!(memtable.size_bytes(), 26);
    assert!(matches!(memtable.get(b"key2").unwrap(), Lookup::Absent));
}

#[test]
fn memtable_get_is_three_valued() {
    let mut memtable = MemTable::new(1024);
    memtable.put(b"a", b"1").unwrap();
    memtable.delete(b"b").unwrap();
    assert!(matches!(memtable.get(b"a").unwrap(), Lookup::Value(v) if v == b"1"));
    assert!(matches!(memtable.get(b"b").unwrap(), Lookup::Tombstone));
    assert!(matches!(memtable.get(b"c").unwrap(), Lookup::Absent));
    assert!(matches!(memtable.get(b""), Err(MemTableError::InvalidKey(_))));
}

#[test]
fn memtable_insert_entry_keeps_given_sequence() {
    let mut memtable = MemTable::new_default();
    assert_eq!(memtable.max_size_bytes(), 64 * 1024 * 1024);
    memtable
        .insert_entry(Entry::new(b"k".to_vec(), Some(b"v".to_vec()), 7, 42))
        .unwrap();
    let entries = memtable.entries();
    assert_eq!(entries[0].sequence_number, 42);
    assert_eq!(entries[0].timestamp, 7);
    assert_eq!(memtable.sequence_number(), 42);
    memtable.put(b"k2", b"v2").unwrap();
    assert_eq!(memtable.sequence_number(), 43);
    assert!(matches!(
        memtable.insert_entry(Entry::new(Vec::new(), None, 0, 1)),
        Err(MemTableError::InvalidKey(_))
    ));
}

#[test]
fn entry_size_and_deletion() {
    let e = Entry::new(b"abc".to_vec(), Some(b"de".to_vec()), 1, 2);
    assert_eq!(e.size_bytes(), 3 + 2 + 16);
    assert!(!e.is_deletion());
    let t = Entry::new(b"abc".to_vec(), None, 1, 2);
    assert_eq!(t.size_bytes(), 19);
    assert!(t.is_deletion());
}

#[test]
fn memtable_keys_order_by_unsigned_bytes() {
    let mut memtable = MemTable::new(1024);
    memtable.put(&[0xff], b"high").unwrap();
    memtable.put(&[0x01, 0x00], b"longer").unwrap();
    memtable.put(&[0x01], b"prefix").unwrap();
    let entries = memtable.entries();
    assert_eq!(entries[0].key, vec![0x01]);
    assert_eq!(entries[1].key, vec![0x01, 0x00]);
    assert_eq!(entries[2].key, vec![0xff]);
}
