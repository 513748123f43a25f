use rustedgedb::engine::{
    apply_logged, check_key, log_file_order, read_layers, read_step, table_file_order, EngineConfig,
    EngineError, EngineStats, ReadStep, WriteStep,
};
use rustedgedb::memtable::{Entry, Lookup, MemTable, MemTableError};
use rustedgedb::sstable::{read_table_entries, CompressionType, TableImage};
use rustedgedb::wal::{frame_record, replay, WALRecord};

/// Reads a key the way the engine does: the MemTable, then each table,
/// newest first, until a layer knows the key.
fn read(memtable: &MemTable, tables: &Vec<TableImage>, key: &[u8]) -> Option<Vec<u8>> {
    read_layers(memtable, tables, key).unwrap()
}

fn flush(memtable: &mut MemTable, tables: &mut Vec<TableImage>) {
    let image = TableImage::from_memtable(memtable, CompressionType::Uncompressed).unwrap();
    tables.insert(0, image);
    *memtable = MemTable::new(memtable.max_size_bytes());
}

#[test]
fn basic_put_get_delete() {
    let mut memtable = MemTable::new_default();
    memtable.put(b"user:1", b"John").unwrap();
    memtable.put(b"user:2", b"Jane").unwrap();
    memtable.delete(b"user:1").unwrap();
    assert_eq!(read(&memtable, &Vec::new(), b"user:1"), None);
    assert_eq!(read(&memtable, &Vec::new(), b"user:2"), Some(b"Jane".to_vec()));
}

#[test]
fn persistence_across_restart() {
    let mut memtable = MemTable::new_default();
    let mut tables = Vec::new();
    for i in 0..100 {
        let key = format!("persistent:{}", i);
        let value = format!("value{}", i);
        memtable.put(key.as_bytes(), value.as_bytes()).unwrap();
    }
    flush(&mut memtable, &mut tables);
    // Reopen: the tables come back from their bytes alone.
    let files: Vec<Vec<u8>> = tables.iter().map(|t| t.bytes().to_vec()).collect();
    let reopened: Vec<TableImage> = files
        .iter()
        .map(|f| TableImage::from_entries(&read_table_entries(f).unwrap(), CompressionType::Uncompressed).unwrap())
        .collect();
    let fresh = MemTable::new_default();
    assert_eq!(read(&fresh, &reopened, b"persistent:0"), Some(b"value0".to_vec()));
    assert_eq!(read(&fresh, &reopened, b"persistent:99"), Some(b"value99".to_vec()));
    assert!(reopened.len() >= 1);
}

#[test]
fn newest_value_wins_across_layers() {
    let mut memtable = MemTable::new_default();
    let mut tables = Vec::new();
    memtable.put(b"k", b"v1").unwrap();
    flush(&mut memtable, &mut tables);
    memtable.put(b"k", b"v2").unwrap();
    assert_eq!(read(&memtable, &tables, b"k"), Some(b"v2".to_vec()));
    flush(&mut memtable, &mut tables);
    assert_eq!(read(&memtable, &tables, b"k"), Some(b"v2".to_vec()));
}

#[test]
fn tombstone_masks_older_layers() {
    let mut memtable = MemTable::new_default();
    let mut tables = Vec::new();
    memtable.put(b"k", b"v").unwrap();
    flush(&mut memtable, &mut tables);
    memtable.delete(b"k").unwrap();
    assert_eq!(read(&memtable, &tables, b"k"), None);
    flush(&mut memtable, &mut tables);
    assert_eq!(tables.len(), 2);
    assert_eq!(read(&memtable, &tables, b"k"), None);
}

#[test]
fn crash_recovery() {
    let mut log = Vec::new();
    let records = [
        WALRecord::new(b"r1".to_vec(), Some(b"d1".to_vec()), 1, 1),
        WALRecord::new(b"r2".to_vec(), Some(b"d2".to_vec()), 2, 2),
    ];
    let mut last = 0;
    for r in &records {
        log.extend_from_slice(&frame_record(last, r).unwrap());
        last = r.sequence_number;
    }
    let mut memtable = MemTable::new_default();
    replay(&log, &mut memtable).unwrap();
    assert_eq!(read(&memtable, &Vec::new(), b"r1"), Some(b"d1".to_vec()));
    assert_eq!(read(&memtable, &Vec::new(), b"r2"), Some(b"d2".to_vec()));
}

#[test]
fn read_step_decisions() {
    assert!(matches!(read_step(Lookup::Value(b"v".to_vec()), 0, 3), ReadStep::Done(Some(v)) if v == b"v"));
    assert!(matches!(read_step(Lookup::Tombstone, 0, 3), ReadStep::Done(None)));
    assert!(matches!(read_step(Lookup::Absent, 1, 3), ReadStep::Probe(1)));
    assert!(matches!(read_step(Lookup::Absent, 3, 3), ReadStep::Done(None)));
}

#[test]
fn empty_key_is_rejected() {
    assert!(matches!(check_key(b""), Err(EngineError::InvalidConfig(_))));
    assert!(check_key(b"k").is_ok());
    let memtable = MemTable::new_default();
    assert!(matches!(read_layers(&memtable, &Vec::new(), b""), Err(EngineError::InvalidConfig(_))));
}

#[test]
fn older_table_answers_when_newer_layers_do_not_know_the_key() {
    let mut memtable = MemTable::new_default();
    let mut tables = Vec::new();
    memtable.put(b"old", b"1").unwrap();
    flush(&mut memtable, &mut tables);
    memtable.put(b"new", b"2").unwrap();
    flush(&mut memtable, &mut tables);
    memtable.put(b"mem", b"3").unwrap();
    assert_eq!(read(&memtable, &tables, b"old"), Some(b"1".to_vec()));
    assert_eq!(read(&memtable, &tables, b"new"), Some(b"2".to_vec()));
    assert_eq!(read(&memtable, &tables, b"mem"), Some(b"3".to_vec()));
    assert_eq!(read(&memtable, &tables, b"none"), None);
}

#[test]
fn log_files_sort_by_timestamp() {
    assert_eq!(log_file_order(b"wal.log"), Some(0));
    assert_eq!(log_file_order(b"wal_1700000000123.log"), Some(1700000000123));
    assert_eq!(log_file_order(b"wal_abc.log"), Some(0));
    assert_eq!(log_file_order(b"wal_.log"), Some(0));
    assert_eq!(log_file_order(b"sstable_1.sst"), None);
    assert_eq!(log_file_order(b"wal_1.txt"), None);
    assert_eq!(
        log_file_order(b"wal_999999999999999999999999999999999999999999.log"),
        Some(0)
    );
}

#[test]
fn table_files_sort_by_timestamp() {
    assert_eq!(table_file_order(b"sstable_42.sst"), Some(42));
    assert_eq!(table_file_order(b"other.sst"), Some(0));
    assert_eq!(table_file_order(b"sstable_x.sst"), Some(0));
    assert_eq!(table_file_order(b".sst"), None);
    assert_eq!(table_file_order(b"wal.log"), None);
}

#[test]
fn engine_config_defaults() {
    let config = EngineConfig::default();
    assert_eq!(config.data_dir, "./data");
    assert_eq!(config.memtable_size, 64 * 1024 * 1024);
    assert_eq!(config.compression, CompressionType::Uncompressed);
    assert_eq!(config.max_levels, 7);
    let stats = EngineStats { memtable_size: 0, sstable_count: 0, data_dir: config.data_dir.clone() };
    assert_eq!(stats.sstable_count, 0);
}

#[test]
fn write_steps_follow_memtable_room() {
    let entry = |k: &[u8], v: &[u8], seq: u64| Entry::new(k.to_vec(), Some(v.to_vec()), 0, seq);
    let mut memtable = MemTable::new(60);
    assert_eq!(apply_logged(&mut memtable, entry(b"key1", b"value1", 1)).unwrap(), WriteStep::Applied);
    // 26 + 26 = 52 bytes: still below the bound.
    assert_eq!(apply_logged(&mut memtable, entry(b"key2", b"value2", 2)).unwrap(), WriteStep::Applied);
    // 52 + 26 = 78 bytes would exceed 60: flush first.
    assert_eq!(apply_logged(&mut memtable, entry(b"key3", b"value3", 3)).unwrap(), WriteStep::FlushThenRetry);
    assert_eq!(memtable.len(), 2);
    let mut fresh = MemTable::new(26);
    assert_eq!(apply_logged(&mut fresh, entry(b"key3", b"value3", 3)).unwrap(), WriteStep::AppliedThenFlush);
    let mut tiny = MemTable::new(10);
    assert!(matches!(
        apply_logged(&mut tiny, entry(b"key", b"value", 1)),
        Err(EngineError::MemTable(MemTableError::TableFull))
    ));
    assert!(matches!(
        apply_logged(&mut tiny, entry(b"", b"value", 1)),
        Err(EngineError::MemTable(MemTableError::InvalidKey(_)))
    ));
}
