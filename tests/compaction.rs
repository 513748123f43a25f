use rustedgedb::compaction::{CompactionEngine, CompactionEntry, CompactionError};
use rustedgedb::memtable::{Entry, Lookup, MemTable};
use rustedgedb::sstable::{read_table_entries, CompressionType, SSTableHeader, TableImage, TableReader};

fn table_entries(memtable: &MemTable) -> Vec<Entry> {
    let image = TableImage::from_memtable(memtable, CompressionType::Uncompressed).unwrap();
    read_table_entries(image.bytes()).unwrap()
}

fn create_test_memtable_with_data() -> MemTable {
    let mut memtable = MemTable::new(1024 * 1024);
    for i in 0..100 {
        let key = format!("key_{:03}", i).into_bytes();
        let value = format!("value_{}", i).into_bytes();
        memtable.put(&key, &value).unwrap();
    }
    memtable.delete(b"key_010").unwrap();
    memtable.delete(b"key_025").unwrap();
    memtable.delete(b"key_050").unwrap();
    memtable.delete(b"key_075").unwrap();
    memtable
}

#[test]
fn test_compaction_basic_functionality() {
    let memtable1 = create_test_memtable_with_data();
    let memtable2 = create_test_memtable_with_data();

    let engine = CompactionEngine::new("compacted.sst", CompressionType::Uncompressed);
    let result = engine.compact(&vec![table_entries(&memtable1), table_entries(&memtable2)]);
    assert!(result.is_ok());
    let compacted_sstable = result.ok().unwrap();

    assert!(compacted_sstable.entry_count() != 0);

    let total_input_entries = memtable1.entries().len() + memtable2.entries().len();
    assert!((compacted_sstable.entry_count() as usize) < total_input_entries);
}

#[test]
fn test_compaction_removes_tombstones() {
    let mut memtable = MemTable::new(1024 * 1024);
    memtable.put(b"key1", b"value1").unwrap();
    memtable.put(b"key2", b"value2").unwrap();
    memtable.delete(b"key1").unwrap();

    let engine = CompactionEngine::new("compacted_no_tombstone.sst", CompressionType::Uncompressed);
    let result = engine.compact(&vec![table_entries(&memtable)]);
    assert!(result.is_ok());

    let compacted_sstable = result.ok().unwrap();

    assert_eq!(compacted_sstable.entry_count(), 1);

    assert_eq!(compacted_sstable.get(b"key1").unwrap(), None);

    assert_eq!(compacted_sstable.get(b"key2").unwrap(), Some(b"value2".to_vec()));
}

#[test]
fn test_compaction_guarantees_sorted_order() {
    let mut memtable1 = MemTable::new(1024 * 1024);
    memtable1.put(b"zebra", b"value_z").unwrap();
    memtable1.put(b"apple", b"value_a").unwrap();

    let mut memtable2 = MemTable::new(1024 * 1024);
    memtable2.put(b"banana", b"value_b").unwrap();
    memtable2.put(b"cherry", b"value_c").unwrap();

    let engine = CompactionEngine::new("sorted.sst", CompressionType::Uncompressed);
    let result = engine.compact(&vec![table_entries(&memtable1), table_entries(&memtable2)]);
    assert!(result.is_ok());

    let compacted_sstable = result.ok().unwrap();

    assert_eq!(compacted_sstable.entry_count(), 4);

    assert!(compacted_sstable.get(b"apple").is_ok());
    assert!(compacted_sstable.get(b"banana").is_ok());
    assert!(compacted_sstable.get(b"cherry").is_ok());
    assert!(compacted_sstable.get(b"zebra").is_ok());

    let keys: Vec<Vec<u8>> = read_table_entries(compacted_sstable.bytes())
        .unwrap()
        .into_iter()
        .map(|e| e.key)
        .collect();
    assert_eq!(
        keys,
        vec![b"apple".to_vec(), b"banana".to_vec(), b"cherry".to_vec(), b"zebra".to_vec()]
    );
}

#[test]
fn test_compaction_keeps_most_recent_value() {
    let mut memtable1 = MemTable::new(1024 * 1024);
    memtable1.put(b"key1", b"old_value").unwrap();

    let mut memtable2 = MemTable::new(1024 * 1024);
    memtable2.put(b"key1", b"new_value").unwrap();

    let engine = CompactionEngine::new("merged.sst", CompressionType::Uncompressed);
    let result = engine.compact(&vec![table_entries(&memtable1), table_entries(&memtable2)]);
    assert!(result.is_ok());

    let compacted_sstable = result.ok().unwrap();

    assert_eq!(compacted_sstable.entry_count(), 1);

    assert_eq!(compacted_sstable.get(b"key1").unwrap(), Some(b"new_value".to_vec()));
}

#[test]
fn test_compaction_empty_input() {
    let engine = CompactionEngine::new("empty.sst", CompressionType::Uncompressed);

    let result = engine.compact(&vec![]);
    assert!(result.is_err());
    assert!(matches!(result.err().unwrap(), CompactionError::InvalidInput(_)));
}

#[test]
fn test_compaction_creates_valid_sstable() {
    let mut memtable = MemTable::new(1024 * 1024);
    memtable.put(b"test_key", b"test_value").unwrap();

    let engine = CompactionEngine::new("output.sst", CompressionType::Uncompressed);
    let result = engine.compact(&vec![table_entries(&memtable)]);
    assert!(result.is_ok());
    let compacted_sstable = result.ok().unwrap();

    assert!(compacted_sstable.bytes().len() > 100);

    assert_eq!(compacted_sstable.entry_count(), 1);
    assert_eq!(compacted_sstable.get(b"test_key").unwrap(), Some(b"test_value".to_vec()));
}

#[test]
fn higher_sequence_wins_over_later_table() {
    let newer = vec![Entry::new(b"k".to_vec(), Some(b"newer".to_vec()), 0, 9)];
    let older = vec![Entry::new(b"k".to_vec(), Some(b"older".to_vec()), 0, 3)];
    let engine = CompactionEngine::new("out.sst", CompressionType::Uncompressed);
    let merged = engine.merge_tables(&vec![newer, older]).unwrap();
    assert_eq!(merged.len(), 1);
    assert_eq!(merged[0].value, Some(b"newer".to_vec()));
    assert_eq!(merged[0].sequence_number, 9);
}

#[test]
fn newer_tombstone_removes_key() {
    let first = vec![Entry::new(b"k".to_vec(), Some(b"v".to_vec()), 0, 1)];
    let second = vec![Entry::new(b"k".to_vec(), None, 0, 2)];
    let engine = CompactionEngine::new("out.sst", CompressionType::Uncompressed);
    assert!(engine.merge_tables(&vec![first, second]).unwrap().is_empty());
    let only_tombstone = vec![vec![Entry::new(b"k".to_vec(), None, 0, 2)]];
    assert!(matches!(engine.compact(&only_tombstone), Err(CompactionError::InvalidInput(_))));
}

#[test]
fn remove_tombstones_and_duplicates_orders_by_key() {
    let engine = CompactionEngine::new("out.sst", CompressionType::Uncompressed);
    let input = vec![
        CompactionEntry::new(b"b".to_vec(), Some(b"b1".to_vec()), 0, 1, 0),
        CompactionEntry::new(b"a".to_vec(), None, 0, 5, 0),
        CompactionEntry::new(b"a".to_vec(), Some(b"a1".to_vec()), 0, 4, 1),
        CompactionEntry::new(b"b".to_vec(), Some(b"b2".to_vec()), 0, 1, 1),
        CompactionEntry::new(b"c".to_vec(), Some(b"c1".to_vec()), 0, 2, 0),
    ];
    assert!(input[1].is_deletion());
    let out = engine.remove_tombstones_and_duplicates(input).unwrap();
    assert_eq!(out.len(), 2);
    assert_eq!(out[0].key, b"b");
    assert_eq!(out[0].value, Some(b"b2".to_vec()));
    assert_eq!(out[0].source_sstable, 1);
    assert_eq!(out[1].key, b"c");
}

#[test]
fn compacting_a_compacted_table_changes_nothing() {
    let memtable = create_test_memtable_with_data();
    let engine = CompactionEngine::new("once.sst", CompressionType::Uncompressed);
    let once = engine.compact(&vec![table_entries(&memtable)]).unwrap();
    let once_entries = read_table_entries(once.bytes()).unwrap();
    let twice = engine.compact(&vec![read_table_entries(once.bytes()).unwrap()]).unwrap();
    assert_eq!(once.bytes(), twice.bytes());
    assert_eq!(once_entries.len(), 96);
    assert!(once_entries.iter().all(|e| !e.is_deletion()));
}

#[test]
fn compaction_engine_settings() {
    let engine = CompactionEngine::new("dir/out.sst", CompressionType::LZ4);
    assert_eq!(engine.output_path(), "dir/out.sst");
    assert_eq!(engine.compression(), CompressionType::LZ4);
    let mut memtable = MemTable::new(1024);
    memtable.put(b"k", b"v").unwrap();
    let image = engine.compact(&vec![table_entries(&memtable)]).unwrap();
    assert_eq!(image.header().compression_type, 1);
}

fn reopen_lookup(file: &[u8], key: &[u8]) -> (u32, Lookup) {
    let header = SSTableHeader::read(&file[..64]).unwrap();
    let (bs, bl) = header.bloom_region();
    let (is, il) = header.index_region(file.len() as u64);
    let reader = TableReader::open(
        &file[..64],
        file[bs as usize..(bs + bl) as usize].to_vec(),
        &file[is as usize..(is + il) as usize],
    )
    .unwrap();
    let found = match reader.locate(key) {
        None => Lookup::Absent,
        Some((o, l)) => reader.answer(key, &file[o as usize..(o + l) as usize]).unwrap(),
    };
    (reader.entry_count(), found)
}

#[test]
fn compacted_table_reopens() {
    let mut memtable = MemTable::new(1024 * 1024);
    memtable.put(b"k1", b"v1").unwrap();
    memtable.put(b"k2", b"v2").unwrap();
    memtable.delete(b"k1").unwrap();
    let engine = CompactionEngine::new("out.sst", CompressionType::Uncompressed);
    let out = engine.compact(&vec![table_entries(&memtable)]).unwrap();
    let (count, k1) = reopen_lookup(out.bytes(), b"k1");
    assert_eq!(count, 1);
    assert!(matches!(k1, Lookup::Absent));
    let (_, k2) = reopen_lookup(out.bytes(), b"k2");
    assert!(matches!(k2, Lookup::Value(v) if v == b"v2"));

    let mut old = MemTable::new(1024);
    old.put(b"k1", b"old").unwrap();
    let mut new = MemTable::new(1024);
    new.put(b"k1", b"new").unwrap();
    let merged = engine.compact(&vec![table_entries(&old), table_entries(&new)]).unwrap();
    let (count, k1) = reopen_lookup(merged.bytes(), b"k1");
    assert_eq!(count, 1);
    assert!(matches!(k1, Lookup::Value(v) if v == b"new"));
}
