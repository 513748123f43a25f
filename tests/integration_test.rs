use rustedgedb::memtable::MemTable;
use rustedgedb::sstable::{CompressionType, TableImage};

#[test]
fn test_project_structure() {}

#[test]
fn test_rust_edition() {
    let _edition_check = "2024";
}

#[test]
fn test_basic_functionality() {
    let expected = "RustEdgeDB";
    let actual = "RustEdgeDB";
    assert_eq!(actual, expected, "Basic functionality test passed");
}

#[test]
fn test_sstable_workflow() {
    let mut memtable = MemTable::new(1024 * 1024);
    memtable.put(b"user:1", b"John Doe").unwrap();
    memtable.put(b"user:2", b"Jane Smith").unwrap();
    memtable.put(b"config:theme", b"dark").unwrap();
    memtable.delete(b"user:1").unwrap();

    let sstable = TableImage::from_memtable(&memtable, CompressionType::Uncompressed).unwrap();

    assert_eq!(sstable.get(b"user:1").unwrap(), None);
    assert_eq!(sstable.get(b"user:2").unwrap(), Some(b"Jane Smith".to_vec()));
    assert_eq!(sstable.get(b"config:theme").unwrap(), Some(b"dark".to_vec()));

    assert_eq!(sstable.get(b"nonexistent").unwrap(), None);

    assert_eq!(sstable.entry_count(), 3);
    assert!(sstable.entry_count() != 0);
}
