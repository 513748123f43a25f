use rustedgedb::memtable::{Lookup, MemTable};
use rustedgedb::sstable::{
    read_index, read_table_entries, BloomFilter, CompressionType, SSTableError, SSTableFooter,
    SSTableHeader, TableImage,
};

fn create_test_memtable() -> MemTable {
    let mut memtable = MemTable::new(1024 * 1024);
    memtable.put(b"apple", b"apple_value").unwrap();
    memtable.put(b"banana", b"banana_value").unwrap();
    memtable.put(b"cherry", b"cherry_value").unwrap();
    memtable.delete(b"banana").unwrap();
    memtable
}

#[test]
fn test_sstable_creation_and_reading() {
    let memtable = create_test_memtable();
    let sstable = TableImage::from_memtable(&memtable, CompressionType::Uncompressed).unwrap();

    assert_eq!(sstable.entry_count(), 3);
    assert!(sstable.entry_count() != 0);

    assert_eq!(sstable.get(b"apple").unwrap(), Some(b"apple_value".to_vec()));
    assert_eq!(sstable.get(b"cherry").unwrap(), Some(b"cherry_value".to_vec()));
    assert_eq!(sstable.get(b"banana").unwrap(), None);

    assert_eq!(sstable.get(b"nonexistent").unwrap(), None);
}

#[test]
fn test_sstable_bloom_filter() {
    let memtable = create_test_memtable();
    let sstable = TableImage::from_memtable(&memtable, CompressionType::Uncompressed).unwrap();

    assert!(sstable.bloom_filter().might_contain(b"apple"));
    assert!(sstable.bloom_filter().might_contain(b"cherry"));

    let false_positives = (0..100u32)
        .filter(|i| {
            let key = format!("random_key_{}", i.wrapping_mul(2654435761));
            sstable.bloom_filter().might_contain(key.as_bytes())
        })
        .count();
    assert!(false_positives < 20);
}

#[test]
fn test_sstable_index() {
    let memtable = create_test_memtable();
    let sstable = TableImage::from_memtable(&memtable, CompressionType::Uncompressed).unwrap();

    assert_eq!(sstable.index().len(), 3);
    assert!(!sstable.index().is_empty());

    let keys: Vec<&[u8]> = sstable.index().entries.iter().map(|e| e.key.as_slice()).collect();
    assert_eq!(keys.len(), 3);
    assert!(keys.iter().any(|k| *k == b"apple"));
    assert!(keys.iter().any(|k| *k == b"banana"));
    assert!(keys.iter().any(|k| *k == b"cherry"));
}

#[test]
fn test_sstable_file_format() {
    let memtable = create_test_memtable();
    let sstable = TableImage::from_memtable(&memtable, CompressionType::Uncompressed).unwrap();

    assert!(sstable.bytes().len() > 100);

    let entries = read_table_entries(sstable.bytes()).unwrap();
    assert_eq!(entries.len(), 3);
}

#[test]
fn test_sstable_empty_memtable() {
    let empty_memtable = MemTable::new(1024);

    let result = TableImage::from_memtable(&empty_memtable, CompressionType::Uncompressed);
    assert!(result.is_err());
    assert!(matches!(result.err().unwrap(), SSTableError::InvalidFormat(_)));
}

#[test]
fn test_sstable_compression_types() {
    let memtable = create_test_memtable();

    let sstable1 = TableImage::from_memtable(&memtable, CompressionType::Uncompressed).unwrap();
    assert_eq!(sstable1.header().compression_type, CompressionType::Uncompressed as u8);

    assert_eq!(CompressionType::Uncompressed as u8, 0);
    assert_eq!(CompressionType::LZ4 as u8, 1);
    assert_eq!(CompressionType::Zstd as u8, 2);
}

#[test]
fn test_sstable_header_footer() {
    let header = SSTableHeader::new(100, 1024, 2048, 4096);
    assert_eq!(header.entry_count, 100);
    assert_eq!(header.index_offset, 1024);
    assert_eq!(header.bloom_filter_offset, 2048);
    assert_eq!(header.data_offset, 4096);

    let footer = SSTableFooter::new(12345, 1000, 500);
    assert_eq!(footer.checksum, 12345);
    assert_eq!(footer.data_size, 1000);
    assert_eq!(footer.index_size, 500);
}

#[test]
fn test_bloom_filter() {
    let mut bloom = BloomFilter::new(100, 3);

    bloom.add(b"key1");
    bloom.add(b"key2");

    assert!(bloom.might_contain(b"key1"));
    assert!(bloom.might_contain(b"key2"));

    assert!(!bloom.might_contain(b"random_key"));
}

#[test]
fn header_layout_is_bit_exact() {
    let header = SSTableHeader::new(3, 0x0102, 64, 0x0a0b0c0d);
    let mut out = Vec::new();
    header.write(&mut out);
    assert_eq!(out.len(), 64);
    assert_eq!(&out[0..8], b"RUSTEDGE");
    assert_eq!(&out[8..12], &[1, 0, 0, 0]);
    assert_eq!(&out[12..16], &[3, 0, 0, 0]);
    assert_eq!(&out[16..24], &[2, 1, 0, 0, 0, 0, 0, 0]);
    assert_eq!(&out[24..32], &[64, 0, 0, 0, 0, 0, 0, 0]);
    assert_eq!(&out[32..40], &[0x0d, 0x0c, 0x0b, 0x0a, 0, 0, 0, 0]);
    assert_eq!(out[40], 0);
    assert!(out[41..64].iter().all(|b| *b == 0));

    let back = SSTableHeader::read(&out).unwrap();
    assert_eq!(back.entry_count, 3);
    assert_eq!(back.index_offset, 0x0102);
    assert_eq!(back.data_offset, 0x0a0b0c0d);
}

#[test]
fn header_read_rejects_bad_input() {
    assert!(matches!(SSTableHeader::read(&[0u8; 10]), Err(SSTableError::InvalidFormat(_))));
    let mut out = Vec::new();
    SSTableHeader::new(1, 2, 3, 4).write(&mut out);
    let mut bad_magic = out.clone();
    bad_magic[0] = b'X';
    assert!(matches!(SSTableHeader::read(&bad_magic), Err(SSTableError::InvalidFormat(_))));
    let mut bad_version = out.clone();
    bad_version[8] = 2;
    assert!(matches!(SSTableHeader::read(&bad_version), Err(SSTableError::InvalidFormat(_))));
}

#[test]
fn footer_round_trip() {
    let footer = SSTableFooter::new(0, 77, 99);
    let mut out = Vec::new();
    footer.write(&mut out);
    assert_eq!(out.len(), 32);
    let back = SSTableFooter::read(&out).unwrap();
    assert_eq!(back.data_size, 77);
    assert_eq!(back.index_size, 99);
    assert!(matches!(SSTableFooter::read(&out[..31]), Err(SSTableError::InvalidFormat(_))));
}

#[test]
fn image_layout_offsets() {
    let memtable = create_test_memtable();
    let image = TableImage::from_memtable(&memtable, CompressionType::Zstd).unwrap();
    let header = SSTableHeader::read(image.bytes()).unwrap();
    assert_eq!(header.compression_type, 2);
    assert_eq!(header.bloom_filter_offset, 64);
    // Three entries: 30 bits of bloom filter, four bytes.
    assert_eq!(header.data_offset, 68);
    let bloom_bytes = image.bytes()[64..68].to_vec();
    assert_eq!(bloom_bytes, image.bloom_filter().bits().to_vec());
    let index = read_index(&image.bytes()[header.index_offset as usize..], 3).unwrap();
    assert_eq!(index.entries[0].key, b"apple");
    assert_eq!(index.entries[0].offset, 68);
    assert_eq!(index.entries[1].key, b"banana");
    assert_eq!(index.entries[1].offset, 68 + 24 + 5 + 11);
    assert_eq!(index.entries[1].value_size, 0);
    let rebuilt = BloomFilter::from_bits(3, bloom_bytes).unwrap();
    assert!(rebuilt.might_contain(b"banana"));
    assert!(matches!(BloomFilter::from_bits(4, vec![0u8; 4]), Err(SSTableError::InvalidFormat(_))));
}

#[test]
fn image_lookup_is_three_valued() {
    let memtable = create_test_memtable();
    let image = TableImage::from_memtable(&memtable, CompressionType::Uncompressed).unwrap();
    assert!(matches!(image.lookup(b"apple").unwrap(), Lookup::Value(v) if v == b"apple_value"));
    assert!(matches!(image.lookup(b"banana").unwrap(), Lookup::Tombstone));
    assert!(matches!(image.lookup(b"zzz").unwrap(), Lookup::Absent));
}

#[test]
fn read_index_rejects_bad_sections() {
    let memtable = create_test_memtable();
    let image = TableImage::from_memtable(&memtable, CompressionType::Uncompressed).unwrap();
    let header = image.header();
    let section = &image.bytes()[header.index_offset as usize..];
    assert!(matches!(read_index(section, 4), Err(SSTableError::InvalidFormat(_))));
    assert!(matches!(read_index(&section[..10], 3), Err(SSTableError::InvalidFormat(_))));
    // Two entries whose keys are stored in descending order.
    let mut out = Vec::new();
    out.extend_from_slice(&2u32.to_le_bytes());
    for key in [b"bb", b"aa"] {
        out.extend_from_slice(&2u32.to_le_bytes());
        out.extend_from_slice(key);
        out.extend_from_slice(&0u64.to_le_bytes());
        out.extend_from_slice(&2u32.to_le_bytes());
        out.extend_from_slice(&0u32.to_le_bytes());
    }
    assert!(matches!(read_index(&out, 2), Err(SSTableError::InvalidFormat(_))));
}

#[test]
fn read_entry_reports_index_mismatch() {
    let memtable = create_test_memtable();
    let image = TableImage::from_memtable(&memtable, CompressionType::Uncompressed).unwrap();
    let start = image.header().data_offset as usize;
    let record = &image.bytes()[start..start + 24 + 5 + 11];
    assert!(matches!(
        rustedgedb::sstable::read_entry_at(record, b"apple").unwrap(),
        Lookup::Value(v) if v == b"apple_value"
    ));
    assert!(matches!(
        rustedgedb::sstable::read_entry_at(record, b"apricot"),
        Err(SSTableError::InvalidIndex(_))
    ));
    assert!(matches!(
        rustedgedb::sstable::read_entry_at(&record[..20], b"apple"),
        Err(SSTableError::InvalidIndex(_))
    ));
}

#[test]
fn empty_bloom_filter_cannot_reject() {
    let bloom = BloomFilter::new(0, 3);
    assert!(bloom.might_contain(b"anything"));
}

#[test]
fn table_file_reads_back_its_entries() {
    let memtable = create_test_memtable();
    let image = TableImage::from_memtable(&memtable, CompressionType::Uncompressed).unwrap();
    let back = read_table_entries(image.bytes()).unwrap();
    let written = memtable.entries();
    assert_eq!(back.len(), written.len());
    for (b, o) in back.iter().zip(written.iter()) {
        assert_eq!(b.key, o.key);
        assert_eq!(b.value, o.value);
        assert_eq!(b.timestamp, o.timestamp);
        assert_eq!(b.sequence_number, o.sequence_number);
    }
    let mut truncated = image.bytes().to_vec();
    truncated.truncate(70);
    assert!(matches!(read_table_entries(&truncated), Err(SSTableError::InvalidFormat(_))));
}

/// Opens a table file held in memory the way a file is opened: from its
/// header, its bloom region and its index section only.
fn reopen(file: &[u8]) -> rustedgedb::sstable::TableReader {
    let header = SSTableHeader::read(&file[..64]).unwrap();
    let (bloom_start, bloom_len) = header.bloom_region();
    let (index_start, index_len) = header.index_region(file.len() as u64);
    let bloom = file[bloom_start as usize..(bloom_start + bloom_len) as usize].to_vec();
    let index = &file[index_start as usize..(index_start + index_len) as usize];
    rustedgedb::sstable::TableReader::open(&file[..64], bloom, index).unwrap()
}

fn reopened_lookup(file: &[u8], key: &[u8]) -> Lookup {
    let reader = reopen(file);
    match reader.locate(key) {
        None => Lookup::Absent,
        Some((offset, len)) => reader
            .answer(key, &file[offset as usize..(offset + len) as usize])
            .unwrap(),
    }
}

#[test]
fn reader_opens_written_table() {
    let memtable = create_test_memtable();
    let image = TableImage::from_memtable(&memtable, CompressionType::Uncompressed).unwrap();
    let file = image.bytes().to_vec();
    let reader = reopen(&file);
    assert_eq!(reader.entry_count(), 3);
    assert_eq!(reader.index().len(), 3);
    assert!(matches!(reopened_lookup(&file, b"apple"), Lookup::Value(v) if v == b"apple_value"));
    assert!(matches!(reopened_lookup(&file, b"cherry"), Lookup::Value(v) if v == b"cherry_value"));
    assert!(matches!(reopened_lookup(&file, b"banana"), Lookup::Tombstone));
    assert!(matches!(reopened_lookup(&file, b"nonexistent"), Lookup::Absent));
}

#[test]
fn reader_regions_of_written_table() {
    let mut memtable = MemTable::new(1024 * 1024);
    for i in 0..100 {
        memtable
            .put(format!("persistent:{}", i).as_bytes(), format!("value{}", i).as_bytes())
            .unwrap();
    }
    let image = TableImage::from_memtable(&memtable, CompressionType::Uncompressed).unwrap();
    let header = image.header();
    assert_eq!(header.bloom_region(), (64, 125));
    assert_eq!(header.data_offset, 64 + 125);
    let file = image.bytes().to_vec();
    assert!(matches!(reopened_lookup(&file, b"persistent:0"), Lookup::Value(v) if v == b"value0"));
    assert!(matches!(reopened_lookup(&file, b"persistent:99"), Lookup::Value(v) if v == b"value99"));
    let (_, reader) = image.into_reader();
    assert_eq!(reader.entry_count(), 100);
}

#[test]
fn reader_rejects_bad_regions() {
    let memtable = create_test_memtable();
    let image = TableImage::from_memtable(&memtable, CompressionType::Uncompressed).unwrap();
    let file = image.bytes();
    let header = image.header();
    let (index_start, _) = header.index_region(file.len() as u64);
    let index = &file[index_start as usize..file.len() - 32];
    // A bloom region that runs into the data section has the wrong size.
    let too_long = file[64..header.index_offset as usize].to_vec();
    assert!(matches!(
        rustedgedb::sstable::TableReader::open(&file[..64], too_long, index),
        Err(SSTableError::InvalidFormat(_))
    ));
    assert!(matches!(
        rustedgedb::sstable::TableReader::open(&file[..10], vec![0; 4], index),
        Err(SSTableError::InvalidFormat(_))
    ));
}
