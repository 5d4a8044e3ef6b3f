use sstable::common::format::append_internal_key;
use sstable::common::DISABLE_GLOBAL_SEQUENCE_NUMBER;
use sstable::table::block_based::block::KeyValue;
use sstable::table::block_based::full_filter_block_builder::FullFilterBlockFactory;
use sstable::table::block_based::options::BlockBasedTableOptions;
use sstable::table::block_based::table_builder::TableBuilder;
use sstable::table::block_based::table_reader::TableReader;
use sstable::table::TableError;

fn internal_key(user_key: &[u8], seq: u64, t: u8) -> Vec<u8> {
    let mut key = Vec::new();
    append_internal_key(&mut key, user_key, seq, t);
    key
}

fn sample_entries(n: u32) -> Vec<(Vec<u8>, Vec<u8>)> {
    (0..n)
        .map(|i| {
            (
                internal_key(format!("key{:06}", i).as_bytes(), 1000 - (i as u64 % 7), 1),
                format!("value-{}", i).into_bytes(),
            )
        })
        .collect()
}

fn options(block_size: usize, interval: usize, bits: Option<usize>) -> BlockBasedTableOptions {
    BlockBasedTableOptions {
        block_size,
        block_restart_interval: interval,
        filter_factory: bits.map(FullFilterBlockFactory::new),
        block_filter_factory: None,
    }
}

fn build(entries: &[(Vec<u8>, Vec<u8>)], opts: BlockBasedTableOptions) -> Vec<u8> {
    let mut builder = TableBuilder::new(opts);
    for (key, value) in entries {
        assert_eq!(builder.add(key, value), Ok(()));
    }
    builder.finish()
}

fn pairs_of(decoded: &[KeyValue]) -> Vec<(Vec<u8>, Vec<u8>)> {
    decoded.iter().map(|kv| (kv.key.clone(), kv.value.clone())).collect()
}

fn read_all(reader: &TableReader) -> Vec<(Vec<u8>, Vec<u8>)> {
    let mut all = Vec::new();
    for j in 0..reader.block_count() {
        all.extend(pairs_of(&reader.load_block(j).unwrap()));
    }
    all
}

#[test]
fn table_blocks_hold_the_entries_added() {
    for (block_size, interval, bits) in
        [(64, 1, None), (256, 4, Some(10)), (4096, 16, Some(10)), (1, 16, Some(3))]
    {
        let entries = sample_entries(300);
        let file = build(&entries, options(block_size, interval, bits));
        let reader = TableReader::open(file, DISABLE_GLOBAL_SEQUENCE_NUMBER).unwrap();
        assert_eq!(read_all(&reader), entries);
        assert!(reader.block_count() >= 1);
        if block_size == 1 {
            assert_eq!(reader.block_count(), entries.len());
        }
    }
}

#[test]
fn empty_table_opens() {
    let file = build(&[], options(4096, 16, Some(10)));
    let reader = TableReader::open(file, DISABLE_GLOBAL_SEQUENCE_NUMBER).unwrap();
    assert_eq!(reader.block_count(), 0);
    let file = build(&[], BlockBasedTableOptions::default());
    let reader = TableReader::open(file, DISABLE_GLOBAL_SEQUENCE_NUMBER).unwrap();
    assert_eq!(reader.block_count(), 0);
    assert!(reader.key_may_match(b"anything"));
}

#[test]
fn builder_rejects_keys_out_of_order() {
    let mut builder = TableBuilder::new(options(64, 4, Some(10)));
    assert_eq!(builder.add(&internal_key(b"b", 5, 1), b"1"), Ok(()));
    // a smaller user key
    assert_eq!(builder.add(&internal_key(b"a", 9, 1), b"2"), Err(TableError::OrderingViolation));
    // the same key again
    assert_eq!(builder.add(&internal_key(b"b", 5, 1), b"3"), Err(TableError::OrderingViolation));
    // a newer version of the key added last comes before it
    assert_eq!(builder.add(&internal_key(b"b", 6, 1), b"4"), Err(TableError::OrderingViolation));
    // an older version comes after it
    assert_eq!(builder.add(&internal_key(b"b", 4, 1), b"5"), Ok(()));
    assert_eq!(builder.add(&internal_key(b"c", 1, 1), b"6"), Ok(()));
    let file = builder.finish();
    let reader = TableReader::open(file, DISABLE_GLOBAL_SEQUENCE_NUMBER).unwrap();
    assert_eq!(
        read_all(&reader),
        vec![
            (internal_key(b"b", 5, 1), b"1".to_vec()),
            (internal_key(b"b", 4, 1), b"5".to_vec()),
            (internal_key(b"c", 1, 1), b"6".to_vec()),
        ]
    );
}

#[test]
fn rejected_key_leaves_the_table_as_it_would_be_without_it() {
    let entries = sample_entries(40);
    let expected = build(&entries, options(128, 4, Some(10)));
    let mut builder = TableBuilder::new(options(128, 4, Some(10)));
    for (i, (key, value)) in entries.iter().enumerate() {
        assert_eq!(builder.add(key, value), Ok(()));
        if i > 0 {
            let (earlier, _) = &entries[i - 1];
            assert_eq!(builder.add(earlier, b"late"), Err(TableError::OrderingViolation));
            assert_eq!(builder.add(key, b"again"), Err(TableError::OrderingViolation));
        }
        assert_eq!(builder.add(b"short", b"x"), Err(TableError::KeyTooShort));
    }
    assert_eq!(builder.finish(), expected);
}

#[test]
fn builder_rejects_keys_without_footer() {
    let mut builder = TableBuilder::new(BlockBasedTableOptions::default());
    assert_eq!(builder.add(b"", b"v"), Err(TableError::KeyTooShort));
    assert_eq!(builder.add(b"1234567", b"v"), Err(TableError::KeyTooShort));
    assert_eq!(builder.add(b"12345678", b"v"), Ok(()));
}

#[test]
fn filter_passes_every_key_added() {
    for bits in [0usize, 1, 5, 10, 20, 200] {
        let entries = sample_entries(500);
        let file = build(&entries, options(512, 16, Some(bits)));
        let reader = TableReader::open(file, DISABLE_GLOBAL_SEQUENCE_NUMBER).unwrap();
        for (key, _) in &entries {
            assert!(reader.key_may_match(&key[..key.len() - 8]), "bits {bits}");
        }
    }
}

#[test]
fn filter_excludes_most_keys_not_added() {
    let entries = sample_entries(500);
    let file = build(&entries, options(512, 16, Some(10)));
    let reader = TableReader::open(file, DISABLE_GLOBAL_SEQUENCE_NUMBER).unwrap();
    let mut passed = 0;
    for i in 0..1000 {
        if reader.key_may_match(format!("other{:06}", i).as_bytes()) {
            passed += 1;
        }
    }
    assert!(passed < 100, "{passed} of 1000 keys not added pass the filter");
}

#[test]
fn table_without_filter_excludes_nothing() {
    let entries = sample_entries(20);
    let file = build(&entries, options(512, 16, None));
    let reader = TableReader::open(file, DISABLE_GLOBAL_SEQUENCE_NUMBER).unwrap();
    assert!(reader.key_may_match(b"key000001"));
    assert!(reader.key_may_match(b"never added"));
}

#[test]
fn global_seqno_is_stamped_on_keys_read() {
    let entries: Vec<(Vec<u8>, Vec<u8>)> = (0..50u32)
        .map(|i| (internal_key(format!("k{:04}", i).as_bytes(), 0, 1), vec![i as u8]))
        .collect();
    let file = build(&entries, options(100, 4, Some(10)));
    let reader = TableReader::open(file, 4242).unwrap();
    assert_eq!(reader.global_seqno(), 4242);
    let stamped: Vec<(Vec<u8>, Vec<u8>)> = (0..50u32)
        .map(|i| (internal_key(format!("k{:04}", i).as_bytes(), 4242, 1), vec![i as u8]))
        .collect();
    assert_eq!(read_all(&reader), stamped);
    for entry in reader.index() {
        assert_eq!(&entry.separator[entry.separator.len() - 8..], &internal_key(b"", 4242, 1)[..]);
    }
}

#[test]
fn corrupt_tables_are_reported() {
    let entries = sample_entries(100);
    let file = build(&entries, options(256, 4, Some(10)));
    assert!(TableReader::open(file.clone(), DISABLE_GLOBAL_SEQUENCE_NUMBER).is_ok());
    // too short for a footer
    assert_eq!(
        TableReader::open(file[..39].to_vec(), DISABLE_GLOBAL_SEQUENCE_NUMBER).err(),
        Some(TableError::Corruption)
    );
    assert_eq!(
        TableReader::open(Vec::new(), DISABLE_GLOBAL_SEQUENCE_NUMBER).err(),
        Some(TableError::Corruption)
    );
    // the magic number is wrong
    let mut bad = file.clone();
    let last = bad.len() - 1;
    bad[last] ^= 1;
    assert_eq!(
        TableReader::open(bad, DISABLE_GLOBAL_SEQUENCE_NUMBER).err(),
        Some(TableError::Corruption)
    );
    // the file is cut short but ends with a footer
    let mut cut = file[..file.len() / 2].to_vec();
    cut.extend_from_slice(&file[file.len() - 40..]);
    assert_eq!(
        TableReader::open(cut, DISABLE_GLOBAL_SEQUENCE_NUMBER).err(),
        Some(TableError::Corruption)
    );
    // a byte of the index block is flipped: the index block is the last before the footer
    let mut bad = file.clone();
    let at = bad.len() - 40 - 5 - 3;
    bad[at] ^= 0x40;
    assert_eq!(
        TableReader::open(bad, DISABLE_GLOBAL_SEQUENCE_NUMBER).err(),
        Some(TableError::Corruption)
    );
    // a byte of the first data block is flipped: the table opens, the block does not load
    let mut bad = file.clone();
    bad[20] ^= 0x01;
    let reader = TableReader::open(bad, DISABLE_GLOBAL_SEQUENCE_NUMBER).unwrap();
    assert_eq!(reader.load_block(0).err(), Some(TableError::Corruption));
    assert!(reader.load_block(1).is_ok());
}

#[test]
fn compressed_blocks_are_not_supported() {
    let entries = sample_entries(10);
    let file = build(&entries, options(4096, 4, None));
    let reader = TableReader::open(file.clone(), DISABLE_GLOBAL_SEQUENCE_NUMBER).unwrap();
    assert_eq!(reader.block_count(), 1);
    let handle = reader.index()[0].handle;
    let end = (handle.offset + handle.size) as usize;
    // mark the block as compressed and store the checksum that goes with the mark
    let mut bad = file.clone();
    bad[end] = 1;
    let mut covered = bad[handle.offset as usize..end].to_vec();
    covered.push(1);
    let checksum = sstable::util::crc32c::crc32c(&covered);
    bad[end + 1..end + 5].copy_from_slice(&checksum.to_le_bytes());
    let reader = TableReader::open(bad, DISABLE_GLOBAL_SEQUENCE_NUMBER).unwrap();
    assert_eq!(reader.load_block(0).err(), Some(TableError::UnsupportedCompression));
}
