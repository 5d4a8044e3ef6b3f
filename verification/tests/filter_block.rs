use sstable::common::format::append_internal_key;
use sstable::common::DISABLE_GLOBAL_SEQUENCE_NUMBER;
use sstable::table::block_based::filter_block_builder::FilterBlockBuilder;
use sstable::table::block_based::filter_reader::{block_may_contain, FilterReader};
use sstable::table::block_based::full_filter_block_builder::{
    FullFilterBlockBuilder, BLOOM_FILTER_POLICY_NAME,
};
use sstable::table::block_based::meta_block::{filter_block_name, full_filter_block_name};
use sstable::table::block_based::{
    BlockBasedTableFactory, BlockBasedTableOptions, FilterBlockFactory, FullFilterBlockFactory,
};
use sstable::util::bloom::{
    bloom_hash, create_filter, filter_bytes, hash_may_match, key_may_match, probe_count,
};

fn internal_key(user_key: &[u8], seq: u64, t: u8) -> Vec<u8> {
    let mut key = Vec::new();
    append_internal_key(&mut key, user_key, seq, t);
    key
}

#[test]
fn bloom_hash_is_fnv1a() {
    assert_eq!(bloom_hash(b""), 0x811C_9DC5);
    assert_eq!(bloom_hash(b"a"), 0xE40C_292C);
    assert_eq!(bloom_hash(b"foobar"), 0xBF9C_F968);
}

#[test]
fn probe_count_follows_bits_per_key() {
    assert_eq!(probe_count(0), 1);
    assert_eq!(probe_count(1), 1);
    assert_eq!(probe_count(2), 1);
    assert_eq!(probe_count(3), 2);
    assert_eq!(probe_count(10), 6);
    assert_eq!(probe_count(43), 29);
    assert_eq!(probe_count(44), 30);
    assert_eq!(probe_count(100), 30);
    assert_eq!(probe_count(usize::MAX), 30);
}

#[test]
fn filter_bytes_follow_the_number_of_keys() {
    assert_eq!(filter_bytes(0, 10), 8);
    assert_eq!(filter_bytes(6, 10), 8);
    assert_eq!(filter_bytes(7, 10), 9);
    assert_eq!(filter_bytes(100, 10), 125);
    assert_eq!(filter_bytes(100, 0), 8);
    assert_eq!(filter_bytes(usize::MAX, 10), 0x1000_0000);
    assert_eq!(filter_bytes(1 << 40, 1 << 40), 0x1000_0000);
}

#[test]
fn bloom_filter_of_one_key_exact_bytes() {
    // one key, hash 1: the rotated hash is 0x8000, and 6 probes go to the bits
    // 1, 0x8001, 0x10001, ... of 64 bits
    let filter = create_filter(&[1], 10);
    assert_eq!(filter.len(), 9);
    assert_eq!(filter[8], 6);
    let mut expected = [0u8; 8];
    let mut probe: u32 = 1;
    for _ in 0..6 {
        let bit = (probe % 64) as usize;
        expected[bit / 8] |= 1 << (bit % 8);
        probe = probe.wrapping_add(0x8000);
    }
    assert_eq!(&filter[..8], &expected);
    assert!(hash_may_match(&filter, 1));
    assert!(!hash_may_match(&filter, 2));
}

#[test]
fn bloom_filter_without_keys_excludes_everything() {
    let filter = create_filter(&[], 10);
    assert_eq!(filter, vec![0, 0, 0, 0, 0, 0, 0, 0, 6]);
    assert!(!key_may_match(&filter, b"a"));
    assert!(!key_may_match(&filter, b""));
}

#[test]
fn malformed_bloom_filters() {
    // too short to be a filter: holds no key
    assert!(!key_may_match(&[], b"a"));
    assert!(!key_may_match(&[6], b"a"));
    // a number of probes that is not known: excludes nothing
    assert!(key_may_match(&[0, 31], b"a"));
    assert!(key_may_match(&[0, 0xFF], b"a"));
    // no probes: excludes nothing
    assert!(key_may_match(&[0, 0], b"a"));
}

#[test]
fn full_filter_passes_the_keys_added() {
    let mut builder = FullFilterBlockBuilder::new(10);
    let keys: Vec<Vec<u8>> = (0..1000u32).map(|i| format!("key-{i}").into_bytes()).collect();
    for key in &keys {
        builder.add_key(key);
    }
    let filter = builder.finish();
    for key in &keys {
        assert!(key_may_match(&filter, key));
    }
    let passed = (0..1000u32)
        .filter(|i| key_may_match(&filter, format!("other-{i}").as_bytes()))
        .count();
    assert!(passed < 50, "{passed} of 1000 keys not added pass the filter");
}

#[test]
fn filter_block_exact_layout() {
    let mut builder = FilterBlockBuilder::new(10);
    builder.add_key(b"a");
    builder.add_key(b"b");
    builder.finish_block(0);
    builder.finish_block(100);
    builder.add_key(b"c");
    builder.finish_block(0x1_0000_0007);
    let block = builder.finish();
    let first = create_filter(&[bloom_hash(b"a"), bloom_hash(b"b")], 10);
    let second = create_filter(&[], 10);
    let third = create_filter(&[bloom_hash(b"c")], 10);
    let mut expected = Vec::new();
    expected.extend_from_slice(&first);
    expected.extend_from_slice(&second);
    expected.extend_from_slice(&third);
    for (offset, start, len) in [(0u64, 0u32, 9u32), (100, 9, 9), (0x1_0000_0007, 18, 9)] {
        expected.extend_from_slice(&offset.to_le_bytes());
        expected.extend_from_slice(&start.to_le_bytes());
        expected.extend_from_slice(&len.to_le_bytes());
    }
    expected.extend_from_slice(&27u32.to_le_bytes());
    expected.extend_from_slice(&3u32.to_le_bytes());
    assert_eq!(block, expected);
}

#[test]
fn filter_block_answers_for_each_data_block() {
    let mut builder = FilterBlockBuilder::new(10);
    builder.add_key(b"apple");
    builder.add_key(b"banana");
    builder.finish_block(0);
    builder.add_key(b"cherry");
    builder.finish_block(4096);
    let block = builder.finish();
    assert!(block_may_contain(&block, 0, b"apple"));
    assert!(block_may_contain(&block, 0, b"banana"));
    assert!(block_may_contain(&block, 4096, b"cherry"));
    assert!(!block_may_contain(&block, 0, b"cherry"));
    assert!(!block_may_contain(&block, 4096, b"apple"));
    // a data block without a segment is not excluded from anything
    assert!(block_may_contain(&block, 8192, b"apple"));
    assert!(block_may_contain(&block, 1, b"nothing"));
    let reader = FilterReader::PerBlock { data: block };
    assert!(reader.key_may_match(0, b"apple"));
    assert!(!reader.key_may_match(4096, b"apple"));
    let full = FilterReader::Full { data: create_filter(&[bloom_hash(b"apple")], 10) };
    assert!(full.key_may_match(0, b"apple"));
    assert!(full.key_may_match(4096, b"apple"));
    assert!(!full.key_may_match(0, b"cherry"));
}

#[test]
fn empty_filter_block() {
    let block = FilterBlockBuilder::new(10).finish();
    assert_eq!(block, vec![0, 0, 0, 0, 0, 0, 0, 0]);
    assert!(block_may_contain(&block, 0, b"a"));
}

#[test]
fn filter_block_ignores_keys_of_a_block_not_finished() {
    let mut builder = FilterBlockBuilder::new(10);
    builder.add_key(b"a");
    assert_eq!(builder.finish(), vec![0, 0, 0, 0, 0, 0, 0, 0]);
}

#[test]
fn malformed_filter_blocks_exclude_nothing() {
    let mut builder = FilterBlockBuilder::new(10);
    builder.add_key(b"apple");
    builder.finish_block(7);
    let block = builder.finish();
    assert!(!block_may_contain(&block, 7, b"cherry"));
    // too short for a tail
    assert!(block_may_contain(&block[..7], 7, b"cherry"));
    assert!(block_may_contain(&[], 7, b"cherry"));
    // the directory does not fill the block
    let mut bad = block.clone();
    bad.push(0);
    assert!(block_may_contain(&bad, 7, b"cherry"));
    let mut bad = block.clone();
    let n = bad.len();
    bad[n - 4] = 2;
    assert!(block_may_contain(&bad, 7, b"cherry"));
    let mut bad = block.clone();
    bad[n - 8] = 200;
    assert!(block_may_contain(&bad, 7, b"cherry"));
    // the segment runs into the directory
    let mut bad = block.clone();
    bad[n - 8 - 4] = 10;
    assert!(block_may_contain(&bad, 7, b"cherry"));
}

#[test]
fn filter_block_names() {
    assert_eq!(BLOOM_FILTER_POLICY_NAME, "bloom.fnv1a");
    assert_eq!(filter_block_name(BLOOM_FILTER_POLICY_NAME), b"filter.bloom.fnv1a");
    assert_eq!(full_filter_block_name(BLOOM_FILTER_POLICY_NAME), b"fullfilter.bloom.fnv1a");
    assert_eq!(filter_block_name(""), b"filter.");
    assert_eq!(FilterBlockFactory::default().bits_per_key, 10);
    assert_eq!(FilterBlockFactory::new(7).name(), "bloom.fnv1a");
}

fn table_with(filter: Option<usize>, block_filter: Option<usize>) -> (Vec<(Vec<u8>, Vec<u8>)>, Vec<u8>) {
    let factory = BlockBasedTableFactory::new(BlockBasedTableOptions {
        block_size: 200,
        block_restart_interval: 4,
        filter_factory: filter.map(FullFilterBlockFactory::new),
        block_filter_factory: block_filter.map(FilterBlockFactory::new),
    })
    .unwrap();
    let entries: Vec<(Vec<u8>, Vec<u8>)> = (0..300u32)
        .map(|i| (internal_key(format!("key{:05}", 3 * i).as_bytes(), 9, 1), vec![i as u8; 3]))
        .collect();
    let mut builder = factory.new_builder();
    for (key, value) in &entries {
        builder.add(key, value).unwrap();
    }
    (entries, builder.finish())
}

#[test]
fn lookups_with_per_block_filters_find_every_key_added() {
    for (filter, block_filter) in [(None, Some(10)), (Some(10), Some(10)), (None, Some(1))] {
        let (entries, file) = table_with(filter, block_filter);
        let reader =
            sstable::table::block_based::table_reader::TableReader::open(file, DISABLE_GLOBAL_SEQUENCE_NUMBER)
                .unwrap();
        assert!(reader.block_count() > 10);
        for (key, value) in &entries {
            let found = reader.get(key).unwrap().unwrap();
            assert_eq!(&found.key, key);
            assert_eq!(&found.value, value);
        }
        for i in 0..300u32 {
            let absent = internal_key(format!("key{:05}", 3 * i + 1).as_bytes(), 9, 1);
            assert!(reader.get(&absent).unwrap().is_none());
        }
    }
}

#[test]
fn per_block_filters_spare_the_loading_of_blocks() {
    let (entries, file) = table_with(None, Some(10));
    let reader =
        sstable::table::block_based::table_reader::TableReader::open(file.clone(), DISABLE_GLOBAL_SEQUENCE_NUMBER)
            .unwrap();
    // only a whole-table filter excludes a key from the table as a whole
    assert!(reader.key_may_match(b"never added"));
    // corrupt every data block: a lookup that the filter turns down does not notice
    let mut bad = file.clone();
    for entry in reader.index() {
        bad[entry.handle.offset as usize + 1] ^= 0xFF;
    }
    let reader =
        sstable::table::block_based::table_reader::TableReader::open(bad, DISABLE_GLOBAL_SEQUENCE_NUMBER)
            .unwrap();
    let mut turned_down = 0;
    for i in 0..300u32 {
        let absent = internal_key(format!("key{:05}", 3 * i + 1).as_bytes(), 9, 1);
        match reader.get(&absent) {
            Ok(None) => turned_down += 1,
            Ok(Some(_)) => panic!("found a key that was not added"),
            Err(_) => {}
        }
    }
    assert!(turned_down > 250, "the filter turned down {turned_down} of 300 lookups");
    assert!(reader.get(&entries[0].0).is_err());
}
