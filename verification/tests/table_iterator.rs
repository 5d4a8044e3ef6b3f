use sstable::common::format::append_internal_key;
use sstable::common::DISABLE_GLOBAL_SEQUENCE_NUMBER;
use sstable::table::block_based::table_iterator::TableIterator;
use sstable::table::block_based::table_reader::TableReader;
use sstable::table::block_based::{
    BlockBasedTableFactory, BlockBasedTableOptions, FullFilterBlockFactory,
};
use sstable::table::TableError;

fn internal_key(user_key: &[u8], seq: u64, t: u8) -> Vec<u8> {
    let mut key = Vec::new();
    append_internal_key(&mut key, user_key, seq, t);
    key
}

fn sample_entries(n: u32) -> Vec<(Vec<u8>, Vec<u8>)> {
    (0..n)
        .map(|i| {
            (
                internal_key(format!("key{:06}", 2 * i).as_bytes(), 100, 1),
                format!("value-{}", i).into_bytes(),
            )
        })
        .collect()
}

fn factory(block_size: usize, interval: usize, bits: Option<usize>) -> BlockBasedTableFactory {
    BlockBasedTableFactory::new(BlockBasedTableOptions {
        block_size,
        block_restart_interval: interval,
        filter_factory: bits.map(FullFilterBlockFactory::new),
        block_filter_factory: None,
    })
    .unwrap()
}

fn build(entries: &[(Vec<u8>, Vec<u8>)], factory: &BlockBasedTableFactory) -> Vec<u8> {
    let mut builder = factory.new_builder();
    for (key, value) in entries {
        assert_eq!(builder.add(key, value), Ok(()));
    }
    builder.finish()
}

fn forward(reader: &TableReader) -> Vec<(Vec<u8>, Vec<u8>)> {
    let mut iterator = TableIterator::new(reader);
    assert!(!iterator.valid());
    iterator.seek_to_first().unwrap();
    let mut seen = Vec::new();
    while iterator.valid() {
        seen.push((iterator.key().to_vec(), iterator.value().to_vec()));
        iterator.next().unwrap();
    }
    seen
}

fn backward(reader: &TableReader) -> Vec<(Vec<u8>, Vec<u8>)> {
    let mut iterator = TableIterator::new(reader);
    iterator.seek_to_last().unwrap();
    let mut seen = Vec::new();
    while iterator.valid() {
        seen.push((iterator.key().to_vec(), iterator.value().to_vec()));
        iterator.prev().unwrap();
    }
    seen
}

#[test]
fn factory_refuses_options_without_restart_interval() {
    let options = BlockBasedTableOptions {
        block_size: 4096,
        block_restart_interval: 0,
        filter_factory: None,
        block_filter_factory: None,
    };
    assert!(!options.is_valid());
    assert!(BlockBasedTableFactory::new(options).is_none());
    let defaults = BlockBasedTableOptions::default();
    assert!(defaults.is_valid());
    assert_eq!(defaults.block_size, 4096);
    assert_eq!(defaults.block_restart_interval, 16);
    assert!(defaults.filter_factory.is_none());
    assert_eq!(FullFilterBlockFactory::default().bits_per_key, 10);
    assert_eq!(FullFilterBlockFactory::default().name(), "bloom.fnv1a");
}

#[test]
fn forward_iteration_gives_the_entries_added() {
    for (n, block_size, interval) in
        [(0u32, 64, 4), (1, 64, 4), (2, 1, 1), (100, 64, 2), (100, 4096, 16), (257, 200, 3)]
    {
        let entries = sample_entries(n);
        let f = factory(block_size, interval, Some(10));
        let reader = f.new_reader(build(&entries, &f), DISABLE_GLOBAL_SEQUENCE_NUMBER).unwrap();
        assert_eq!(forward(&reader), entries);
    }
}

#[test]
fn backward_iteration_gives_the_entries_reversed() {
    for (n, block_size, interval) in
        [(0u32, 64, 4), (1, 64, 4), (2, 1, 1), (100, 64, 2), (100, 4096, 16), (257, 200, 3)]
    {
        let entries = sample_entries(n);
        let f = factory(block_size, interval, None);
        let reader = f.new_reader(build(&entries, &f), DISABLE_GLOBAL_SEQUENCE_NUMBER).unwrap();
        let mut reversed = entries.clone();
        reversed.reverse();
        assert_eq!(backward(&reader), reversed);
    }
}

#[test]
fn next_and_prev_cross_block_boundaries() {
    let entries = sample_entries(10);
    let f = factory(1, 4, None);
    let reader = f.new_reader(build(&entries, &f), DISABLE_GLOBAL_SEQUENCE_NUMBER).unwrap();
    assert_eq!(reader.block_count(), 10);
    let mut iterator = TableIterator::new(&reader);
    iterator.seek_to_first().unwrap();
    iterator.next().unwrap();
    iterator.next().unwrap();
    assert_eq!(iterator.key(), &entries[2].0[..]);
    iterator.prev().unwrap();
    assert_eq!(iterator.key(), &entries[1].0[..]);
    assert_eq!(iterator.value(), &entries[1].1[..]);
    iterator.prev().unwrap();
    assert_eq!(iterator.key(), &entries[0].0[..]);
    iterator.prev().unwrap();
    assert!(!iterator.valid());
    iterator.seek_to_last().unwrap();
    assert_eq!(iterator.key(), &entries[9].0[..]);
    iterator.next().unwrap();
    assert!(!iterator.valid());
}

#[test]
fn seek_finds_the_first_entry_not_before_the_target() {
    let entries = sample_entries(100);
    for block_size in [1usize, 64, 300, 4096] {
        let f = factory(block_size, 4, Some(10));
        let reader = f.new_reader(build(&entries, &f), DISABLE_GLOBAL_SEQUENCE_NUMBER).unwrap();
        let mut iterator = TableIterator::new(&reader);
        for i in 0..100u32 {
            // a key of the table
            iterator.seek(&entries[i as usize].0).unwrap();
            assert!(iterator.valid());
            assert_eq!(iterator.key(), &entries[i as usize].0[..]);
            // a newer version of that key comes before it
            iterator.seek(&internal_key(format!("key{:06}", 2 * i).as_bytes(), 200, 1)).unwrap();
            assert_eq!(iterator.key(), &entries[i as usize].0[..]);
            // an older version comes behind it
            iterator.seek(&internal_key(format!("key{:06}", 2 * i).as_bytes(), 50, 1)).unwrap();
            if i < 99 {
                assert_eq!(iterator.key(), &entries[i as usize + 1].0[..]);
            } else {
                assert!(!iterator.valid());
            }
            // a user key between two keys of the table
            iterator.seek(&internal_key(format!("key{:06}", 2 * i + 1).as_bytes(), 100, 1)).unwrap();
            if i < 99 {
                assert_eq!(iterator.key(), &entries[i as usize + 1].0[..]);
            } else {
                assert!(!iterator.valid());
            }
        }
        iterator.seek(&internal_key(b"", 0, 0)).unwrap();
        assert_eq!(iterator.key(), &entries[0].0[..]);
        iterator.seek(&internal_key(b"zzz", 0, 0)).unwrap();
        assert!(!iterator.valid());
    }
}

#[test]
fn seek_in_an_empty_table_finds_nothing() {
    let f = factory(64, 4, Some(10));
    let reader = f.new_reader(build(&[], &f), DISABLE_GLOBAL_SEQUENCE_NUMBER).unwrap();
    let mut iterator = TableIterator::new(&reader);
    iterator.seek(&internal_key(b"a", 1, 1)).unwrap();
    assert!(!iterator.valid());
    iterator.seek_to_first().unwrap();
    assert!(!iterator.valid());
    iterator.seek_to_last().unwrap();
    assert!(!iterator.valid());
}

#[test]
fn two_iterators_over_one_table_do_not_disturb_each_other() {
    let entries = sample_entries(30);
    let f = factory(64, 4, None);
    let reader = f.new_reader(build(&entries, &f), DISABLE_GLOBAL_SEQUENCE_NUMBER).unwrap();
    let mut a = TableIterator::new(&reader);
    let mut b = TableIterator::new(&reader);
    a.seek_to_first().unwrap();
    b.seek_to_last().unwrap();
    for i in 0..30 {
        assert_eq!(a.key(), &entries[i].0[..]);
        assert_eq!(b.key(), &entries[29 - i].0[..]);
        a.next().unwrap();
        b.prev().unwrap();
    }
    assert!(!a.valid());
    assert!(!b.valid());
}

#[test]
fn get_finds_every_key_added() {
    let entries = sample_entries(200);
    for (block_size, bits) in [(1usize, Some(10)), (128, Some(10)), (128, None), (4096, Some(4))] {
        let f = factory(block_size, 4, bits);
        let reader = f.new_reader(build(&entries, &f), DISABLE_GLOBAL_SEQUENCE_NUMBER).unwrap();
        for (key, value) in &entries {
            let found = reader.get(key).unwrap().unwrap();
            assert_eq!(&found.key, key);
            assert_eq!(&found.value, value);
        }
        // a lookup at a newer sequence number finds the version that is there
        let found = reader.get(&internal_key(b"key000010", 5000, 0x11)).unwrap().unwrap();
        assert_eq!(found.key, internal_key(b"key000010", 100, 1));
        // a lookup at an older sequence number does not
        assert!(reader.get(&internal_key(b"key000010", 5, 0x11)).unwrap().is_none());
        // user keys that were not added
        assert!(reader.get(&internal_key(b"key000011", 5000, 0x11)).unwrap().is_none());
        assert!(reader.get(&internal_key(b"", 5000, 0x11)).unwrap().is_none());
        assert!(reader.get(&internal_key(b"zzz", 5000, 0x11)).unwrap().is_none());
    }
}

#[test]
fn iteration_over_a_corrupt_block_reports_it() {
    let entries = sample_entries(30);
    let f = factory(100, 4, None);
    let file = build(&entries, &f);
    let reader = f.new_reader(file.clone(), DISABLE_GLOBAL_SEQUENCE_NUMBER).unwrap();
    let second = reader.index()[1].handle;
    let first_len = reader.load_block(0).unwrap().len();
    let mut bad = file.clone();
    bad[second.offset as usize + 13] ^= 0xFF;
    let reader = f.new_reader(bad, DISABLE_GLOBAL_SEQUENCE_NUMBER).unwrap();
    let mut iterator = TableIterator::new(&reader);
    iterator.seek_to_first().unwrap();
    for _ in 1..first_len {
        iterator.next().unwrap();
    }
    assert!(iterator.valid());
    assert_eq!(iterator.next(), Err(TableError::Corruption));
    assert!(!iterator.valid());
    // the rest of the table is still read
    iterator.seek_to_last().unwrap();
    assert_eq!(iterator.key(), &entries[29].0[..]);
    assert_eq!(reader.get(&entries[0].0).unwrap().unwrap().value, entries[0].1);
    assert_eq!(reader.get(&entries[first_len].0).err(), Some(TableError::Corruption));
}

#[test]
fn global_seqno_shows_in_iteration_and_lookup() {
    let entries: Vec<(Vec<u8>, Vec<u8>)> = (0..40u32)
        .map(|i| (internal_key(format!("k{:04}", i).as_bytes(), 0, 1), vec![i as u8]))
        .collect();
    let f = factory(80, 4, Some(10));
    let reader = f.new_reader(build(&entries, &f), 77).unwrap();
    let stamped: Vec<(Vec<u8>, Vec<u8>)> = (0..40u32)
        .map(|i| (internal_key(format!("k{:04}", i).as_bytes(), 77, 1), vec![i as u8]))
        .collect();
    assert_eq!(forward(&reader), stamped);
    let found = reader.get(&internal_key(b"k0007", 100, 0x11)).unwrap().unwrap();
    assert_eq!(found.key, internal_key(b"k0007", 77, 1));
    assert!(reader.get(&internal_key(b"k0007", 50, 0x11)).unwrap().is_none());
}
