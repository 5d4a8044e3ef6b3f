use sstable::table::block_based::block::{decode_block, KeyValue, ENTRY_HEADER_SIZE};
use sstable::table::block_based::block_builder::BlockBuilder;
use sstable::table::TableError;
use sstable::util::crc32c::{crc32c, crc32c_byte, crc32c_update};
use sstable::util::{decode_fixed_uint32, put_fixed_uint32};

fn pairs_of(decoded: &[KeyValue]) -> Vec<(Vec<u8>, Vec<u8>)> {
    decoded.iter().map(|kv| (kv.key.clone(), kv.value.clone())).collect()
}

#[test]
fn fixed_uint32_is_little_endian() {
    let mut dst = vec![0xAA];
    put_fixed_uint32(&mut dst, 0x0102_0304);
    assert_eq!(dst, vec![0xAA, 0x04, 0x03, 0x02, 0x01]);
    assert_eq!(decode_fixed_uint32(&dst[1..]), 0x0102_0304);
    assert_eq!(decode_fixed_uint32(&[0xFF, 0xFF, 0xFF, 0xFF, 0x00]), u32::MAX);
    for value in [0u32, 1, 0xFF, 0x100, 0xDEAD_BEEF, u32::MAX] {
        let mut dst = Vec::new();
        put_fixed_uint32(&mut dst, value);
        assert_eq!(dst, value.to_le_bytes().to_vec());
        assert_eq!(decode_fixed_uint32(&dst), value);
    }
}

#[test]
fn crc32c_known_values() {
    assert_eq!(crc32c(b""), 0);
    assert_eq!(crc32c(b"123456789"), 0xE306_9283);
    assert_eq!(crc32c(&[0u8; 32]), 0x8A91_36AA);
    assert_eq!(crc32c(&[0xFFu8; 32]), 0x62A8_AB43);
    let ascending: Vec<u8> = (0..32u8).collect();
    assert_eq!(crc32c(&ascending), 0x46DD_794E);
}

#[test]
fn crc32c_in_parts_is_crc32c_of_the_whole() {
    let state = crc32c_update(0xFFFF_FFFF, b"12345678");
    assert_eq!(crc32c_byte(state, b'9') ^ 0xFFFF_FFFF, crc32c(b"123456789"));
    let state = crc32c_update(crc32c_update(0xFFFF_FFFF, b"1234"), b"56789");
    assert_eq!(state ^ 0xFFFF_FFFF, 0xE306_9283);
}

#[test]
fn empty_block_has_one_restart_point() {
    let mut builder = BlockBuilder::new(16);
    assert!(builder.is_empty());
    assert_eq!(builder.current_size(), 8);
    let block = builder.finish();
    assert_eq!(block, vec![0, 0, 0, 0, 1, 0, 0, 0]);
    assert_eq!(pairs_of(&decode_block(&block).unwrap()), vec![]);
}

#[test]
fn block_bytes_are_front_coded() {
    let mut builder = BlockBuilder::new(2);
    builder.add(b"apple", b"1").unwrap();
    assert!(!builder.is_empty());
    builder.add(b"apply", b"22").unwrap();
    builder.add(b"apricot", b"").unwrap();
    assert_eq!(builder.current_size(), 18 + 15 + 19 + 8 + 4);
    let block = builder.finish();
    let mut expected: Vec<u8> = Vec::new();
    // "apple": first entry, stored whole
    expected.extend_from_slice(&[0, 0, 0, 0, 5, 0, 0, 0, 1, 0, 0, 0]);
    expected.extend_from_slice(b"apple1");
    // "apply": shares "appl"
    expected.extend_from_slice(&[4, 0, 0, 0, 1, 0, 0, 0, 2, 0, 0, 0]);
    expected.extend_from_slice(b"y22");
    // "apricot": restart point after two entries, stored whole
    expected.extend_from_slice(&[0, 0, 0, 0, 7, 0, 0, 0, 0, 0, 0, 0]);
    expected.extend_from_slice(b"apricot");
    // restart points 0 and 33, and their number
    expected.extend_from_slice(&[0, 0, 0, 0, 33, 0, 0, 0, 2, 0, 0, 0]);
    assert_eq!(block, expected);
    assert!(builder.is_empty());
}

#[test]
fn block_round_trip() {
    for interval in [1usize, 2, 3, 16] {
        let entries: Vec<(Vec<u8>, Vec<u8>)> = (0..50u32)
            .map(|i| (format!("key{:05}", i * 7).into_bytes(), vec![i as u8; (i % 5) as usize]))
            .collect();
        let mut builder = BlockBuilder::new(interval);
        for (key, value) in &entries {
            assert_eq!(builder.add(key, value), Ok(()));
        }
        let size = builder.current_size();
        let block = builder.finish();
        assert_eq!(block.len(), size);
        assert_eq!(pairs_of(&decode_block(&block).unwrap()), entries);
        let restarts = decode_fixed_uint32(&block[block.len() - 4..]) as usize;
        assert_eq!(restarts, (entries.len() - 1) / interval + 1);
    }
}

#[test]
fn block_builder_is_reusable_after_finish() {
    let mut builder = BlockBuilder::new(4);
    builder.add(b"a", b"1").unwrap();
    let first = builder.finish();
    builder.add(b"ab", b"2").unwrap();
    let second = builder.finish();
    assert_eq!(pairs_of(&decode_block(&first).unwrap()), vec![(b"a".to_vec(), b"1".to_vec())]);
    assert_eq!(pairs_of(&decode_block(&second).unwrap()), vec![(b"ab".to_vec(), b"2".to_vec())]);
    // the first entry of a block shares nothing with what the builder held before
    assert_eq!(&second[0..4], &[0, 0, 0, 0]);
}

#[test]
fn block_takes_keys_in_any_order() {
    let mut builder = BlockBuilder::new(16);
    builder.add(b"b", b"1").unwrap();
    builder.add(b"a", b"2").unwrap();
    builder.add(b"a", b"3").unwrap();
    let block = builder.finish();
    assert_eq!(
        pairs_of(&decode_block(&block).unwrap()),
        vec![
            (b"b".to_vec(), b"1".to_vec()),
            (b"a".to_vec(), b"2".to_vec()),
            (b"a".to_vec(), b"3".to_vec())
        ]
    );
}

#[test]
fn corrupt_blocks_are_reported() {
    assert_eq!(ENTRY_HEADER_SIZE, 12);
    // shorter than the number of restart points
    assert_eq!(decode_block(&[]).unwrap_err(), TableError::Corruption);
    assert_eq!(decode_block(&[1, 0, 0]).unwrap_err(), TableError::Corruption);
    // more restart points than the block has room for
    assert_eq!(decode_block(&[0, 0, 0, 0, 2, 0, 0, 0]).unwrap_err(), TableError::Corruption);
    assert_eq!(
        decode_block(&[0xFF, 0xFF, 0xFF, 0xFF]).unwrap_err(),
        TableError::Corruption
    );
    let mut builder = BlockBuilder::new(16);
    builder.add(b"apple", b"1").unwrap();
    builder.add(b"apply", b"22").unwrap();
    let block = builder.finish();
    assert!(decode_block(&block).is_ok());
    // an entry cut short
    let mut cut = block[..20].to_vec();
    cut.extend_from_slice(&[0, 0, 0, 0, 1, 0, 0, 0]);
    assert_eq!(decode_block(&cut).unwrap_err(), TableError::Corruption);
    // a header cut short
    let mut cut = block[..24].to_vec();
    cut.extend_from_slice(&[0, 0, 0, 0, 1, 0, 0, 0]);
    assert_eq!(decode_block(&cut).unwrap_err(), TableError::Corruption);
    // a key that shares more than the key before it has
    let mut bad = block.clone();
    bad[18] = 6;
    assert_eq!(decode_block(&bad).unwrap_err(), TableError::Corruption);
    // the first key shares something with nothing
    let mut bad = block.clone();
    bad[0] = 1;
    assert_eq!(decode_block(&bad).unwrap_err(), TableError::Corruption);
    // a value that runs into the restart points
    let mut bad = block.clone();
    bad[26] = 3;
    assert_eq!(decode_block(&bad).unwrap_err(), TableError::Corruption);
}

#[test]
fn block_without_restart_points_decodes() {
    let block = [0u8, 0, 0, 0, 1, 0, 0, 0, 1, 0, 0, 0, b'k', b'v', 0, 0, 0, 0];
    assert_eq!(
        pairs_of(&decode_block(&block).unwrap()),
        vec![(b"k".to_vec(), b"v".to_vec())]
    );
}
