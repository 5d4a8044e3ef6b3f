use std::cmp::Ordering;

use sstable::common::format::{append_internal_key, Slice};
use sstable::common::key_order::{compare_bytes, compare_internal_key};
use sstable::common::MAX_SEQUENCE_NUMBER;
use sstable::table::block_based::{
    BLOCK_TRAILER_SIZE, FILTER_BLOCK_PREFIX, FULL_FILTER_BLOCK_PREFIX,
};

fn internal_key(user_key: &[u8], seq: u64, t: u8) -> Vec<u8> {
    let mut key = Vec::new();
    append_internal_key(&mut key, user_key, seq, t);
    key
}

#[test]
fn compare_bytes_is_lexicographic() {
    assert_eq!(compare_bytes(b"", b""), Ordering::Equal);
    assert_eq!(compare_bytes(b"", b"a"), Ordering::Less);
    assert_eq!(compare_bytes(b"a", b""), Ordering::Greater);
    assert_eq!(compare_bytes(b"abc", b"abd"), Ordering::Less);
    assert_eq!(compare_bytes(b"abd", b"abc"), Ordering::Greater);
    assert_eq!(compare_bytes(b"abc", b"abc"), Ordering::Equal);
    assert_eq!(compare_bytes(b"abc", b"abcd"), Ordering::Less);
    assert_eq!(compare_bytes(b"abcd", b"abc"), Ordering::Greater);
    assert_eq!(compare_bytes(b"b", b"abcdef"), Ordering::Greater);
    assert_eq!(compare_bytes(&[0x7F], &[0x80]), Ordering::Less);
    assert_eq!(compare_bytes(&[0xFF], &[0x00, 0x01]), Ordering::Greater);
}

#[test]
fn compare_bytes_agrees_with_slice_order() {
    let samples: [&[u8]; 8] = [b"", b"a", b"ab", b"abc", b"abd", b"b", &[0, 0], &[0xFF]];
    for a in samples {
        for b in samples {
            assert_eq!(compare_bytes(a, b), a.cmp(b));
        }
    }
}

#[test]
fn internal_keys_order_by_user_key_first() {
    let seqs = [0u64, 1, 500, MAX_SEQUENCE_NUMBER];
    for seq_a in seqs {
        for seq_b in seqs {
            for t_a in [0u8, 1, 0x11] {
                for t_b in [0u8, 1, 0x11] {
                    let a = internal_key(b"apple", seq_a, t_a);
                    let b = internal_key(b"banana", seq_b, t_b);
                    assert_eq!(compare_internal_key(&a, &b), Ordering::Less);
                    assert_eq!(compare_internal_key(&b, &a), Ordering::Greater);
                    let c = internal_key(b"app", seq_a, t_a);
                    assert_eq!(compare_internal_key(&c, &a), Ordering::Less);
                }
            }
        }
    }
}

#[test]
fn internal_keys_of_one_user_key_order_newest_first() {
    let newer = internal_key(b"apple", 10, 0);
    let older = internal_key(b"apple", 9, 1);
    assert_eq!(compare_internal_key(&newer, &older), Ordering::Less);
    assert_eq!(compare_internal_key(&older, &newer), Ordering::Greater);
    let newest = internal_key(b"apple", MAX_SEQUENCE_NUMBER, 0);
    assert_eq!(compare_internal_key(&newest, &newer), Ordering::Less);
    let oldest = internal_key(b"apple", 0, 0x7F);
    assert_eq!(compare_internal_key(&older, &oldest), Ordering::Less);
}

#[test]
fn internal_keys_of_one_version_order_by_type_descending() {
    let value = internal_key(b"apple", 10, 1);
    let deletion = internal_key(b"apple", 10, 0);
    assert_eq!(compare_internal_key(&value, &deletion), Ordering::Less);
    assert_eq!(compare_internal_key(&deletion, &value), Ordering::Greater);
}

#[test]
fn equal_internal_keys_compare_equal() {
    let a = internal_key(b"apple", 10, 1);
    let b = internal_key(b"apple", 10, 1);
    assert_eq!(compare_internal_key(&a, &b), Ordering::Equal);
    let bare = internal_key(b"", 0, 0);
    assert_eq!(compare_internal_key(&bare, &bare), Ordering::Equal);
}

#[test]
fn internal_key_order_differs_from_plain_byte_order() {
    // as plain bytes the older key is the smaller one
    let newer = internal_key(b"k", 2, 1);
    let older = internal_key(b"k", 1, 1);
    assert_eq!(compare_bytes(&newer, &older), Ordering::Greater);
    assert_eq!(compare_internal_key(&newer, &older), Ordering::Less);
}

#[test]
fn slice_len_and_bytes() {
    let buffer = b"0123456789";
    let slice = Slice { offset: 2, limit: 6 };
    assert_eq!(slice.len(), 4);
    assert_eq!(slice.bytes(buffer), b"2345");
    let whole = Slice { offset: 0, limit: 10 };
    assert_eq!(whole.len(), 10);
    assert_eq!(whole.bytes(buffer), buffer);
    let empty = Slice { offset: 10, limit: 10 };
    assert_eq!(empty.len(), 0);
    assert_eq!(empty.bytes(buffer), b"");
    let inverted = Slice { offset: 6, limit: 2 };
    assert_eq!(inverted.len(), 0);
}

#[test]
fn slice_default_is_empty() {
    let slice = Slice::default();
    assert_eq!(slice.offset, 0);
    assert_eq!(slice.limit, 0);
    assert_eq!(slice.len(), 0);
    assert_eq!(slice.bytes(b""), b"");
    let copy = slice.clone();
    assert_eq!(copy.offset, 0);
    assert_eq!(copy.limit, 0);
}

#[test]
fn block_based_layout_constants() {
    assert_eq!(BLOCK_TRAILER_SIZE, 5);
    assert_eq!(FILTER_BLOCK_PREFIX, "filter.");
    assert_eq!(FULL_FILTER_BLOCK_PREFIX, "fullfilter.");
}

#[test]
fn slices_compare_by_the_bytes_they_denote() {
    let left = b"xxapplexx";
    let right = b"applesauce";
    let apple = Slice { offset: 2, limit: 7 };
    let also_apple = Slice { offset: 0, limit: 5 };
    let applesauce = Slice { offset: 0, limit: 10 };
    let sauce = Slice { offset: 5, limit: 10 };
    let empty = Slice::default();
    assert_eq!(apple.compare(left, &also_apple, right), Ordering::Equal);
    assert_eq!(apple.compare(left, &applesauce, right), Ordering::Less);
    assert_eq!(applesauce.compare(right, &apple, left), Ordering::Greater);
    assert_eq!(apple.compare(left, &sauce, right), Ordering::Less);
    assert_eq!(sauce.compare(right, &apple, left), Ordering::Greater);
    assert_eq!(empty.compare(left, &empty, right), Ordering::Equal);
    assert_eq!(empty.compare(left, &apple, left), Ordering::Less);
}
