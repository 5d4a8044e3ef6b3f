use sstable::common::format::{
    append_internal_key, extract_internal_key_footer, extract_value_type, GlobalSeqnoAppliedKey,
};
use sstable::common::{DISABLE_GLOBAL_SEQUENCE_NUMBER, MAX_SEQUENCE_NUMBER};
use sstable::util::extract_user_key;

fn internal_key(user_key: &[u8], seq: u64, t: u8) -> Vec<u8> {
    let mut key = Vec::new();
    append_internal_key(&mut key, user_key, seq, t);
    key
}

#[test]
fn new_holder_is_empty() {
    let holder = GlobalSeqnoAppliedKey::new(7, false);
    assert_eq!(holder.get_key(), b"");
    let holder = GlobalSeqnoAppliedKey::new(DISABLE_GLOBAL_SEQUENCE_NUMBER, true);
    assert_eq!(holder.get_key(), b"");
    assert_eq!(holder.get_user_key(), b"");
}

#[test]
fn set_key_rewrites_the_sequence_number() {
    let mut holder = GlobalSeqnoAppliedKey::new(77, false);
    holder.set_key(&internal_key(b"apple", 12345, 1));
    assert_eq!(
        holder.get_key(),
        [b'a', b'p', b'p', b'l', b'e', 0x01, 77, 0, 0, 0, 0, 0, 0]
    );
    assert_eq!(holder.get_key(), internal_key(b"apple", 77, 1));
    assert_eq!(holder.get_user_key(), b"apple");
}

#[test]
fn set_key_keeps_value_type_and_sets_global_seqno() {
    let seqnos = [0u64, 1, 42, 1 << 40, MAX_SEQUENCE_NUMBER];
    let stored_seqnos = [0u64, 9, 1 << 55, MAX_SEQUENCE_NUMBER];
    for global_seqno in seqnos {
        for stored in stored_seqnos {
            for t in [0x0u8, 0x1, 0x2, 0xF, 0x11, 0x7F] {
                let key = internal_key(b"user-key", stored, t);
                let mut holder = GlobalSeqnoAppliedKey::new(global_seqno, false);
                holder.set_key(&key);
                let result = holder.get_key();
                assert_eq!(extract_value_type(result), extract_value_type(&key));
                assert_eq!(extract_value_type(result), t);
                assert_eq!(extract_internal_key_footer(result) >> 8, global_seqno);
                assert_eq!(extract_user_key(result), b"user-key");
                assert_eq!(result.len(), key.len());
            }
        }
    }
}

#[test]
fn set_key_with_disabled_seqno_copies_the_key() {
    let mut holder = GlobalSeqnoAppliedKey::new(DISABLE_GLOBAL_SEQUENCE_NUMBER, false);
    let key = internal_key(b"apple", 12345, 1);
    holder.set_key(&key);
    assert_eq!(holder.get_key(), key);
    // no footer is looked for: keys shorter than a footer pass through too
    holder.set_key(b"abc");
    assert_eq!(holder.get_key(), b"abc");
    holder.set_key(b"");
    assert_eq!(holder.get_key(), b"");
    let long: Vec<u8> = (0..=255u8).collect();
    holder.set_key(&long);
    assert_eq!(holder.get_key(), long);
}

#[test]
fn set_key_replaces_the_key_held_before() {
    let mut holder = GlobalSeqnoAppliedKey::new(5, false);
    holder.set_key(&internal_key(b"first-key", 1, 1));
    holder.set_key(&internal_key(b"b", 2, 0));
    assert_eq!(holder.get_key(), internal_key(b"b", 5, 0));
    assert_eq!(holder.get_user_key(), b"b");
}

#[test]
fn set_key_on_a_bare_footer() {
    let mut holder = GlobalSeqnoAppliedKey::new(3, false);
    holder.set_key(&internal_key(b"", 900, 2));
    assert_eq!(holder.get_key(), [0x02, 3, 0, 0, 0, 0, 0, 0]);
    assert_eq!(holder.get_user_key(), b"");
}

#[test]
fn set_key_drops_bits_of_the_seqno_above_the_56th() {
    let mut holder = GlobalSeqnoAppliedKey::new((1u64 << 56) + 9, false);
    holder.set_key(&internal_key(b"k", 1, 1));
    assert_eq!(holder.get_key(), internal_key(b"k", 9, 1));
}

#[test]
fn get_user_key_of_a_user_key_holder_is_the_whole_key() {
    let mut holder = GlobalSeqnoAppliedKey::new(DISABLE_GLOBAL_SEQUENCE_NUMBER, true);
    holder.set_key(b"plain-user-key");
    assert_eq!(holder.get_key(), b"plain-user-key");
    assert_eq!(holder.get_user_key(), b"plain-user-key");
}

#[test]
fn set_user_key_marks_the_holder() {
    let mut holder = GlobalSeqnoAppliedKey::new(DISABLE_GLOBAL_SEQUENCE_NUMBER, false);
    holder.set_key(&internal_key(b"apple", 1, 1));
    assert_eq!(holder.get_user_key(), b"apple");
    holder.set_user_key(b"banana-and-more");
    assert_eq!(holder.get_key(), b"banana-and-more");
    assert_eq!(holder.get_user_key(), b"banana-and-more");
}

#[test]
fn set_user_key_rewrites_like_set_key() {
    let mut holder = GlobalSeqnoAppliedKey::new(8, false);
    holder.set_user_key(&internal_key(b"pear", 4000, 2));
    assert_eq!(holder.get_key(), internal_key(b"pear", 8, 2));
    assert_eq!(holder.get_user_key(), internal_key(b"pear", 8, 2));
}

#[test]
fn trim_append_keeps_the_shared_prefix() {
    let mut holder = GlobalSeqnoAppliedKey::new(DISABLE_GLOBAL_SEQUENCE_NUMBER, true);
    holder.set_key(b"apple");
    holder.trim_append(b"..ication..", 2, 3, 7);
    assert_eq!(holder.get_key(), b"appication");
    holder.trim_append(b"xyz", 0, 0, 3);
    assert_eq!(holder.get_key(), b"xyz");
    holder.trim_append(b"xyz", 3, 2, 0);
    assert_eq!(holder.get_key(), b"xy");
    holder.trim_append(b"", 0, 0, 0);
    assert_eq!(holder.get_key(), b"");
}

#[test]
fn trim_append_fills_a_short_key_with_zeros() {
    let mut holder = GlobalSeqnoAppliedKey::new(DISABLE_GLOBAL_SEQUENCE_NUMBER, true);
    holder.set_key(b"ab");
    holder.trim_append(b"cd", 0, 4, 2);
    assert_eq!(holder.get_key(), [b'a', b'b', 0, 0, b'c', b'd']);
}

#[test]
fn trim_append_does_not_stamp_the_seqno() {
    let mut holder = GlobalSeqnoAppliedKey::new(9, false);
    let key = internal_key(b"k", 1234, 1);
    holder.trim_append(&key, 0, 0, key.len());
    assert_eq!(holder.get_key(), key);
    assert_eq!(holder.get_user_key(), b"k");
}

fn shared_len(a: &[u8], b: &[u8]) -> usize {
    a.iter().zip(b.iter()).take_while(|(x, y)| x == y).count()
}

#[test]
fn front_coded_keys_replay_through_trim_append() {
    let keys: Vec<Vec<u8>> = vec![
        internal_key(b"apple", 9, 1),
        internal_key(b"apple", 3, 0),
        internal_key(b"application", 7, 1),
        internal_key(b"apply", 7, 1),
        internal_key(b"banana", 1, 2),
        internal_key(b"banana", 1, 2),
        internal_key(b"", 1, 1),
        internal_key(b"zebra", MAX_SEQUENCE_NUMBER, 0x11),
    ];
    // front-code each key against the key before it
    let mut data: Vec<u8> = vec![0xAB, 0xCD];
    let mut entries: Vec<(usize, usize, usize)> = Vec::new();
    let mut prev: Vec<u8> = Vec::new();
    for key in &keys {
        let shared = shared_len(&prev, key);
        entries.push((data.len(), shared, key.len() - shared));
        data.extend_from_slice(&key[shared..]);
        data.push(0xEE);
        prev = key.clone();
    }
    let mut holder = GlobalSeqnoAppliedKey::new(DISABLE_GLOBAL_SEQUENCE_NUMBER, false);
    for (key, (offset, shared, non_shared)) in keys.iter().zip(entries) {
        holder.trim_append(&data, offset, shared, non_shared);
        assert_eq!(holder.get_key(), &key[..]);
    }
}

#[test]
fn front_coded_keys_with_restart_points_replay() {
    let keys: Vec<&[u8]> = vec![b"aaa", b"aab", b"aabcd", b"ab", b"abc", b"b"];
    let mut data: Vec<u8> = Vec::new();
    let mut entries: Vec<(usize, usize, usize)> = Vec::new();
    let mut prev: &[u8] = b"";
    for (i, key) in keys.iter().enumerate() {
        // every second key is stored whole
        let shared = if i % 2 == 0 { 0 } else { shared_len(prev, key) };
        entries.push((data.len(), shared, key.len() - shared));
        data.extend_from_slice(&key[shared..]);
        prev = key;
    }
    let mut holder = GlobalSeqnoAppliedKey::new(DISABLE_GLOBAL_SEQUENCE_NUMBER, true);
    holder.set_key(b"left over from another block");
    for (key, (offset, shared, non_shared)) in keys.iter().zip(entries) {
        holder.trim_append(&data, offset, shared, non_shared);
        assert_eq!(holder.get_key(), *key);
        assert_eq!(holder.get_user_key(), *key);
    }
}
