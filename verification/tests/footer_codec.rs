use sstable::common::format::{
    append_internal_key, extract_internal_key_footer, extract_value_type, is_extended_value_type,
    is_value_type, pack_sequence_and_type, ValueType, VALUE_TYPE_FOR_SEEK,
};
use sstable::common::{DISABLE_GLOBAL_SEQUENCE_NUMBER, MAX_SEQUENCE_NUMBER};
use sstable::util::{
    common_prefix_len, decode_fixed_uint64, extract_user_key, put_fixed_uint64, FOOTER_SIZE,
};

const ALL_TYPES: [(ValueType, u8); 12] = [
    (ValueType::TypeDeletion, 0x0),
    (ValueType::TypeValue, 0x1),
    (ValueType::TypeMerge, 0x2),
    (ValueType::TypeLogData, 0x3),
    (ValueType::TypeColumnFamilyDeletion, 0x4),
    (ValueType::TypeColumnFamilyValue, 0x5),
    (ValueType::TypeColumnFamilyMerge, 0x6),
    (ValueType::TypeColumnFamilyRangeDeletion, 0xE),
    (ValueType::TypeRangeDeletion, 0xF),
    (ValueType::TypeColumnFamilyBlobIndex, 0x10),
    (ValueType::TypeBlobIndex, 0x11),
    (ValueType::MaxValue, 0x7F),
];

#[test]
fn constants_have_their_values() {
    assert_eq!(FOOTER_SIZE, 8);
    assert_eq!(MAX_SEQUENCE_NUMBER, (1u64 << 56) - 1);
    assert_eq!(DISABLE_GLOBAL_SEQUENCE_NUMBER, u64::MAX);
    assert!(DISABLE_GLOBAL_SEQUENCE_NUMBER > MAX_SEQUENCE_NUMBER);
    assert_eq!(VALUE_TYPE_FOR_SEEK, 0x11);
    assert_eq!(VALUE_TYPE_FOR_SEEK, ValueType::TypeBlobIndex.to_u8());
}

#[test]
fn value_type_tags() {
    for (value_type, tag) in ALL_TYPES {
        assert_eq!(value_type.to_u8(), tag);
        assert_eq!(ValueType::from_u8(tag), Some(value_type));
    }
}

#[test]
fn value_type_from_unknown_tag_is_none() {
    for tag in 0..=255u8 {
        let known = ALL_TYPES.iter().any(|(_, t)| *t == tag);
        assert_eq!(ValueType::from_u8(tag).is_some(), known, "tag {tag}");
    }
    assert_eq!(ValueType::from_u8(0x7), None);
    assert_eq!(ValueType::from_u8(0xD), None);
    assert_eq!(ValueType::from_u8(0x12), None);
    assert_eq!(ValueType::from_u8(0x7E), None);
    assert_eq!(ValueType::from_u8(0x80), None);
    assert_eq!(ValueType::from_u8(0xFF), None);
}

#[test]
fn is_value_type_for_every_tag() {
    for tag in 0..=255u8 {
        let expected = tag == 0x0 || tag == 0x1 || tag == 0x2 || tag == 0x11;
        assert_eq!(is_value_type(tag), expected, "tag {tag}");
    }
}

#[test]
fn is_extended_value_type_for_every_tag() {
    for tag in 0..=255u8 {
        let expected = tag == 0x0 || tag == 0x1 || tag == 0x2 || tag == 0x11 || tag == 0xF;
        assert_eq!(is_extended_value_type(tag), expected, "tag {tag}");
    }
    assert!(is_extended_value_type(ValueType::TypeRangeDeletion.to_u8()));
    assert!(!is_value_type(ValueType::TypeRangeDeletion.to_u8()));
    assert!(!is_extended_value_type(ValueType::TypeColumnFamilyRangeDeletion.to_u8()));
    assert!(!is_extended_value_type(ValueType::MaxValue.to_u8()));
}

#[test]
fn pack_sequence_and_type_exact_values() {
    assert_eq!(pack_sequence_and_type(0, 0), 0);
    assert_eq!(pack_sequence_and_type(0, 0x7F), 0x7F);
    assert_eq!(pack_sequence_and_type(1, 1), 0x101);
    assert_eq!(pack_sequence_and_type(0x1234, 0x11), 0x12_3411);
    assert_eq!(pack_sequence_and_type(MAX_SEQUENCE_NUMBER, 0x7F), 0xffff_ffff_ffff_ff7f);
    assert_eq!(pack_sequence_and_type(100, 1), (100u64 << 8) | 1);
}

#[test]
fn pack_sequence_and_type_drops_bits_above_the_56th() {
    assert_eq!(pack_sequence_and_type(1u64 << 56, 2), 2);
    assert_eq!(pack_sequence_and_type((1u64 << 56) + 5, 2), 0x502);
    assert_eq!(pack_sequence_and_type(u64::MAX, 0), 0xffff_ffff_ffff_ff00);
}

#[test]
fn fixed_uint64_is_little_endian() {
    let mut dst = vec![0xAA];
    put_fixed_uint64(&mut dst, 0x0102_0304_0506_0708);
    assert_eq!(dst, vec![0xAA, 0x08, 0x07, 0x06, 0x05, 0x04, 0x03, 0x02, 0x01]);
    assert_eq!(decode_fixed_uint64(&dst[1..]), 0x0102_0304_0506_0708);
    assert_eq!(decode_fixed_uint64(&[1, 0, 0, 0, 0, 0, 0, 0]), 1);
    assert_eq!(decode_fixed_uint64(&[0, 0, 0, 0, 0, 0, 0, 0x80]), 1u64 << 63);
    assert_eq!(decode_fixed_uint64(&[0xFF; 8]), u64::MAX);
}

#[test]
fn decode_fixed_uint64_reads_the_first_eight_bytes() {
    let bytes = [0x11, 0x22, 0x33, 0x44, 0x55, 0x66, 0x77, 0x88, 0x99, 0xAA];
    assert_eq!(decode_fixed_uint64(&bytes), 0x8877_6655_4433_2211);
}

#[test]
fn fixed_uint64_round_trip_matches_std() {
    let values = [0u64, 1, 0xFF, 0x100, 0xDEAD_BEEF, 1 << 56, u64::MAX - 1, u64::MAX];
    for value in values {
        let mut dst = Vec::new();
        put_fixed_uint64(&mut dst, value);
        assert_eq!(dst, value.to_le_bytes().to_vec());
        assert_eq!(decode_fixed_uint64(&dst), value);
    }
}

#[test]
fn extract_internal_key_footer_reads_the_last_eight_bytes() {
    let key = [b'k', b'e', b'y', 0x01, 0x39, 0x30, 0, 0, 0, 0, 0];
    assert_eq!(extract_internal_key_footer(&key), (12345u64 << 8) | 1);
    let bare = [0x0F, 0x01, 0, 0, 0, 0, 0, 0];
    assert_eq!(extract_internal_key_footer(&bare), 0x10F);
}

#[test]
fn extract_value_type_is_the_low_byte_of_the_footer() {
    let key = [b'k', b'e', b'y', 0x02, 0x39, 0x30, 0, 0, 0, 0, 0];
    assert_eq!(extract_value_type(&key), 0x02);
    let bare = [0x7F, 0xFF, 0xFF, 0xFF, 0xFF, 0xFF, 0xFF, 0xFF];
    assert_eq!(extract_value_type(&bare), 0x7F);
    // a byte that is no tag of a value type is handed out as it is
    let odd = [b'x', 0xC3, 0, 0, 0, 0, 0, 0, 0];
    assert_eq!(extract_value_type(&odd), 0xC3);
}

#[test]
fn extract_user_key_strips_the_footer() {
    let key = [b'k', b'e', b'y', 0x01, 0x39, 0x30, 0, 0, 0, 0, 0];
    assert_eq!(extract_user_key(&key), b"key");
    let bare = [0u8; 8];
    assert_eq!(extract_user_key(&bare), b"");
}

#[test]
fn append_internal_key_exact_bytes() {
    let mut dst = vec![0xEE];
    append_internal_key(&mut dst, b"key", 12345, 1);
    assert_eq!(dst, vec![0xEE, b'k', b'e', b'y', 0x01, 0x39, 0x30, 0, 0, 0, 0, 0]);
}

#[test]
fn value_type_of_packed_footer_is_the_type() {
    let seqs = [0u64, 1, 255, 256, 0xABCD_EF01, MAX_SEQUENCE_NUMBER - 1, MAX_SEQUENCE_NUMBER];
    for seq in seqs {
        for t in 0..=0x7Fu8 {
            let mut key = Vec::new();
            append_internal_key(&mut key, b"user", seq, t);
            assert_eq!(extract_value_type(&key), t);
            assert_eq!(extract_internal_key_footer(&key), pack_sequence_and_type(seq, t));
            assert_eq!(extract_internal_key_footer(&key) >> 8, seq);
            assert_eq!(extract_user_key(&key), b"user");
        }
    }
}

#[test]
fn common_prefix_len_counts_shared_bytes() {
    assert_eq!(common_prefix_len(b"", b""), 0);
    assert_eq!(common_prefix_len(b"abc", b""), 0);
    assert_eq!(common_prefix_len(b"abc", b"abd"), 2);
    assert_eq!(common_prefix_len(b"abc", b"abcde"), 3);
    assert_eq!(common_prefix_len(b"abcde", b"abc"), 3);
    assert_eq!(common_prefix_len(b"abc", b"abc"), 3);
    assert_eq!(common_prefix_len(b"xbc", b"abc"), 0);
}
