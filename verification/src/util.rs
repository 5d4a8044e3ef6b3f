//! Fixed-width little-endian integers and the split of an internal key into
//! user key and footer.

use vstd::prelude::*;

pub mod bloom;
pub mod crc32c;

verus! {

/// Number of bytes of the footer that ends every internal key.
pub const FOOTER_SIZE: usize = 8;

/// The little-endian value of the first eight bytes of `bytes`.
#[verifier::opaque]
pub open spec fn spec_decode_fixed_uint64(bytes: Seq<u8>) -> u64
    recommends
        bytes.len() >= 8,
{
    (bytes[0] as int + 0x100 * (bytes[1] as int + 0x100 * (bytes[2] as int + 0x100 * (bytes[3] as int
        + 0x100 * (bytes[4] as int + 0x100 * (bytes[5] as int + 0x100 * (bytes[6] as int + 0x100
        * (bytes[7] as int)))))))) as u64
}

/// The eight bytes that hold `value` in little-endian order: the lowest
/// eight bits first, then those of each further quotient by 256.
#[verifier::opaque]
pub open spec fn spec_encode_fixed_uint64(value: u64) -> Seq<u8> {
    let q1 = value / 0x100;
    let q2 = q1 / 0x100;
    let q3 = q2 / 0x100;
    let q4 = q3 / 0x100;
    let q5 = q4 / 0x100;
    let q6 = q5 / 0x100;
    let q7 = q6 / 0x100;
    seq![
        (value % 0x100) as u8,
        (q1 % 0x100) as u8,
        (q2 % 0x100) as u8,
        (q3 % 0x100) as u8,
        (q4 % 0x100) as u8,
        (q5 % 0x100) as u8,
        (q6 % 0x100) as u8,
        (q7 % 0x100) as u8,
    ]
}

/// Decoding the eight bytes of an encoded value gives the value back.
pub proof fn lemma_decode_encode_fixed_uint64(value: u64)
    ensures
        spec_encode_fixed_uint64(value).len() == 8,
        spec_decode_fixed_uint64(spec_encode_fixed_uint64(value)) == value,
{
    reveal(spec_decode_fixed_uint64);
    reveal(spec_encode_fixed_uint64);
    let q1 = value / 0x100;
    let q2 = q1 / 0x100;
    let q3 = q2 / 0x100;
    let q4 = q3 / 0x100;
    let q5 = q4 / 0x100;
    let q6 = q5 / 0x100;
    let q7 = q6 / 0x100;
    assert(q7 < 0x100);
    assert(q6 == q6 % 0x100 + 0x100 * q7);
    assert(q5 == q5 % 0x100 + 0x100 * q6);
    assert(q4 == q4 % 0x100 + 0x100 * q5);
    assert(q3 == q3 % 0x100 + 0x100 * q4);
    assert(q2 == q2 % 0x100 + 0x100 * q3);
    assert(q1 == q1 % 0x100 + 0x100 * q2);
    assert(value == value % 0x100 + 0x100 * q1);
}

/// Encoding the value of eight bytes gives the bytes back.
pub proof fn lemma_encode_decode_fixed_uint64(bytes: Seq<u8>)
    requires
        bytes.len() == 8,
    ensures
        spec_encode_fixed_uint64(spec_decode_fixed_uint64(bytes)) == bytes,
{
    reveal(spec_decode_fixed_uint64);
    reveal(spec_encode_fixed_uint64);
    let r7: int = bytes[7] as int;
    let r6: int = bytes[6] as int + 0x100 * r7;
    let r5: int = bytes[5] as int + 0x100 * r6;
    let r4: int = bytes[4] as int + 0x100 * r5;
    let r3: int = bytes[3] as int + 0x100 * r4;
    let r2: int = bytes[2] as int + 0x100 * r3;
    let r1: int = bytes[1] as int + 0x100 * r2;
    let r0: int = bytes[0] as int + 0x100 * r1;
    assert(r6 / 0x100 == r7 && r6 % 0x100 == bytes[6]);
    assert(r5 / 0x100 == r6 && r5 % 0x100 == bytes[5]);
    assert(r4 / 0x100 == r5 && r4 % 0x100 == bytes[4]);
    assert(r3 / 0x100 == r4 && r3 % 0x100 == bytes[3]);
    assert(r2 / 0x100 == r3 && r2 % 0x100 == bytes[2]);
    assert(r1 / 0x100 == r2 && r1 % 0x100 == bytes[1]);
    assert(r0 / 0x100 == r1 && r0 % 0x100 == bytes[0]);
    assert(spec_decode_fixed_uint64(bytes) == r0);
    assert(spec_encode_fixed_uint64(spec_decode_fixed_uint64(bytes)) =~= bytes);
}

/// The lowest eight bits of a little-endian value are its first byte.
pub proof fn lemma_decode_fixed_uint64_low_byte(bytes: Seq<u8>)
    requires
        bytes.len() >= 8,
    ensures
        spec_decode_fixed_uint64(bytes) % 0x100 == bytes[0],
{
    reveal(spec_decode_fixed_uint64);
}

/// Reads the first eight bytes of `bytes` as a little-endian integer.
pub fn decode_fixed_uint64(bytes: &[u8]) -> (value: u64)
    requires
        bytes@.len() >= 8,
    ensures
        value == spec_decode_fixed_uint64(bytes@),
{
    reveal(spec_decode_fixed_uint64);
    let b0: u64 = bytes[0] as u64;
    let b1: u64 = bytes[1] as u64;
    let b2: u64 = bytes[2] as u64;
    let b3: u64 = bytes[3] as u64;
    let b4: u64 = bytes[4] as u64;
    let b5: u64 = bytes[5] as u64;
    let b6: u64 = bytes[6] as u64;
    let b7: u64 = bytes[7] as u64;
    assert(b0 | (b1 << 8) | (b2 << 16) | (b3 << 24) | (b4 << 32) | (b5 << 40) | (b6 << 48) | (b7
        << 56) == b0 + 0x100 * (b1 + 0x100 * (b2 + 0x100 * (b3 + 0x100 * (b4 + 0x100 * (b5 + 0x100
        * (b6 + 0x100 * b7))))))) by (bit_vector)
        requires
            b0 < 0x100,
            b1 < 0x100,
            b2 < 0x100,
            b3 < 0x100,
            b4 < 0x100,
            b5 < 0x100,
            b6 < 0x100,
            b7 < 0x100,
    ;
    b0 | (b1 << 8) | (b2 << 16) | (b3 << 24) | (b4 << 32) | (b5 << 40) | (b6 << 48) | (b7 << 56)
}

/// Appends the eight little-endian bytes of `value` to `dst`.
pub fn put_fixed_uint64(dst: &mut Vec<u8>, value: u64)
    ensures
        final(dst)@ == old(dst)@ + spec_encode_fixed_uint64(value),
{
    assert({
        &&& value & 0xff == value % 0x100
        &&& (value >> 8) & 0xff == value / 0x100 % 0x100
        &&& (value >> 16) & 0xff == value / 0x100 / 0x100 % 0x100
        &&& (value >> 24) & 0xff == value / 0x100 / 0x100 / 0x100 % 0x100
        &&& (value >> 32) & 0xff == value / 0x100 / 0x100 / 0x100 / 0x100 % 0x100
        &&& (value >> 40) & 0xff == value / 0x100 / 0x100 / 0x100 / 0x100 / 0x100 % 0x100
        &&& (value >> 48) & 0xff == value / 0x100 / 0x100 / 0x100 / 0x100 / 0x100 / 0x100 % 0x100
        &&& (value >> 56) & 0xff == value / 0x100 / 0x100 / 0x100 / 0x100 / 0x100 / 0x100 / 0x100
            % 0x100
    }) by (bit_vector);
    dst.push((value & 0xff) as u8);
    dst.push(((value >> 8) & 0xff) as u8);
    dst.push(((value >> 16) & 0xff) as u8);
    dst.push(((value >> 24) & 0xff) as u8);
    dst.push(((value >> 32) & 0xff) as u8);
    dst.push(((value >> 40) & 0xff) as u8);
    dst.push(((value >> 48) & 0xff) as u8);
    dst.push(((value >> 56) & 0xff) as u8);
    reveal(spec_encode_fixed_uint64);
    assert(dst@ =~= old(dst)@ + spec_encode_fixed_uint64(value));
}

/// The little-endian value of the first four bytes of `bytes`.
#[verifier::opaque]
pub open spec fn spec_decode_fixed_uint32(bytes: Seq<u8>) -> u32
    recommends
        bytes.len() >= 4,
{
    (bytes[0] as int + 0x100 * (bytes[1] as int + 0x100 * (bytes[2] as int + 0x100 * (
    bytes[3] as int)))) as u32
}

/// The four bytes that hold `value` in little-endian order.
#[verifier::opaque]
pub open spec fn spec_encode_fixed_uint32(value: u32) -> Seq<u8> {
    let q1 = value / 0x100;
    let q2 = q1 / 0x100;
    let q3 = q2 / 0x100;
    seq![(value % 0x100) as u8, (q1 % 0x100) as u8, (q2 % 0x100) as u8, (q3 % 0x100) as u8]
}

/// Decoding the four bytes of an encoded value gives the value back.
pub proof fn lemma_decode_encode_fixed_uint32(value: u32)
    ensures
        spec_encode_fixed_uint32(value).len() == 4,
        spec_decode_fixed_uint32(spec_encode_fixed_uint32(value)) == value,
{
    reveal(spec_decode_fixed_uint32);
    reveal(spec_encode_fixed_uint32);
    let q1 = value / 0x100;
    let q2 = q1 / 0x100;
    let q3 = q2 / 0x100;
    assert(q3 < 0x100);
    assert(q2 == q2 % 0x100 + 0x100 * q3);
    assert(q1 == q1 % 0x100 + 0x100 * q2);
    assert(value == value % 0x100 + 0x100 * q1);
}

/// Reads the first four bytes of `bytes` as a little-endian integer.
pub fn decode_fixed_uint32(bytes: &[u8]) -> (value: u32)
    requires
        bytes@.len() >= 4,
    ensures
        value == spec_decode_fixed_uint32(bytes@),
{
    reveal(spec_decode_fixed_uint32);
    let b0: u32 = bytes[0] as u32;
    let b1: u32 = bytes[1] as u32;
    let b2: u32 = bytes[2] as u32;
    let b3: u32 = bytes[3] as u32;
    assert(b0 | (b1 << 8) | (b2 << 16) | (b3 << 24) == b0 + 0x100 * (b1 + 0x100 * (b2 + 0x100
        * b3))) by (bit_vector)
        requires
            b0 < 0x100,
            b1 < 0x100,
            b2 < 0x100,
            b3 < 0x100,
    ;
    b0 | (b1 << 8) | (b2 << 16) | (b3 << 24)
}

/// Appends the four little-endian bytes of `value` to `dst`.
pub fn put_fixed_uint32(dst: &mut Vec<u8>, value: u32)
    ensures
        final(dst)@ == old(dst)@ + spec_encode_fixed_uint32(value),
{
    assert({
        &&& value & 0xff == value % 0x100
        &&& (value >> 8) & 0xff == value / 0x100 % 0x100
        &&& (value >> 16) & 0xff == value / 0x100 / 0x100 % 0x100
        &&& (value >> 24) & 0xff == value / 0x100 / 0x100 / 0x100 % 0x100
    }) by (bit_vector);
    dst.push((value & 0xff) as u8);
    dst.push(((value >> 8) & 0xff) as u8);
    dst.push(((value >> 16) & 0xff) as u8);
    dst.push(((value >> 24) & 0xff) as u8);
    reveal(spec_encode_fixed_uint32);
    assert(dst@ =~= old(dst)@ + spec_encode_fixed_uint32(value));
}

/// The user key of an internal key: everything before its footer.
pub open spec fn spec_extract_user_key(key: Seq<u8>) -> Seq<u8>
    recommends
        key.len() >= FOOTER_SIZE,
{
    key.subrange(0, key.len() - FOOTER_SIZE)
}

/// Borrows the user key of an internal key, leaving its footer out.
pub fn extract_user_key(key: &[u8]) -> (user_key: &[u8])
    requires
        key@.len() >= FOOTER_SIZE,
    ensures
        user_key@ == spec_extract_user_key(key@),
{
    let n: usize = key.len() - FOOTER_SIZE;
    &key[0..n]
}

/// `a` and `b` are both at least `n` bytes long and agree on their first `n`
/// bytes.
pub open spec fn spec_agree_up_to(a: Seq<u8>, b: Seq<u8>, n: int) -> bool {
    &&& 0 <= n <= a.len()
    &&& n <= b.len()
    &&& forall|i: int| 0 <= i < n ==> a[i] == b[i]
}

/// `n` is the length of the longest prefix that `a` and `b` share.
pub open spec fn spec_is_common_prefix_len(a: Seq<u8>, b: Seq<u8>, n: int) -> bool {
    &&& spec_agree_up_to(a, b, n)
    &&& n == a.len() || n == b.len() || a[n] != b[n]
}

/// The length of the longest prefix that `a` and `b` share.
pub open spec fn spec_common_prefix_len(a: Seq<u8>, b: Seq<u8>) -> int {
    choose|n: int| spec_is_common_prefix_len(a, b, n)
}

/// Every two byte strings have a longest common prefix.
pub proof fn lemma_common_prefix_len_exists(a: Seq<u8>, b: Seq<u8>)
    ensures
        spec_is_common_prefix_len(a, b, spec_common_prefix_len(a, b)),
        0 <= spec_common_prefix_len(a, b) <= a.len(),
        spec_common_prefix_len(a, b) <= b.len(),
{
    lemma_common_prefix_len_exists_from(a, b, 0);
}

proof fn lemma_common_prefix_len_exists_from(a: Seq<u8>, b: Seq<u8>, n: int)
    requires
        spec_agree_up_to(a, b, n),
    ensures
        exists|m: int| spec_is_common_prefix_len(a, b, m),
    decreases a.len() - n,
{
    if n == a.len() || n == b.len() || a[n] != b[n] {
        assert(spec_is_common_prefix_len(a, b, n));
    } else {
        lemma_common_prefix_len_exists_from(a, b, n + 1);
    }
}

/// Two byte strings have one longest common prefix.
pub proof fn lemma_common_prefix_len_unique(a: Seq<u8>, b: Seq<u8>, n: int)
    requires
        spec_is_common_prefix_len(a, b, n),
    ensures
        spec_common_prefix_len(a, b) == n,
{
    let m = spec_common_prefix_len(a, b);
    assert(spec_is_common_prefix_len(a, b, m));
    if m < n {
        assert(a[m] == b[m]);
    } else if n < m {
        assert(a[n] == b[n]);
    }
}

/// Counts the leading bytes that `a` and `b` share.
pub fn common_prefix_len(a: &[u8], b: &[u8]) -> (n: usize)
    ensures
        spec_is_common_prefix_len(a@, b@, n as int),
        n == spec_common_prefix_len(a@, b@),
{
    let mut n: usize = 0;
    while n < a.len() && n < b.len() && a[n] == b[n]
        invariant
            spec_agree_up_to(a@, b@, n as int),
        decreases a@.len() - n,
    {
        n += 1;
    }
    proof {
        lemma_common_prefix_len_unique(a@, b@, n as int);
    }
    n
}

/// Tells whether two byte strings are the same.
pub fn bytes_equal(a: &[u8], b: &[u8]) -> (equal: bool)
    ensures
        equal == (a@ == b@),
{
    let n: usize = common_prefix_len(a, b);
    if n == a.len() && n == b.len() {
        assert(a@ =~= b@);
        true
    } else {
        false
    }
}

} // verus!
