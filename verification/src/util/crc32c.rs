//! The CRC-32C checksum (Castagnoli polynomial, bits reflected), computed bit
//! by bit.

use vstd::prelude::*;

verus! {

/// The Castagnoli polynomial with its bits reflected.
pub const CRC32C_POLYNOMIAL: u32 = 0x82F6_3B78;

/// One step of the shift register: the lowest bit leaves, and where it was
/// set the polynomial is added.
pub open spec fn spec_crc32c_shift(crc: u32) -> u32 {
    if crc % 2 == 1 {
        (crc / 2) ^ CRC32C_POLYNOMIAL
    } else {
        crc / 2
    }
}

/// The register after one more byte of input: the byte is added to the low
/// eight bits, and the register is shifted eight times.
pub open spec fn spec_crc32c_byte(crc: u32, byte: u8) -> u32 {
    let c0 = crc ^ (byte as u32);
    let c1 = spec_crc32c_shift(c0);
    let c2 = spec_crc32c_shift(c1);
    let c3 = spec_crc32c_shift(c2);
    let c4 = spec_crc32c_shift(c3);
    let c5 = spec_crc32c_shift(c4);
    let c6 = spec_crc32c_shift(c5);
    let c7 = spec_crc32c_shift(c6);
    spec_crc32c_shift(c7)
}

/// The register after the bytes of `data`, one after the other.
pub open spec fn spec_crc32c_update(crc: u32, data: Seq<u8>) -> u32
    decreases data.len(),
{
    if data.len() == 0 {
        crc
    } else {
        spec_crc32c_byte(spec_crc32c_update(crc, data.drop_last()), data.last())
    }
}

/// The CRC-32C checksum of `data`: the register starts with all bits set, and
/// all its bits are flipped at the end.
pub open spec fn spec_crc32c(data: Seq<u8>) -> u32 {
    spec_crc32c_update(0xFFFF_FFFF, data) ^ 0xFFFF_FFFF
}

fn crc32c_shift(crc: u32) -> (next: u32)
    ensures
        next == spec_crc32c_shift(crc),
{
    assert(crc & 1 == crc % 2 && crc >> 1 == crc / 2) by (bit_vector);
    if crc & 1 == 1 {
        (crc >> 1) ^ CRC32C_POLYNOMIAL
    } else {
        crc >> 1
    }
}

/// Feeds one byte into the register.
pub fn crc32c_byte(crc: u32, byte: u8) -> (next: u32)
    ensures
        next == spec_crc32c_byte(crc, byte),
{
    let mut c: u32 = crc ^ (byte as u32);
    c = crc32c_shift(c);
    c = crc32c_shift(c);
    c = crc32c_shift(c);
    c = crc32c_shift(c);
    c = crc32c_shift(c);
    c = crc32c_shift(c);
    c = crc32c_shift(c);
    crc32c_shift(c)
}

/// Feeds the bytes of `data` into the register.
pub fn crc32c_update(crc: u32, data: &[u8]) -> (next: u32)
    ensures
        next == spec_crc32c_update(crc, data@),
{
    let mut c: u32 = crc;
    let mut i: usize = 0;
    while i < data.len()
        invariant
            i <= data@.len(),
            c == spec_crc32c_update(crc, data@.subrange(0, i as int)),
        decreases data@.len() - i,
    {
        assert(data@.subrange(0, i + 1).drop_last() =~= data@.subrange(0, i as int));
        c = crc32c_byte(c, data[i]);
        i += 1;
    }
    assert(data@.subrange(0, i as int) =~= data@);
    c
}

/// Computes the CRC-32C checksum of `data`.
pub fn crc32c(data: &[u8]) -> (checksum: u32)
    ensures
        checksum == spec_crc32c(data@),
{
    crc32c_update(0xFFFF_FFFF, data) ^ 0xFFFF_FFFF
}

} // verus!
