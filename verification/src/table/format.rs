//! What a table file is made of: blocks that are followed by a trailer and
//! found by their handle, and the footer that the file ends with.

use vstd::prelude::*;
use crate::table::block_based::BLOCK_TRAILER_SIZE;
use crate::table::TableError;
use crate::util::crc32c::{crc32c_byte, crc32c_update, spec_crc32c};
use crate::util::{
    decode_fixed_uint32, decode_fixed_uint64, lemma_decode_encode_fixed_uint32,
    lemma_decode_encode_fixed_uint64, put_fixed_uint32, put_fixed_uint64,
    spec_decode_fixed_uint32, spec_decode_fixed_uint64, spec_encode_fixed_uint32,
    spec_encode_fixed_uint64,
};

verus! {

/// Number of bytes of an encoded block handle.
pub const BLOCK_HANDLE_SIZE: usize = 16;

/// Number of bytes of the footer: two block handles and the magic number.
pub const TABLE_FOOTER_SIZE: usize = 40;

/// What every table file ends with.
pub const TABLE_MAGIC_NUMBER: u64 = 0x88e2_41b7_85f4_cff7;

/// Compression type of a block that is stored as it is.
pub const NO_COMPRESSION: u8 = 0;

/// Where a block lies in the file: the offset of its first byte and the
/// number of bytes of its payload, the trailer not counted.
#[derive(Clone, Copy, Debug, PartialEq, Eq, Structural)]
pub struct BlockHandle {
    pub offset: u64,
    pub size: u64,
}

/// The sixteen bytes of a block handle: offset, then size.
pub open spec fn spec_encode_handle(handle: BlockHandle) -> Seq<u8> {
    spec_encode_fixed_uint64(handle.offset) + spec_encode_fixed_uint64(handle.size)
}

/// The block handle that the first sixteen bytes of `bytes` hold.
pub open spec fn spec_decode_handle(bytes: Seq<u8>) -> BlockHandle
    recommends
        bytes.len() >= BLOCK_HANDLE_SIZE,
{
    BlockHandle {
        offset: spec_decode_fixed_uint64(bytes.subrange(0, 8)),
        size: spec_decode_fixed_uint64(bytes.subrange(8, 16)),
    }
}

/// Decoding an encoded handle gives the handle back.
pub proof fn lemma_decode_encode_handle(handle: BlockHandle)
    ensures
        spec_encode_handle(handle).len() == BLOCK_HANDLE_SIZE,
        spec_decode_handle(spec_encode_handle(handle)) == handle,
{
    lemma_decode_encode_fixed_uint64(handle.offset);
    lemma_decode_encode_fixed_uint64(handle.size);
    let bytes = spec_encode_handle(handle);
    assert(bytes.subrange(0, 8) =~= spec_encode_fixed_uint64(handle.offset));
    assert(bytes.subrange(8, 16) =~= spec_encode_fixed_uint64(handle.size));
}

/// Appends the sixteen bytes of `handle` to `dst`.
pub fn put_handle(dst: &mut Vec<u8>, handle: BlockHandle)
    ensures
        final(dst)@ == old(dst)@ + spec_encode_handle(handle),
{
    put_fixed_uint64(dst, handle.offset);
    put_fixed_uint64(dst, handle.size);
    assert(dst@ =~= old(dst)@ + spec_encode_handle(handle));
}

/// Reads the block handle that `bytes` starts with.
pub fn decode_handle(bytes: &[u8]) -> (handle: BlockHandle)
    requires
        bytes@.len() >= BLOCK_HANDLE_SIZE,
    ensures
        handle == spec_decode_handle(bytes@),
{
    BlockHandle {
        offset: decode_fixed_uint64(&bytes[0..8]),
        size: decode_fixed_uint64(&bytes[8..16]),
    }
}

/// The checksum of a block: the CRC-32C of its payload and the byte of its
/// compression type.
pub open spec fn spec_block_checksum(payload: Seq<u8>, compression: u8) -> u32 {
    spec_crc32c(payload.push(compression))
}

/// The trailer of a block that is stored as it is.
pub open spec fn spec_block_trailer(payload: Seq<u8>) -> Seq<u8> {
    seq![NO_COMPRESSION] + spec_encode_fixed_uint32(spec_block_checksum(payload, NO_COMPRESSION))
}

/// Whether a handle denotes bytes of `file` that a trailer follows.
pub open spec fn spec_handle_fits(file: Seq<u8>, handle: BlockHandle) -> bool {
    handle.offset + handle.size + BLOCK_TRAILER_SIZE <= file.len()
}

/// The payload of the block that `handle` denotes. The block is corrupt
/// where it does not lie in `file` with its trailer or its checksum is not
/// the one stored, and unsupported where it is compressed.
pub open spec fn spec_read_block(file: Seq<u8>, handle: BlockHandle) -> Result<
    Seq<u8>,
    TableError,
> {
    let start = handle.offset as int;
    let end = handle.offset + handle.size;
    if !spec_handle_fits(file, handle) {
        Err(TableError::Corruption)
    } else if spec_decode_fixed_uint32(file.subrange(end + 1, end + 5)) != spec_block_checksum(
        file.subrange(start, end),
        file[end],
    ) {
        Err(TableError::Corruption)
    } else if file[end] != NO_COMPRESSION {
        Err(TableError::UnsupportedCompression)
    } else {
        Ok(file.subrange(start, end))
    }
}

/// Computes the checksum of a block.
pub fn block_checksum(payload: &[u8], compression: u8) -> (checksum: u32)
    ensures
        checksum == spec_block_checksum(payload@, compression),
{
    assert(payload@.push(compression).drop_last() =~= payload@);
    crc32c_byte(crc32c_update(0xFFFF_FFFF, payload), compression) ^ 0xFFFF_FFFF
}

/// Borrows the payload of the block that `handle` denotes, once its
/// checksum is found right.
pub fn read_block<'a>(file: &'a [u8], handle: BlockHandle) -> (result: Result<
    &'a [u8],
    TableError,
>)
    ensures
        match spec_read_block(file@, handle) {
            Ok(payload) => result matches Ok(bytes) && bytes@ == payload,
            Err(error) => result == Err::<&[u8], TableError>(error),
        },
{
    let len: usize = file.len();
    if len < BLOCK_TRAILER_SIZE || handle.offset > (len - BLOCK_TRAILER_SIZE) as u64 || handle.size
        > (len - BLOCK_TRAILER_SIZE) as u64 - handle.offset {
        return Err(TableError::Corruption);
    }
    let start: usize = handle.offset as usize;
    let end: usize = start + handle.size as usize;
    let payload = &file[start..end];
    let compression: u8 = file[end];
    let stored: u32 = decode_fixed_uint32(&file[end + 1..end + 5]);
    if stored != block_checksum(payload, compression) {
        return Err(TableError::Corruption);
    }
    if compression != NO_COMPRESSION {
        return Err(TableError::UnsupportedCompression);
    }
    Ok(payload)
}

/// Appends a block and its trailer to `file` and tells where it lies.
pub fn append_block(file: &mut Vec<u8>, payload: &[u8]) -> (handle: BlockHandle)
    ensures
        final(file)@ == old(file)@ + payload@ + spec_block_trailer(payload@),
        spec_is_extension(old(file)@, final(file)@),
        handle.offset == old(file)@.len(),
        handle.size == payload@.len(),
        spec_handle_fits(final(file)@, handle),
        spec_read_block(final(file)@, handle) == Ok::<Seq<u8>, TableError>(payload@),
{
    let handle = BlockHandle { offset: file.len() as u64, size: payload.len() as u64 };
    let checksum: u32 = block_checksum(payload, NO_COMPRESSION);
    file.extend_from_slice(payload);
    file.push(NO_COMPRESSION);
    put_fixed_uint32(file, checksum);
    proof {
        lemma_decode_encode_fixed_uint32(checksum);
        let start = handle.offset as int;
        let end = handle.offset + handle.size;
        assert(file@ =~= old(file)@ + payload@ + spec_block_trailer(payload@));
        assert(file@.subrange(0, old(file)@.len() as int) =~= old(file)@);
        assert(file@.subrange(start, end) =~= payload@);
        assert(file@.subrange(end + 1, end + 5) =~= spec_encode_fixed_uint32(checksum));
    }
    handle
}

/// A block that is read from a file is read from every file that the first
/// is the beginning of.
pub proof fn lemma_read_block_of_longer_file(file: Seq<u8>, more: Seq<u8>, handle: BlockHandle)
    requires
        spec_handle_fits(file, handle),
    ensures
        spec_handle_fits(file + more, handle),
        spec_read_block(file + more, handle) == spec_read_block(file, handle),
{
    let longer = file + more;
    let start = handle.offset as int;
    let end = handle.offset + handle.size;
    assert(longer.subrange(start, end) =~= file.subrange(start, end));
    assert(longer.subrange(end + 1, end + 5) =~= file.subrange(end + 1, end + 5));
}

/// Whether `longer` begins with the bytes of `file`.
pub open spec fn spec_is_extension(file: Seq<u8>, longer: Seq<u8>) -> bool {
    file.len() <= longer.len() && longer.subrange(0, file.len() as int) == file
}

/// A block that is read from a file is read from every file that begins
/// with the bytes of the first.
pub proof fn lemma_read_block_of_extension(file: Seq<u8>, longer: Seq<u8>, handle: BlockHandle)
    requires
        spec_is_extension(file, longer),
        spec_handle_fits(file, handle),
    ensures
        spec_handle_fits(longer, handle),
        spec_read_block(longer, handle) == spec_read_block(file, handle),
{
    let more = longer.subrange(file.len() as int, longer.len() as int);
    assert(longer =~= file + more);
    lemma_read_block_of_longer_file(file, more, handle);
}

/// Every file begins with its own bytes.
pub proof fn lemma_extension_reflexive(file: Seq<u8>)
    ensures
        spec_is_extension(file, file),
{
    assert(file.subrange(0, file.len() as int) =~= file);
}

/// What begins with an extension of a file begins with the file.
pub proof fn lemma_extension_transitive(a: Seq<u8>, b: Seq<u8>, c: Seq<u8>)
    requires
        spec_is_extension(a, b),
        spec_is_extension(b, c),
    ensures
        spec_is_extension(a, c),
{
    assert(c.subrange(0, a.len() as int) =~= b.subrange(0, a.len() as int));
}

/// The bytes of the footer: the handles of the meta index block and of the
/// index block, and the magic number.
pub open spec fn spec_encode_footer(metaindex: BlockHandle, index: BlockHandle) -> Seq<u8> {
    spec_encode_handle(metaindex) + spec_encode_handle(index) + spec_encode_fixed_uint64(
        TABLE_MAGIC_NUMBER,
    )
}

/// The handles of the meta index block and of the index block that the
/// footer of `file` names; `None` where `file` is too short for a footer or
/// does not end with the magic number.
pub open spec fn spec_parse_footer(file: Seq<u8>) -> Option<(BlockHandle, BlockHandle)> {
    let len = file.len() as int;
    if len < TABLE_FOOTER_SIZE {
        None
    } else if spec_decode_fixed_uint64(file.subrange(len - 8, len)) != TABLE_MAGIC_NUMBER {
        None
    } else {
        Some(
            (
                spec_decode_handle(file.subrange(len - 40, len - 24)),
                spec_decode_handle(file.subrange(len - 24, len - 8)),
            ),
        )
    }
}

/// Appends the footer to `file`.
pub fn put_footer(file: &mut Vec<u8>, metaindex: BlockHandle, index: BlockHandle)
    ensures
        final(file)@ == old(file)@ + spec_encode_footer(metaindex, index),
        spec_is_extension(old(file)@, final(file)@),
        spec_parse_footer(final(file)@) == Some((metaindex, index)),
{
    put_handle(file, metaindex);
    put_handle(file, index);
    put_fixed_uint64(file, TABLE_MAGIC_NUMBER);
    proof {
        lemma_decode_encode_handle(metaindex);
        lemma_decode_encode_handle(index);
        lemma_decode_encode_fixed_uint64(TABLE_MAGIC_NUMBER);
        let len = file@.len() as int;
        assert(file@ =~= old(file)@ + spec_encode_footer(metaindex, index));
        assert(file@.subrange(0, old(file)@.len() as int) =~= old(file)@);
        assert(file@.subrange(len - 8, len) =~= spec_encode_fixed_uint64(TABLE_MAGIC_NUMBER));
        assert(file@.subrange(len - 40, len - 24) =~= spec_encode_handle(metaindex));
        assert(file@.subrange(len - 24, len - 8) =~= spec_encode_handle(index));
    }
}

/// Reads the footer of `file`.
pub fn parse_footer(file: &[u8]) -> (result: Result<(BlockHandle, BlockHandle), TableError>)
    ensures
        match spec_parse_footer(file@) {
            Some(handles) => result == Ok::<(BlockHandle, BlockHandle), TableError>(handles),
            None => result == Err::<(BlockHandle, BlockHandle), TableError>(
                TableError::Corruption,
            ),
        },
{
    let len: usize = file.len();
    if len < TABLE_FOOTER_SIZE {
        return Err(TableError::Corruption);
    }
    if decode_fixed_uint64(&file[len - 8..len]) != TABLE_MAGIC_NUMBER {
        return Err(TableError::Corruption);
    }
    let metaindex = decode_handle(&file[len - 40..len - 24]);
    let index = decode_handle(&file[len - 24..len - 8]);
    Ok((metaindex, index))
}

} // verus!
