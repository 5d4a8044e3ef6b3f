//! Asking the filter of a table whether a key may be in the table, or in one
//! of its data blocks.
//!
//! A block of per-block filters holds one filter segment for each data
//! block, then a directory with one entry for each segment (the offset of
//! the data block in the file, and where the segment starts and how long it
//! is, as little-endian integers of 64, 32 and 32 bits), then where the
//! directory starts and how many entries it has (32 bits each).

use vstd::prelude::*;
use crate::table::block_based::block::{length_at, spec_length_at};
use crate::util::bloom::{key_may_match, spec_key_may_match};
use crate::util::{decode_fixed_uint64, spec_decode_fixed_uint64};

verus! {

/// Number of bytes of an entry of the directory of filter segments.
pub const FILTER_DIRECTORY_ENTRY_SIZE: usize = 16;

/// Number of bytes that a block of per-block filters ends with: the start
/// and the length of its directory.
pub const FILTER_BLOCK_TAIL_SIZE: usize = 8;

/// Where the directory of a block of per-block filters starts.
pub open spec fn spec_directory_start(block: Seq<u8>) -> nat
    recommends
        block.len() >= FILTER_BLOCK_TAIL_SIZE,
{
    spec_length_at(block, block.len() - 8)
}

/// How many entries the directory of a block of per-block filters has.
pub open spec fn spec_directory_count(block: Seq<u8>) -> nat
    recommends
        block.len() >= FILTER_BLOCK_TAIL_SIZE,
{
    spec_length_at(block, block.len() - 4)
}

/// Whether a block of per-block filters is made of segments, a directory
/// and its tail.
pub open spec fn spec_has_directory(block: Seq<u8>) -> bool {
    &&& block.len() >= FILTER_BLOCK_TAIL_SIZE
    &&& spec_directory_start(block) + FILTER_DIRECTORY_ENTRY_SIZE * spec_directory_count(block)
        + FILTER_BLOCK_TAIL_SIZE == block.len()
}

/// Where the `i`-th entry of the directory stands.
pub open spec fn spec_directory_entry_at(block: Seq<u8>, i: int) -> int {
    spec_directory_start(block) + FILTER_DIRECTORY_ENTRY_SIZE * i
}

/// The offset of the data block that the `i`-th entry of the directory is
/// for.
pub open spec fn spec_directory_block_offset(block: Seq<u8>, i: int) -> u64 {
    spec_decode_fixed_uint64(
        block.subrange(spec_directory_entry_at(block, i), spec_directory_entry_at(block, i) + 8),
    )
}

/// Where the segment of the `i`-th entry of the directory starts.
pub open spec fn spec_directory_segment_start(block: Seq<u8>, i: int) -> nat {
    spec_length_at(block, spec_directory_entry_at(block, i) + 8)
}

/// How many bytes the segment of the `i`-th entry of the directory has.
pub open spec fn spec_directory_segment_len(block: Seq<u8>, i: int) -> nat {
    spec_length_at(block, spec_directory_entry_at(block, i) + 12)
}

/// The segment that the first entry of the directory, from the `from`-th
/// on, gives for the data block at `block_offset`; `None` where no entry
/// is for that data block, or the segment of the entry does not lie before
/// the directory.
pub open spec fn spec_find_segment_from(block: Seq<u8>, block_offset: u64, from: int) -> Option<
    Seq<u8>,
>
    decreases spec_directory_count(block) - from,
{
    if from < 0 || from >= spec_directory_count(block) {
        None
    } else if spec_directory_block_offset(block, from) == block_offset {
        let start = spec_directory_segment_start(block, from);
        let len = spec_directory_segment_len(block, from);
        if start + len <= spec_directory_start(block) {
            Some(block.subrange(start as int, (start + len) as int))
        } else {
            None
        }
    } else {
        spec_find_segment_from(block, block_offset, from + 1)
    }
}

/// The filter segment that a block of per-block filters has for the data
/// block at `block_offset`; `None` where it has none.
pub open spec fn spec_filter_segment(block: Seq<u8>, block_offset: u64) -> Option<Seq<u8>> {
    if spec_has_directory(block) {
        spec_find_segment_from(block, block_offset, 0)
    } else {
        None
    }
}

/// Whether a block of per-block filters leaves it open that a key is in
/// the data block at `block_offset`. Nothing is excluded where the block
/// has no segment for that data block.
pub open spec fn spec_block_may_contain(block: Seq<u8>, block_offset: u64, key: Seq<u8>) -> bool {
    match spec_filter_segment(block, block_offset) {
        Some(segment) => spec_key_may_match(segment, key),
        None => true,
    }
}

/// The filter of a table, as contracts speak of it.
pub enum FilterView {
    /// One filter over the keys of the whole table.
    Full(Seq<u8>),
    /// One filter segment for each data block.
    PerBlock(Seq<u8>),
}

/// Whether a filter leaves it open that a user key is in the data block at
/// `block_offset`.
pub open spec fn spec_filter_may_contain(filter: FilterView, block_offset: u64, key: Seq<u8>) -> bool {
    match filter {
        FilterView::Full(data) => spec_key_may_match(data, key),
        FilterView::PerBlock(data) => spec_block_may_contain(data, block_offset, key),
    }
}

/// The filter of a table, as read from its filter block.
#[derive(Debug)]
pub enum FilterReader {
    /// One filter over the keys of the whole table.
    Full { data: Vec<u8> },
    /// One filter segment for each data block.
    PerBlock { data: Vec<u8> },
}

impl View for FilterReader {
    type V = FilterView;

    open spec fn view(&self) -> FilterView {
        match self {
            FilterReader::Full { data } => FilterView::Full(data@),
            FilterReader::PerBlock { data } => FilterView::PerBlock(data@),
        }
    }
}

impl FilterReader {
    /// Tells whether the filter leaves it open that `user_key` is in the
    /// data block at `block_offset`; `false` means that it is not. A filter
    /// over the whole table answers for every data block alike.
    pub fn key_may_match(&self, block_offset: u64, user_key: &[u8]) -> (may_match: bool)
        ensures
            may_match == spec_filter_may_contain(self@, block_offset, user_key@),
    {
        match self {
            FilterReader::Full { data } => key_may_match(data.as_slice(), user_key),
            FilterReader::PerBlock { data } => block_may_contain(
                data.as_slice(),
                block_offset,
                user_key,
            ),
        }
    }
}

/// Tells whether a block of per-block filters leaves it open that a key is
/// in the data block at `block_offset`.
pub fn block_may_contain(block: &[u8], block_offset: u64, key: &[u8]) -> (may_contain: bool)
    ensures
        may_contain == spec_block_may_contain(block@, block_offset, key@),
{
    let len: usize = block.len();
    if len < FILTER_BLOCK_TAIL_SIZE {
        return true;
    }
    let start: usize = length_at(block, len - 8);
    let count: usize = length_at(block, len - 4);
    let room: usize = len - FILTER_BLOCK_TAIL_SIZE;
    if start > room || (room - start) % FILTER_DIRECTORY_ENTRY_SIZE != 0 || (room - start)
        / FILTER_DIRECTORY_ENTRY_SIZE != count {
        return true;
    }
    let mut i: usize = 0;
    while i < count
        invariant
            i <= count,
            len == block@.len(),
            spec_has_directory(block@),
            start == spec_directory_start(block@),
            count == spec_directory_count(block@),
            spec_find_segment_from(block@, block_offset, 0) == spec_find_segment_from(
                block@,
                block_offset,
                i as int,
            ),
        decreases count - i,
    {
        let at: usize = start + FILTER_DIRECTORY_ENTRY_SIZE * i;
        if decode_fixed_uint64(&block[at..at + 8]) == block_offset {
            let segment_start: usize = length_at(block, at + 8);
            let segment_len: usize = length_at(block, at + 12);
            if segment_start > start || segment_len > start - segment_start {
                return true;
            }
            return key_may_match(&block[segment_start..segment_start + segment_len], key);
        }
        i += 1;
    }
    true
}

} // verus!
