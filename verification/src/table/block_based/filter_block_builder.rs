//! Building the block of per-block filters: one Bloom filter segment over
//! the user keys of each data block, found by the offset of the data block.

use vstd::prelude::*;
use crate::table::block_based::block::spec_length_at;
use crate::table::block_based::filter_reader::{
    spec_block_may_contain, spec_directory_block_offset, spec_directory_count,
    spec_directory_entry_at, spec_directory_segment_len, spec_directory_segment_start,
    spec_directory_start, spec_find_segment_from, spec_has_directory,
    FILTER_BLOCK_TAIL_SIZE, FILTER_DIRECTORY_ENTRY_SIZE,
};
use crate::table::block_based::full_filter_block_builder::{
    lemma_full_filter_is_sound, spec_full_filter, spec_hashes_of, BLOOM_FILTER_POLICY_NAME,
    DEFAULT_BITS_PER_KEY,
};
use crate::util::bloom::{bloom_hash, create_filter};
use crate::util::{
    lemma_decode_encode_fixed_uint32, lemma_decode_encode_fixed_uint64, put_fixed_uint32,
    put_fixed_uint64, spec_encode_fixed_uint32, spec_encode_fixed_uint64,
};

verus! {

/// The user keys of one data block, and where the data block lies.
pub struct BlockKeys {
    pub block_offset: u64,
    pub keys: Seq<Seq<u8>>,
}

/// An entry of the directory of filter segments.
pub struct SegmentEntry {
    pub block_offset: u64,
    pub start: nat,
    pub len: nat,
}

/// The bytes of an entry of the directory.
pub open spec fn spec_encode_segment_entry(entry: SegmentEntry) -> Seq<u8> {
    spec_encode_fixed_uint64(entry.block_offset) + spec_encode_fixed_uint32(entry.start as u32)
        + spec_encode_fixed_uint32(entry.len as u32)
}

/// Whether a filter block with this many bytes of segments and of directory
/// has room for one more segment of `segment_len` bytes and its directory
/// entry.
pub open spec fn spec_segment_fits(segments_len: nat, directory_len: nat, segment_len: nat) -> bool {
    segments_len + segment_len + directory_len + FILTER_DIRECTORY_ENTRY_SIZE
        + FILTER_BLOCK_TAIL_SIZE <= u32::MAX
}

/// The directory entries of the first `n` data blocks: one for each data
/// block whose segment the filter block has room for.
pub open spec fn spec_segment_entries(blocks: Seq<BlockKeys>, n: nat, bits_per_key: nat) -> Seq<
    SegmentEntry,
>
    decreases n,
{
    if n == 0 {
        Seq::empty()
    } else {
        let before = spec_segment_entries(blocks, (n - 1) as nat, bits_per_key);
        let segments = spec_filter_segments(blocks, (n - 1) as nat, bits_per_key);
        let segment = spec_full_filter(blocks[n - 1].keys, bits_per_key);
        if spec_segment_fits(
            segments.len(),
            FILTER_DIRECTORY_ENTRY_SIZE as nat * before.len(),
            segment.len(),
        ) {
            before.push(
                SegmentEntry {
                    block_offset: blocks[n - 1].block_offset,
                    start: segments.len(),
                    len: segment.len(),
                },
            )
        } else {
            before
        }
    }
}

/// The filter segments of the first `n` data blocks, one after the other.
pub open spec fn spec_filter_segments(blocks: Seq<BlockKeys>, n: nat, bits_per_key: nat) -> Seq<u8>
    decreases n,
{
    if n == 0 {
        Seq::empty()
    } else {
        let before = spec_segment_entries(blocks, (n - 1) as nat, bits_per_key);
        let segments = spec_filter_segments(blocks, (n - 1) as nat, bits_per_key);
        let segment = spec_full_filter(blocks[n - 1].keys, bits_per_key);
        if spec_segment_fits(
            segments.len(),
            FILTER_DIRECTORY_ENTRY_SIZE as nat * before.len(),
            segment.len(),
        ) {
            segments + segment
        } else {
            segments
        }
    }
}

/// The bytes of the first `n` directory entries.
pub open spec fn spec_encode_directory(entries: Seq<SegmentEntry>, n: nat) -> Seq<u8>
    decreases n,
{
    if n == 0 {
        Seq::empty()
    } else {
        spec_encode_directory(entries, (n - 1) as nat) + spec_encode_segment_entry(entries[n - 1])
    }
}

/// The bytes of the block of per-block filters of these data blocks.
pub open spec fn spec_filter_block(blocks: Seq<BlockKeys>, bits_per_key: nat) -> Seq<u8> {
    let entries = spec_segment_entries(blocks, blocks.len(), bits_per_key);
    let segments = spec_filter_segments(blocks, blocks.len(), bits_per_key);
    segments + spec_encode_directory(entries, entries.len()) + spec_encode_fixed_uint32(
        segments.len() as u32,
    ) + spec_encode_fixed_uint32(entries.len() as u32)
}

/// Whether the data blocks lie at ascending offsets.
pub open spec fn spec_offsets_ascend(blocks: Seq<BlockKeys>) -> bool {
    forall|i: int, j: int|
        0 <= i < j < blocks.len() ==> (#[trigger] blocks[i]).block_offset
            < (#[trigger] blocks[j]).block_offset
}

/// What a `FilterBlockBuilder` holds.
pub struct FilterBlockBuilderView {
    /// The data blocks that are finished, with their user keys.
    pub blocks: Seq<BlockKeys>,
    /// The user keys added since the last data block was finished.
    pub pending: Seq<Seq<u8>>,
    /// The number of bits of a filter segment for each key.
    pub bits_per_key: nat,
}

/// Collects the user keys of a table, data block by data block, for its
/// per-block filters.
pub struct FilterBlockBuilder {
    bits_per_key: usize,
    segments: Vec<u8>,
    directory: Vec<u8>,
    hashes: Vec<u32>,
    blocks: Ghost<Seq<BlockKeys>>,
    pending: Ghost<Seq<Seq<u8>>>,
}

impl View for FilterBlockBuilder {
    type V = FilterBlockBuilderView;

    closed spec fn view(&self) -> FilterBlockBuilderView {
        FilterBlockBuilderView {
            blocks: self.blocks@,
            pending: self.pending@,
            bits_per_key: self.bits_per_key as nat,
        }
    }
}

impl FilterBlockBuilder {
    /// The builder holds the segments and the directory of the data blocks
    /// that are finished, and the hashes of the keys added since.
    pub closed spec fn wf(&self) -> bool {
        let n = self.blocks@.len();
        let bits = self.bits_per_key as nat;
        let entries = spec_segment_entries(self.blocks@, n, bits);
        &&& self.segments@ == spec_filter_segments(self.blocks@, n, bits)
        &&& self.directory@ == spec_encode_directory(entries, entries.len())
        &&& self.hashes@ == spec_hashes_of(self.pending@)
        &&& spec_offsets_ascend(self.blocks@)
    }

    /// Makes a builder without keys.
    pub fn new(bits_per_key: usize) -> (builder: Self)
        ensures
            builder.wf(),
            builder@.blocks == Seq::<BlockKeys>::empty(),
            builder@.pending == Seq::<Seq<u8>>::empty(),
            builder@.bits_per_key == bits_per_key,
    {
        let builder = FilterBlockBuilder {
            bits_per_key,
            segments: Vec::new(),
            directory: Vec::new(),
            hashes: Vec::new(),
            blocks: Ghost(Seq::empty()),
            pending: Ghost(Seq::empty()),
        };
        assert(builder.hashes@ =~= spec_hashes_of(builder.pending@));
        builder
    }

    /// Adds a user key of the data block that is not finished yet.
    pub fn add_key(&mut self, key: &[u8])
        requires
            old(self).wf(),
        ensures
            final(self).wf(),
            final(self)@.blocks == old(self)@.blocks,
            final(self)@.pending == old(self)@.pending.push(key@),
            final(self)@.bits_per_key == old(self)@.bits_per_key,
    {
        self.hashes.push(bloom_hash(key));
        self.pending = Ghost(self.pending@.push(key@));
        assert(self.hashes@ =~= spec_hashes_of(self.pending@));
    }

    /// Closes the data block that lies at `block_offset`: the keys added
    /// since the last data block was finished are its keys.
    pub fn finish_block(&mut self, block_offset: u64)
        requires
            old(self).wf(),
            old(self)@.blocks.len() > 0 ==> old(self)@.blocks.last().block_offset < block_offset,
        ensures
            final(self).wf(),
            final(self)@.blocks == old(self)@.blocks.push(
                BlockKeys { block_offset, keys: old(self)@.pending },
            ),
            final(self)@.pending == Seq::<Seq<u8>>::empty(),
            final(self)@.bits_per_key == old(self)@.bits_per_key,
    {
        let ghost before = self.blocks@;
        let ghost block = BlockKeys { block_offset, keys: self.pending@ };
        let ghost after = before.push(block);
        let ghost bits = self.bits_per_key as nat;
        proof {
            let entries = spec_segment_entries(before, before.len(), bits);
            lemma_filter_sizes(before, before.len(), bits);
            lemma_segments_prefix(before, after, before.len(), bits);
            lemma_encode_directory_len(entries, entries.len());
        }
        let segment: Vec<u8> = create_filter(self.hashes.as_slice(), self.bits_per_key);
        let max: usize = 0xFFFF_FFFF;
        let used: usize = self.segments.len() + self.directory.len() + FILTER_BLOCK_TAIL_SIZE;
        if max - used >= FILTER_DIRECTORY_ENTRY_SIZE && segment.len() <= max - used
            - FILTER_DIRECTORY_ENTRY_SIZE {
            let start: usize = self.segments.len();
            self.segments.extend_from_slice(segment.as_slice());
            put_fixed_uint64(&mut self.directory, block_offset);
            put_fixed_uint32(&mut self.directory, start as u32);
            put_fixed_uint32(&mut self.directory, segment.len() as u32);
            proof {
                let entries = spec_segment_entries(after, after.len(), bits);
                assert(self.segments@ =~= spec_filter_segments(after, after.len(), bits));
                lemma_directory_prefix(
                    spec_segment_entries(before, before.len(), bits),
                    entries,
                    (entries.len() - 1) as nat,
                );
                assert(self.directory@ =~= spec_encode_directory(entries, entries.len()));
            }
        }
        self.hashes.clear();
        self.blocks = Ghost(after);
        self.pending = Ghost(Seq::empty());
        proof {
            assert(self.hashes@ =~= spec_hashes_of(self.pending@));
            assert forall|i: int, j: int| 0 <= i < j < after.len() implies (#[trigger] after[i]).block_offset
                < (#[trigger] after[j]).block_offset by {
                assert(after[i] == before[i]);
                if j < before.len() {
                    assert(after[j] == before[j]);
                } else if i < before.len() - 1 {
                    assert(before[i].block_offset < before[before.len() - 1].block_offset);
                }
            }
        }
    }

    /// Makes the block of the filters of the data blocks that are
    /// finished. Keys added since the last data block was finished are not
    /// in it.
    pub fn finish(&self) -> (block: Vec<u8>)
        requires
            self.wf(),
        ensures
            block@ == spec_filter_block(self@.blocks, self@.bits_per_key),
    {
        proof {
            let bits = self.bits_per_key as nat;
            let entries = spec_segment_entries(self.blocks@, self.blocks@.len(), bits);
            lemma_filter_sizes(self.blocks@, self.blocks@.len(), bits);
            lemma_encode_directory_len(entries, entries.len());
        }
        let mut block: Vec<u8> = Vec::new();
        block.extend_from_slice(self.segments.as_slice());
        block.extend_from_slice(self.directory.as_slice());
        put_fixed_uint32(&mut block, self.segments.len() as u32);
        put_fixed_uint32(&mut block, (self.directory.len() / FILTER_DIRECTORY_ENTRY_SIZE) as u32);
        assert(block@ =~= spec_filter_block(self@.blocks, self@.bits_per_key));
        block
    }
}

/// Makes the builders of per-block filters with a number of bits for each
/// key.
#[derive(Clone, Copy, Debug)]
pub struct FilterBlockFactory {
    pub bits_per_key: usize,
}

impl FilterBlockFactory {
    /// Makes a factory of filters with `bits_per_key` bits for each key.
    pub fn new(bits_per_key: usize) -> (factory: Self)
        ensures
            factory.bits_per_key == bits_per_key,
    {
        FilterBlockFactory { bits_per_key }
    }

    /// The name of the filter policy.
    pub fn name(&self) -> (name: &'static str)
        ensures
            name == BLOOM_FILTER_POLICY_NAME,
    {
        BLOOM_FILTER_POLICY_NAME
    }

    /// Makes a builder without keys.
    pub fn create_builder(&self) -> (builder: FilterBlockBuilder)
        ensures
            builder.wf(),
            builder@.blocks == Seq::<BlockKeys>::empty(),
            builder@.pending == Seq::<Seq<u8>>::empty(),
            builder@.bits_per_key == self.bits_per_key,
    {
        FilterBlockBuilder::new(self.bits_per_key)
    }
}

impl Default for FilterBlockFactory {
    /// A factory of filters with ten bits for each key.
    fn default() -> (factory: Self)
        ensures
            factory.bits_per_key == DEFAULT_BITS_PER_KEY,
    {
        FilterBlockFactory { bits_per_key: DEFAULT_BITS_PER_KEY }
    }
}

/// A directory entry takes sixteen bytes.
pub proof fn lemma_encode_directory_len(entries: Seq<SegmentEntry>, n: nat)
    ensures
        spec_encode_directory(entries, n).len() == FILTER_DIRECTORY_ENTRY_SIZE * n,
    decreases n,
{
    if n > 0 {
        lemma_encode_directory_len(entries, (n - 1) as nat);
        lemma_decode_encode_fixed_uint64(entries[n - 1].block_offset);
        lemma_decode_encode_fixed_uint32(entries[n - 1].start as u32);
        lemma_decode_encode_fixed_uint32(entries[n - 1].len as u32);
    }
}

/// The bytes of the first `n` directory entries do not depend on the
/// entries behind them.
pub proof fn lemma_directory_prefix(a: Seq<SegmentEntry>, b: Seq<SegmentEntry>, n: nat)
    requires
        n <= a.len(),
        n <= b.len(),
        forall|i: int| 0 <= i < n ==> a[i] == b[i],
    ensures
        spec_encode_directory(a, n) == spec_encode_directory(b, n),
    decreases n,
{
    if n > 0 {
        lemma_directory_prefix(a, b, (n - 1) as nat);
    }
}

/// The segments and the directory entries of the first `n` data blocks do
/// not depend on the data blocks behind them.
pub proof fn lemma_segments_prefix(a: Seq<BlockKeys>, b: Seq<BlockKeys>, n: nat, bits_per_key: nat)
    requires
        n <= a.len(),
        n <= b.len(),
        forall|i: int| 0 <= i < n ==> a[i] == b[i],
    ensures
        spec_filter_segments(a, n, bits_per_key) == spec_filter_segments(b, n, bits_per_key),
        spec_segment_entries(a, n, bits_per_key) == spec_segment_entries(b, n, bits_per_key),
    decreases n,
{
    if n > 0 {
        lemma_segments_prefix(a, b, (n - 1) as nat, bits_per_key);
    }
}

/// The segments, the directory and the tail of a filter block take no more
/// bytes than 32 bits can tell, every segment lies within the segments, and
/// the directory has no more entries than there are data blocks.
pub proof fn lemma_filter_sizes(blocks: Seq<BlockKeys>, n: nat, bits_per_key: nat)
    requires
        n <= blocks.len(),
    ensures
        spec_filter_segments(blocks, n, bits_per_key).len() + FILTER_DIRECTORY_ENTRY_SIZE
            * spec_segment_entries(blocks, n, bits_per_key).len() + FILTER_BLOCK_TAIL_SIZE
            <= u32::MAX,
        spec_segment_entries(blocks, n, bits_per_key).len() <= n,
        forall|i: int|
            0 <= i < spec_segment_entries(blocks, n, bits_per_key).len() ==> {
                let entry = #[trigger] spec_segment_entries(blocks, n, bits_per_key)[i];
                entry.start + entry.len <= spec_filter_segments(blocks, n, bits_per_key).len()
            },
    decreases n,
{
    if n > 0 {
        lemma_filter_sizes(blocks, (n - 1) as nat, bits_per_key);
    }
}

/// The first of the directory entries, from the `from`-th on, that is for
/// the data block at `block_offset`.
pub open spec fn spec_lookup_entry(entries: Seq<SegmentEntry>, block_offset: u64, from: int) -> Option<
    SegmentEntry,
>
    decreases entries.len() - from,
{
    if from < 0 || from >= entries.len() {
        None
    } else if entries[from].block_offset == block_offset {
        Some(entries[from])
    } else {
        spec_lookup_entry(entries, block_offset, from + 1)
    }
}

/// One more directory entry is found where none before it is for the same
/// data block, and changes nothing else.
pub proof fn lemma_lookup_entry_push(
    entries: Seq<SegmentEntry>,
    entry: SegmentEntry,
    block_offset: u64,
    from: int,
)
    requires
        0 <= from <= entries.len(),
    ensures
        spec_lookup_entry(entries.push(entry), block_offset, from) == match spec_lookup_entry(
            entries,
            block_offset,
            from,
        ) {
            Some(found) => Some(found),
            None => if entry.block_offset == block_offset {
                Some(entry)
            } else {
                None
            },
        },
    decreases entries.len() - from,
{
    let grown = entries.push(entry);
    if from < entries.len() {
        assert(grown[from] == entries[from]);
        if entries[from].block_offset != block_offset {
            lemma_lookup_entry_push(entries, entry, block_offset, from + 1);
        }
    } else {
        assert(grown[from] == entry);
        assert(spec_lookup_entry(grown, block_offset, from + 1) is None);
    }
}

/// No directory entry of the first `n` data blocks is for a data block that
/// lies behind them.
pub proof fn lemma_no_entry_behind(
    blocks: Seq<BlockKeys>,
    n: nat,
    bits_per_key: nat,
    block_offset: u64,
    from: int,
)
    requires
        n <= blocks.len(),
        spec_offsets_ascend(blocks),
        0 <= from,
        forall|i: int| 0 <= i < n ==> (#[trigger] blocks[i]).block_offset < block_offset,
    ensures
        spec_lookup_entry(spec_segment_entries(blocks, n, bits_per_key), block_offset, from)
            is None,
    decreases n,
{
    let entries = spec_segment_entries(blocks, n, bits_per_key);
    if n > 0 {
        let before = spec_segment_entries(blocks, (n - 1) as nat, bits_per_key);
        lemma_no_entry_behind(blocks, (n - 1) as nat, bits_per_key, block_offset, from);
        lemma_no_entry_behind(blocks, (n - 1) as nat, bits_per_key, block_offset, 0);
        if entries.len() > before.len() {
            assert(blocks[n - 1].block_offset < block_offset);
            if from <= before.len() {
                lemma_lookup_entry_push(before, entries.last(), block_offset, from);
                assert(entries =~= before.push(entries.last()));
            }
        }
    }
}

/// The directory entry that is found for a data block tells where the
/// filter segment of the keys of that data block lies among the segments;
/// none is found where the filter block had no room for the segment.
pub proof fn lemma_entry_of_block(blocks: Seq<BlockKeys>, n: nat, bits_per_key: nat, i: int)
    requires
        n <= blocks.len(),
        spec_offsets_ascend(blocks),
        0 <= i < n,
    ensures
        match spec_lookup_entry(
            spec_segment_entries(blocks, n, bits_per_key),
            blocks[i].block_offset,
            0,
        ) {
            Some(entry) => {
                &&& entry.start + entry.len <= spec_filter_segments(blocks, n, bits_per_key).len()
                &&& spec_filter_segments(blocks, n, bits_per_key).subrange(
                    entry.start as int,
                    (entry.start + entry.len) as int,
                ) == spec_full_filter(blocks[i].keys, bits_per_key)
            },
            None => true,
        },
    decreases n,
{
    let entries = spec_segment_entries(blocks, n, bits_per_key);
    let segments = spec_filter_segments(blocks, n, bits_per_key);
    let before = spec_segment_entries(blocks, (n - 1) as nat, bits_per_key);
    let segments_before = spec_filter_segments(blocks, (n - 1) as nat, bits_per_key);
    let block_offset = blocks[i].block_offset;
    let stored = entries.len() > before.len();
    if stored {
        assert(entries =~= before.push(entries.last()));
        lemma_lookup_entry_push(before, entries.last(), block_offset, 0);
    }
    if i < n - 1 {
        lemma_entry_of_block(blocks, (n - 1) as nat, bits_per_key, i);
        match spec_lookup_entry(before, block_offset, 0) {
            Some(entry) => {
                assert(segments.subrange(entry.start as int, (entry.start + entry.len) as int)
                    =~= segments_before.subrange(
                    entry.start as int,
                    (entry.start + entry.len) as int,
                ));
            },
            None => {
                assert(blocks[i].block_offset < blocks[n - 1].block_offset);
            },
        }
    } else {
        assert forall|j: int| 0 <= j < n - 1 implies (#[trigger] blocks[j]).block_offset
            < block_offset by {
            assert(blocks[j].block_offset < blocks[n - 1].block_offset);
        }
        lemma_no_entry_behind(blocks, (n - 1) as nat, bits_per_key, block_offset, 0);
        if stored {
            let segment = spec_full_filter(blocks[i].keys, bits_per_key);
            assert(segments.subrange(
                segments_before.len() as int,
                (segments_before.len() + segment.len()) as int,
            ) =~= segment);
        }
    }
}

/// The `j`-th directory entry stands in the bytes of the directory at
/// sixteen times `j`.
pub proof fn lemma_directory_entry_bytes(entries: Seq<SegmentEntry>, n: nat, j: int)
    requires
        0 <= j < n <= entries.len(),
    ensures
        spec_encode_directory(entries, n).len() == FILTER_DIRECTORY_ENTRY_SIZE * n,
        spec_encode_directory(entries, n).subrange(
            FILTER_DIRECTORY_ENTRY_SIZE * j,
            FILTER_DIRECTORY_ENTRY_SIZE * j + FILTER_DIRECTORY_ENTRY_SIZE,
        ) == spec_encode_segment_entry(entries[j]),
    decreases n,
{
    let directory = spec_encode_directory(entries, n);
    let before = spec_encode_directory(entries, (n - 1) as nat);
    lemma_encode_directory_len(entries, n);
    lemma_encode_directory_len(entries, (n - 1) as nat);
    if j < n - 1 {
        lemma_directory_entry_bytes(entries, (n - 1) as nat, j);
        assert(directory.subrange(16 * j, 16 * j + 16) =~= before.subrange(16 * j, 16 * j + 16));
    } else {
        assert(directory.subrange(16 * j, 16 * j + 16) =~= spec_encode_segment_entry(entries[j]));
    }
}

/// What the tail and the directory of a filter block are read as.
pub proof fn lemma_filter_block_is_read(blocks: Seq<BlockKeys>, bits_per_key: nat, j: int)
    requires
        0 <= j <= spec_segment_entries(blocks, blocks.len(), bits_per_key).len(),
    ensures
        ({
            let block = spec_filter_block(blocks, bits_per_key);
            let entries = spec_segment_entries(blocks, blocks.len(), bits_per_key);
            let segments = spec_filter_segments(blocks, blocks.len(), bits_per_key);
            &&& spec_has_directory(block)
            &&& spec_directory_start(block) == segments.len()
            &&& spec_directory_count(block) == entries.len()
            &&& block.subrange(0, segments.len() as int) == segments
            &&& j < entries.len() ==> {
                &&& spec_directory_block_offset(block, j) == entries[j].block_offset
                &&& spec_directory_segment_start(block, j) == entries[j].start
                &&& spec_directory_segment_len(block, j) == entries[j].len
            }
        }),
{
    let block = spec_filter_block(blocks, bits_per_key);
    let entries = spec_segment_entries(blocks, blocks.len(), bits_per_key);
    let segments = spec_filter_segments(blocks, blocks.len(), bits_per_key);
    let directory = spec_encode_directory(entries, entries.len());
    let start = segments.len() as int;
    lemma_filter_sizes(blocks, blocks.len(), bits_per_key);
    lemma_encode_directory_len(entries, entries.len());
    lemma_decode_encode_fixed_uint32(segments.len() as u32);
    lemma_decode_encode_fixed_uint32(entries.len() as u32);
    assert(block.subrange(block.len() - 8, block.len() - 4) =~= spec_encode_fixed_uint32(
        segments.len() as u32,
    ));
    assert(block.subrange(block.len() - 4, block.len() as int) =~= spec_encode_fixed_uint32(
        entries.len() as u32,
    ));
    assert(block.subrange(0, start) =~= segments);
    if j < entries.len() {
        let entry = entries[j];
        let encoded = spec_encode_segment_entry(entry);
        let at = start + 16 * j;
        lemma_directory_entry_bytes(entries, entries.len(), j);
        lemma_decode_encode_fixed_uint64(entry.block_offset);
        lemma_decode_encode_fixed_uint32(entry.start as u32);
        lemma_decode_encode_fixed_uint32(entry.len as u32);
        assert(entry.start + entry.len <= segments.len());
        assert(block.subrange(at, at + 16) =~= directory.subrange(16 * j, 16 * j + 16));
        assert(block.subrange(at, at + 8) =~= encoded.subrange(0, 8));
        assert(encoded.subrange(0, 8) =~= spec_encode_fixed_uint64(entry.block_offset));
        assert(block.subrange(at + 8, at + 12) =~= encoded.subrange(8, 12));
        assert(encoded.subrange(8, 12) =~= spec_encode_fixed_uint32(entry.start as u32));
        assert(block.subrange(at + 12, at + 16) =~= encoded.subrange(12, 16));
        assert(encoded.subrange(12, 16) =~= spec_encode_fixed_uint32(entry.len as u32));
    }
}

/// The segment that a filter block gives for a data block is the segment
/// that the directory entry found for the data block tells of.
pub proof fn lemma_find_segment_is_lookup(
    blocks: Seq<BlockKeys>,
    bits_per_key: nat,
    block_offset: u64,
    from: int,
)
    requires
        0 <= from <= spec_segment_entries(blocks, blocks.len(), bits_per_key).len(),
    ensures
        spec_find_segment_from(spec_filter_block(blocks, bits_per_key), block_offset, from)
            == match spec_lookup_entry(
            spec_segment_entries(blocks, blocks.len(), bits_per_key),
            block_offset,
            from,
        ) {
            Some(entry) => Some(
                spec_filter_segments(blocks, blocks.len(), bits_per_key).subrange(
                    entry.start as int,
                    (entry.start + entry.len) as int,
                ),
            ),
            None => None,
        },
    decreases spec_segment_entries(blocks, blocks.len(), bits_per_key).len() - from,
{
    let block = spec_filter_block(blocks, bits_per_key);
    let entries = spec_segment_entries(blocks, blocks.len(), bits_per_key);
    let segments = spec_filter_segments(blocks, blocks.len(), bits_per_key);
    lemma_filter_block_is_read(blocks, bits_per_key, from);
    lemma_filter_sizes(blocks, blocks.len(), bits_per_key);
    if from < entries.len() {
        let entry = entries[from];
        if entry.block_offset == block_offset {
            assert(entry.start + entry.len <= segments.len());
            assert(block.subrange(entry.start as int, (entry.start + entry.len) as int)
                =~= segments.subrange(entry.start as int, (entry.start + entry.len) as int));
        } else {
            lemma_find_segment_is_lookup(blocks, bits_per_key, block_offset, from + 1);
        }
    }
}

/// The block of per-block filters excludes none of the keys of a data
/// block from that data block.
pub proof fn lemma_filter_block_is_sound(
    blocks: Seq<BlockKeys>,
    bits_per_key: nat,
    i: int,
    k: int,
)
    requires
        spec_offsets_ascend(blocks),
        0 <= i < blocks.len(),
        0 <= k < blocks[i].keys.len(),
    ensures
        spec_block_may_contain(
            spec_filter_block(blocks, bits_per_key),
            blocks[i].block_offset,
            blocks[i].keys[k],
        ),
{
    lemma_filter_block_is_read(blocks, bits_per_key, 0);
    lemma_find_segment_is_lookup(blocks, bits_per_key, blocks[i].block_offset, 0);
    lemma_entry_of_block(blocks, blocks.len(), bits_per_key, i);
    lemma_full_filter_is_sound(blocks[i].keys, bits_per_key, k);
}

} // verus!
