//! Building a table: entries come in ascending order of their keys and are
//! collected into data blocks; each block that is closed is written out and
//! noted in the index.

use vstd::prelude::*;
use crate::common::key_order::{
    internal_key_less, lemma_internal_key_less_transitive, spec_internal_key_less,
};
use crate::common::DISABLE_GLOBAL_SEQUENCE_NUMBER;
use crate::table::block_based::block::{
    lemma_stamp_entries_disabled, spec_decode_data_block, spec_entries_sorted, spec_parse_block,
    spec_user_keys, Entry,
};
use crate::table::block_based::index_reader::{
    spec_decode_index_block, spec_index_entry, IndexEntryView,
};
use crate::table::block_based::block_builder::{
    fits_empty_block, lemma_encode_block_parses, lemma_push_entry, spec_block_size,
    spec_encode_block, spec_grown_block_size, BlockBuilder,
};
use crate::table::block_based::filter_block_builder::{
    lemma_filter_block_is_sound, spec_filter_block, spec_offsets_ascend, BlockKeys,
    FilterBlockBuilder,
};
use crate::table::block_based::filter_reader::{spec_block_may_contain, FilterView};
use crate::table::block_based::full_filter_block_builder::{
    spec_full_filter, FullFilterBlockBuilder, BLOOM_FILTER_POLICY_NAME,
};
use crate::table::block_based::meta_block::{
    filter_block_name, full_filter_block_name, spec_filter_block_name, spec_find_meta_block,
    spec_find_meta_block_from, spec_full_filter_block_name,
};
use crate::table::block_based::{FILTER_BLOCK_PREFIX, FULL_FILTER_BLOCK_PREFIX};
use crate::table::block_based::options::BlockBasedTableOptions;
use crate::table::format::{
    append_block, lemma_decode_encode_handle, lemma_extension_reflexive,
    lemma_extension_transitive,
    lemma_read_block_of_extension, put_footer, put_handle, spec_encode_handle,
    spec_handle_fits, spec_is_extension, spec_parse_footer, spec_read_block, BlockHandle,
    BLOCK_HANDLE_SIZE,
};
use crate::table::block_based::table_reader::{
    spec_all_blocks_load, spec_block_entries, spec_blocks_ordered, spec_concat_blocks,
    spec_block_may_match, spec_load_block, spec_load_filter, spec_load_index, spec_open_table,
    spec_table_block_keys, spec_table_blocks, spec_table_entries, spec_table_is_ordered,
    spec_table_may_contain, TableView,
};
use crate::util::bloom::spec_key_may_match;
use crate::table::TableError;
use crate::util::{extract_user_key, spec_extract_user_key, FOOTER_SIZE};

verus! {

/// Number of bytes that an entry of the index takes beside its separator:
/// the lengths it starts with, its restart point and its block handle.
pub const INDEX_ENTRY_OVERHEAD: usize = 32;

/// The user keys of data blocks, with the offsets that the data blocks lie
/// at.
pub open spec fn spec_block_keys(blocks: Seq<Seq<Entry>>, handles: Seq<BlockHandle>) -> Seq<
    BlockKeys,
> {
    Seq::new(
        blocks.len(),
        |j: int| BlockKeys { block_offset: handles[j].offset, keys: spec_user_keys(blocks[j]) },
    )
}

/// The entry of the index for a data block.
pub open spec fn spec_index_block_entry(block: Seq<Entry>, handle: BlockHandle) -> Entry {
    Entry { key: block.last().key, value: spec_encode_handle(handle) }
}

/// Whether a table has room for one more entry: the entry fits the data
/// block that is not written out yet or a data block of its own, and the
/// index fits a separator for that data block and one for the entry.
pub open spec fn spec_has_room(view: TableBuilderView, key: Seq<u8>, value_len: nat) -> bool {
    let interval = view.options.block_restart_interval as nat;
    let separator_cost = if view.pending.len() > 0 {
        INDEX_ENTRY_OVERHEAD + view.pending.last().key.len()
    } else {
        0
    };
    &&& view.index_size + separator_cost + INDEX_ENTRY_OVERHEAD + key.len() <= u32::MAX
    &&& spec_grown_block_size(view.pending, interval, key, value_len) <= u32::MAX
        || spec_grown_block_size(Seq::empty(), interval, key, value_len) <= u32::MAX
}

/// The entries that are not written out once an entry was added: the entry
/// joins those that were not written out before, unless the data block has
/// no room for it and is written out first; and the data block of the entry
/// is written out as soon as it has the number of bytes that the options
/// give.
pub open spec fn spec_pending_after(view: TableBuilderView, entry: Entry) -> Seq<Entry> {
    let interval = view.options.block_restart_interval as nat;
    let joined = if spec_grown_block_size(view.pending, interval, entry.key, entry.value.len())
        <= u32::MAX {
        view.pending.push(entry)
    } else {
        Seq::<Entry>::empty().push(entry)
    };
    if spec_block_size(joined, interval) >= view.options.block_size {
        Seq::empty()
    } else {
        joined
    }
}

/// What adding an entry to a table comes to: the key must end with a
/// footer and come after the key added before it, and the table must have
/// room for the entry.
pub open spec fn spec_add_result(view: TableBuilderView, key: Seq<u8>, value_len: nat) -> Result<
    (),
    TableError,
> {
    if key.len() < FOOTER_SIZE {
        Err(TableError::KeyTooShort)
    } else if view.entries.len() > 0 && !spec_internal_key_less(view.entries.last().key, key) {
        Err(TableError::OrderingViolation)
    } else if !spec_has_room(view, key, value_len) {
        Err(TableError::TooLarge)
    } else {
        Ok(())
    }
}

/// Whether each of `blocks` is a sorted data block with entries that is
/// read from `file` by its handle.
pub open spec fn spec_blocks_readable(
    file: Seq<u8>,
    blocks: Seq<Seq<Entry>>,
    handles: Seq<BlockHandle>,
    interval: nat,
) -> bool {
    &&& blocks.len() == handles.len()
    &&& forall|j: int|
        0 <= j < blocks.len() ==> {
            &&& (#[trigger] blocks[j]).len() > 0
            &&& spec_entries_sorted(blocks[j])
            &&& spec_handle_fits(file, handles[j])
            &&& spec_read_block(file, handles[j]) == Ok::<Seq<u8>, TableError>(
                spec_encode_block(blocks[j], interval),
            )
            &&& spec_block_size(blocks[j], interval) <= u32::MAX
        }
    &&& spec_handles_ascend(handles)
}

/// Whether the blocks lie at ascending offsets.
pub open spec fn spec_handles_ascend(handles: Seq<BlockHandle>) -> bool {
    forall|j: int, k: int|
        0 <= j < k < handles.len() ==> (#[trigger] handles[j]).offset < (#[trigger] handles[k]).offset
}

/// Blocks that are read from a file are read from every file that begins
/// with the bytes of the first.
pub proof fn lemma_blocks_readable_of_extension(
    file: Seq<u8>,
    longer: Seq<u8>,
    blocks: Seq<Seq<Entry>>,
    handles: Seq<BlockHandle>,
    interval: nat,
)
    requires
        spec_is_extension(file, longer),
        spec_blocks_readable(file, blocks, handles, interval),
    ensures
        spec_blocks_readable(longer, blocks, handles, interval),
{
    assert forall|j: int| 0 <= j < blocks.len() implies {
        &&& (#[trigger] blocks[j]).len() > 0
        &&& spec_entries_sorted(blocks[j])
        &&& spec_handle_fits(longer, handles[j])
        &&& spec_read_block(longer, handles[j]) == Ok::<Seq<u8>, TableError>(
            spec_encode_block(blocks[j], interval),
        )
        &&& spec_block_size(blocks[j], interval) <= u32::MAX
    } by {
        assert(blocks[j].len() > 0);
        lemma_read_block_of_extension(file, longer, handles[j]);
    }
}

/// The filter that a table of these entries is written with: the
/// whole-table filter of their user keys, where the options name a filter
/// factory.
pub open spec fn spec_table_filter(options: BlockBasedTableOptions, entries: Seq<Entry>) -> Option<
    Seq<u8>,
> {
    match options.filter_factory {
        Some(factory) => Some(spec_full_filter(spec_user_keys(entries), factory.bits_per_key as nat)),
        None => None,
    }
}

/// The filter that a table is written with excludes the user key of none of
/// its entries.
pub proof fn lemma_table_filter_is_sound(
    options: BlockBasedTableOptions,
    entries: Seq<Entry>,
    i: int,
)
    requires
        0 <= i < entries.len(),
    ensures
        spec_table_filter(options, entries) matches Some(filter) ==> spec_key_may_match(
            filter,
            spec_extract_user_key(entries[i].key),
        ),
{
    match options.filter_factory {
        Some(factory) => {
            crate::table::block_based::full_filter_block_builder::lemma_full_filter_is_sound(
                spec_user_keys(entries),
                factory.bits_per_key as nat,
                i,
            );
        },
        None => {},
    }
}

/// The filter of a table that was built excludes the user key of none of
/// its entries from the data block of the entry: no lookup of a key that
/// was added is turned down by the filter.
pub proof fn lemma_filter_passes_added_keys(
    file: Seq<u8>,
    options: BlockBasedTableOptions,
    entries: Seq<Entry>,
    table: TableView,
    block: int,
    entry: int,
)
    requires
        spec_is_table_of(file, options, entries),
        spec_open_table(file, DISABLE_GLOBAL_SEQUENCE_NUMBER) == Ok::<TableView, TableError>(
            table,
        ),
        spec_table_blocks(file, DISABLE_GLOBAL_SEQUENCE_NUMBER) matches Some(blocks) && 0 <= block
            < blocks.len() && 0 <= entry < blocks[block].len(),
    ensures
        spec_table_blocks(file, DISABLE_GLOBAL_SEQUENCE_NUMBER) matches Some(blocks)
            && spec_block_may_match(
            table,
            block,
            spec_extract_user_key(blocks[block][entry].key),
        ) && spec_table_may_contain(table, spec_extract_user_key(blocks[block][entry].key)),
{
    let blocks = spec_table_blocks(file, DISABLE_GLOBAL_SEQUENCE_NUMBER)->0;
    let block_keys = spec_table_block_keys(file, DISABLE_GLOBAL_SEQUENCE_NUMBER);
    let user_key = spec_extract_user_key(blocks[block][entry].key);
    let place = spec_concat_blocks(blocks, block as nat).len() + entry;
    crate::table::block_based::table_reader::lemma_concat_blocks_entry(
        blocks,
        block,
        blocks.len() as int,
        entry,
    );
    assert(spec_user_keys(entries)[place] == user_key);
    lemma_table_filter_is_sound(options, entries, place);
    match options.block_filter_factory {
        Some(factory) => {
            assert(block_keys[block].keys[entry] == user_key);
            lemma_filter_block_is_sound(block_keys, factory.bits_per_key as nat, block, entry);
        },
        None => {},
    }
}

/// The block of per-block filters that a table of these data blocks is
/// written with, where the options name a factory of per-block filters.
pub open spec fn spec_table_block_filter(
    options: BlockBasedTableOptions,
    block_keys: Seq<BlockKeys>,
) -> Option<Seq<u8>> {
    match options.block_filter_factory {
        Some(factory) => Some(spec_filter_block(block_keys, factory.bits_per_key as nat)),
        None => None,
    }
}

/// The names of the two filter blocks are different and short enough for
/// an entry of the meta index block.
pub proof fn lemma_filter_names()
    ensures
        spec_full_filter_block_name(BLOOM_FILTER_POLICY_NAME).len() <= 0x1000,
        spec_filter_block_name(BLOOM_FILTER_POLICY_NAME).len() <= 0x1000,
        spec_filter_block_name(BLOOM_FILTER_POLICY_NAME) != spec_full_filter_block_name(
            BLOOM_FILTER_POLICY_NAME,
        ),
{
    reveal_strlit("filter.");
    reveal_strlit("fullfilter.");
    reveal_strlit("bloom.fnv1a");
    vstd::string::is_ascii_spec_bytes(FILTER_BLOCK_PREFIX);
    vstd::string::is_ascii_spec_bytes(FULL_FILTER_BLOCK_PREFIX);
    vstd::string::is_ascii_spec_bytes(BLOOM_FILTER_POLICY_NAME);
    assert(spec_filter_block_name(BLOOM_FILTER_POLICY_NAME)[1] == 105);
    assert(spec_full_filter_block_name(BLOOM_FILTER_POLICY_NAME)[1] == 117);
}

/// Whether `file` is a table built with these options from these entries:
/// read without a global sequence number, it holds the entries in their
/// order, it is in order, and its meta index lists the filter blocks that
/// the options ask for, made of the user keys of the entries.
pub open spec fn spec_is_table_of(
    file: Seq<u8>,
    options: BlockBasedTableOptions,
    entries: Seq<Entry>,
) -> bool {
    &&& spec_table_entries(file, DISABLE_GLOBAL_SEQUENCE_NUMBER) == Some(entries)
    &&& spec_table_is_ordered(file, DISABLE_GLOBAL_SEQUENCE_NUMBER)
    &&& spec_load_filter(file, spec_full_filter_block_name(BLOOM_FILTER_POLICY_NAME)) == Ok::<
        Option<Seq<u8>>,
        TableError,
    >(spec_table_filter(options, entries))
    &&& spec_load_filter(file, spec_filter_block_name(BLOOM_FILTER_POLICY_NAME)) == Ok::<
        Option<Seq<u8>>,
        TableError,
    >(
        spec_table_block_filter(
            options,
            spec_table_block_keys(file, DISABLE_GLOBAL_SEQUENCE_NUMBER),
        ),
    )
}

/// What a `TableBuilder` holds.
pub struct TableBuilderView {
    /// The entries added, in their order.
    pub entries: Seq<Entry>,
    /// The last of them that are not written out yet.
    pub pending: Seq<Entry>,
    /// The bytes written out.
    pub file: Seq<u8>,
    /// The number of bytes that the index block would have now.
    pub index_size: nat,
    /// The options that the table is built with.
    pub options: BlockBasedTableOptions,
}

/// Builds the bytes of a table from entries that are added in ascending
/// order of their keys.
pub struct TableBuilder {
    options: BlockBasedTableOptions,
    file: Vec<u8>,
    data_block: BlockBuilder,
    index_block: BlockBuilder,
    filter: Option<FullFilterBlockBuilder>,
    block_filter: Option<FilterBlockBuilder>,
    last_key: Vec<u8>,
    blocks: Ghost<Seq<Seq<Entry>>>,
    handles: Ghost<Seq<BlockHandle>>,
}

impl View for TableBuilder {
    type V = TableBuilderView;

    closed spec fn view(&self) -> TableBuilderView {
        TableBuilderView {
            entries: spec_concat_blocks(self.blocks@, self.blocks@.len()) + self.data_block@.entries,
            pending: self.data_block@.entries,
            file: self.file@,
            index_size: spec_block_size(self.index_block@.entries, 1),
            options: self.options,
        }
    }
}

impl TableBuilder {
    /// The data blocks written out are found in the file by their handles.
    pub closed spec fn blocks_written(&self) -> bool {
        spec_blocks_readable(
            self.file@,
            self.blocks@,
            self.handles@,
            self.options.block_restart_interval as nat,
        )
    }

    /// The index has one entry for each data block written out, and its
    /// separators ascend towards the entries that are not written out.
    pub closed spec fn index_kept(&self) -> bool {
        let index = self.index_block@.entries;
        &&& index.len() == self.blocks@.len()
        &&& forall|j: int|
            0 <= j < index.len() ==> (#[trigger] index[j]) == spec_index_block_entry(
                self.blocks@[j],
                self.handles@[j],
            )
        &&& spec_entries_sorted(index)
        &&& forall|j: int, i: int|
            0 <= j < index.len() && 0 <= i < self.data_block@.entries.len()
                ==> spec_internal_key_less(
                (#[trigger] index[j]).key,
                (#[trigger] self.data_block@.entries[i]).key,
            )
    }

    /// The key added last is kept, and the index has room for it.
    pub closed spec fn last_key_kept(&self) -> bool {
        let entries = self@.entries;
        &&& entries.len() > 0 ==> self.last_key@ == entries.last().key && self.last_key@.len()
            >= FOOTER_SIZE
        &&& entries.len() == 0 ==> self.last_key@.len() == 0
        &&& self.data_block@.entries.len() > 0 ==> spec_block_size(self.index_block@.entries, 1)
            + INDEX_ENTRY_OVERHEAD + self.last_key@.len() <= u32::MAX
    }

    /// The filter, where the table has one, holds the user keys of the
    /// entries added.
    pub closed spec fn filter_kept(&self) -> bool {
        match self.filter {
            Some(builder) => {
                &&& self.options.filter_factory matches Some(factory)
                &&& builder.wf()
                &&& builder@.bits_per_key == factory.bits_per_key
                &&& builder@.keys == spec_user_keys(self@.entries)
            },
            None => self.options.filter_factory is None,
        }
    }

    /// The builder of per-block filters, where the table has them, holds
    /// the user keys of the data blocks written out and of the entries
    /// that are not written out yet.
    pub closed spec fn block_filter_kept(&self) -> bool {
        match self.block_filter {
            Some(builder) => {
                &&& self.options.block_filter_factory matches Some(factory)
                &&& builder.wf()
                &&& builder@.bits_per_key == factory.bits_per_key
                &&& builder@.blocks == spec_block_keys(self.blocks@, self.handles@)
                &&& builder@.pending == spec_user_keys(self.data_block@.entries)
            },
            None => self.options.block_filter_factory is None,
        }
    }

    /// The builder is in order.
    pub closed spec fn wf(&self) -> bool {
        &&& self.options.spec_is_valid()
        &&& self.data_block.wf()
        &&& self.data_block@.restart_interval == self.options.block_restart_interval
        &&& self.index_block.wf()
        &&& self.index_block@.restart_interval == 1
        &&& spec_entries_sorted(self.data_block@.entries)
        &&& spec_blocks_ordered(self.blocks@)
        &&& self.blocks_written()
        &&& self.index_kept()
        &&& self.last_key_kept()
        &&& self.filter_kept()
        &&& self.block_filter_kept()
    }

    /// Makes a builder of a table without entries.
    pub fn new(options: BlockBasedTableOptions) -> (builder: Self)
        requires
            options.spec_is_valid(),
        ensures
            builder.wf(),
            builder@.entries == Seq::<Entry>::empty(),
            builder@.pending == Seq::<Entry>::empty(),
            builder@.file == Seq::<u8>::empty(),
            builder@.options == options,
    {
        let filter = match options.filter_factory {
            Some(factory) => Some(factory.create_builder()),
            None => None,
        };
        let block_filter = match options.block_filter_factory {
            Some(factory) => Some(factory.create_builder()),
            None => None,
        };
        let builder = TableBuilder {
            options,
            file: Vec::new(),
            data_block: BlockBuilder::new(options.block_restart_interval),
            index_block: BlockBuilder::new(1),
            filter,
            block_filter,
            last_key: Vec::new(),
            blocks: Ghost(Seq::empty()),
            handles: Ghost(Seq::empty()),
        };
        proof {
            assert(builder@.entries =~= Seq::<Entry>::empty());
            assert(spec_user_keys(builder@.entries) =~= Seq::<Seq<u8>>::empty());
            assert(spec_block_keys(builder.blocks@, builder.handles@) =~= Seq::<
                BlockKeys,
            >::empty());
        }
        builder
    }

    /// Tells whether the index has room for a separator of the data block
    /// that is not written out yet and for one of `key`.
    fn index_has_room(&self, key: &[u8]) -> (has_room: bool)
        requires
            self.wf(),
        ensures
            has_room == (self@.index_size + (if self@.pending.len() > 0 {
                INDEX_ENTRY_OVERHEAD + self@.pending.last().key.len()
            } else {
                0
            }) + INDEX_ENTRY_OVERHEAD + key@.len() <= u32::MAX),
    {
        let index_size: u128 = self.index_block.current_size() as u128;
        let separator_cost: u128 = if self.data_block.is_empty() {
            0
        } else {
            INDEX_ENTRY_OVERHEAD as u128 + self.last_key.len() as u128
        };
        proof {
            if self@.pending.len() > 0 {
                assert(self@.entries.last() == self@.pending.last());
            }
        }
        index_size + separator_cost + INDEX_ENTRY_OVERHEAD as u128 + key.len() as u128
            <= 0xFFFF_FFFF
    }

    /// Tells whether the builder takes an entry, and if so, whether the data
    /// block that is not written out yet has to be written out first.
    fn check_entry(&self, key: &[u8], value_len: usize) -> (result: Result<bool, TableError>)
        requires
            self.wf(),
        ensures
            match result {
                Ok(flush_first) => {
                    &&& spec_add_result(self@, key@, value_len as nat) is Ok
                    &&& flush_first == !(spec_grown_block_size(
                        self@.pending,
                        self@.options.block_restart_interval as nat,
                        key@,
                        value_len as nat,
                    ) <= u32::MAX)
                    &&& flush_first ==> self@.pending.len() > 0
                },
                Err(error) => spec_add_result(self@, key@, value_len as nat) == Err::<
                    (),
                    TableError,
                >(error),
            },
    {
        if key.len() < FOOTER_SIZE {
            return Err(TableError::KeyTooShort);
        }
        if self.last_key.len() > 0 && !internal_key_less(self.last_key.as_slice(), key) {
            return Err(TableError::OrderingViolation);
        }
        if !self.index_has_room(key) {
            return Err(TableError::TooLarge);
        }
        if self.data_block.would_fit(key, value_len) {
            return Ok(false);
        }
        proof {
            if self@.pending.len() == 0 {
                assert(self@.pending =~= Seq::<Entry>::empty());
            }
        }
        if self.data_block.is_empty() || !fits_empty_block(
            self.options.block_restart_interval,
            key,
            value_len,
        ) {
            return Err(TableError::TooLarge);
        }
        Ok(true)
    }

    /// Puts an entry into the data block that is not written out yet.
    fn push_entry(&mut self, key: &[u8], value: &[u8])
        requires
            old(self).wf(),
            key@.len() >= FOOTER_SIZE,
            old(self)@.entries.len() > 0 ==> spec_internal_key_less(
                old(self)@.entries.last().key,
                key@,
            ),
            old(self)@.index_size + INDEX_ENTRY_OVERHEAD + key@.len() <= u32::MAX,
            spec_grown_block_size(
                old(self)@.pending,
                old(self)@.options.block_restart_interval as nat,
                key@,
                value@.len(),
            ) <= u32::MAX,
        ensures
            final(self).wf(),
            final(self)@.entries == old(self)@.entries.push(Entry { key: key@, value: value@ }),
            final(self)@.pending == old(self)@.pending.push(Entry { key: key@, value: value@ }),
            final(self)@.file == old(self)@.file,
            final(self)@.options == old(self)@.options,
    {
        let ghost entry = Entry { key: key@, value: value@ };
        let ghost before = *self;
        let added = self.data_block.add(key, value);
        assert(added is Ok);
        match &mut self.filter {
            Some(filter) => {
                filter.add_key(extract_user_key(key));
            },
            None => {},
        }
        match &mut self.block_filter {
            Some(filter) => {
                filter.add_key(extract_user_key(key));
            },
            None => {},
        }
        self.last_key.clear();
        self.last_key.extend_from_slice(key);
        proof {
            assert(self.last_key@ =~= key@);
            lemma_entry_added(before, *self, entry);
        }
    }

    /// Adds an entry behind those added before. An entry that is not taken
    /// leaves the builder and the bytes written out as they are.
    pub fn add(&mut self, key: &[u8], value: &[u8]) -> (result: Result<(), TableError>)
        requires
            old(self).wf(),
        ensures
            final(self).wf(),
            result == spec_add_result(old(self)@, key@, value@.len()),
            result is Err ==> final(self)@ == old(self)@,
            result is Ok ==> {
                &&& final(self)@.entries == old(self)@.entries.push(
                    Entry { key: key@, value: value@ },
                )
                &&& final(self)@.pending == spec_pending_after(
                    old(self)@,
                    Entry { key: key@, value: value@ },
                )
                &&& final(self)@.options == old(self)@.options
                &&& spec_is_extension(old(self)@.file, final(self)@.file)
            },
    {
        let flush_first: bool = match self.check_entry(key, value.len()) {
            Ok(flush_first) => flush_first,
            Err(error) => {
                return Err(error);
            },
        };
        if flush_first {
            self.flush();
        }
        let ghost flushed = self@.file;
        self.push_entry(key, value);
        if self.data_block.current_size() >= self.options.block_size {
            self.flush();
        }
        proof {
            lemma_extension_reflexive(flushed);
            lemma_extension_transitive(old(self)@.file, flushed, self@.file);
        }
        Ok(())
    }

    /// Writes out what is not written out yet, then the filter, the meta
    /// index, the index and the footer, and hands out the bytes of the
    /// table. Read without a global sequence number, the table holds the
    /// entries added, and its filter excludes none of their user keys.
    pub fn finish(self) -> (file: Vec<u8>)
        requires
            self.wf(),
        ensures
            spec_is_extension(self@.file, file@),
            spec_is_table_of(file@, self@.options, self@.entries),
    {
        let mut builder = self;
        if !builder.data_block.is_empty() {
            builder.flush();
        }
        let ghost blocks = builder.blocks@;
        let ghost handles = builder.handles@;
        let ghost interval = builder.options.block_restart_interval as nat;
        let ghost index = builder.index_block@.entries;
        let ghost written = builder.file@;
        assert(self@.entries =~= spec_concat_blocks(blocks, blocks.len()));
        let TableBuilder {
            options,
            file,
            data_block,
            index_block,
            filter,
            block_filter,
            last_key,
            blocks: _,
            handles: _,
        } = builder;
        let mut file = file;
        let mut index_block = index_block;
        let (meta_payload, filter_handle, block_filter_handle) = write_filters(
            &mut file,
            &filter,
            &block_filter,
        );
        let ghost with_filter = file@;
        let index_payload: Vec<u8> = index_block.finish();
        let (metaindex_handle, index_handle) = write_tail(
            &mut file,
            meta_payload.as_slice(),
            index_payload.as_slice(),
        );
        proof {
            lemma_extension_reflexive(written);
            lemma_extension_transitive(written, with_filter, file@);
            lemma_extension_transitive(self@.file, written, file@);
            lemma_blocks_readable_of_extension(written, file@, blocks, handles, interval);
            crate::table::block_based::block_builder::lemma_encode_block_len(index, 1);
            lemma_finished_table(
                file@,
                blocks,
                handles,
                interval,
                metaindex_handle,
                index_handle,
                index,
            );
            lemma_meta_entries_are_found(block_filter_handle, filter_handle);
            match filter_handle {
                Some(handle) => {
                    lemma_read_block_of_extension(with_filter, file@, handle);
                },
                None => {},
            }
            match block_filter_handle {
                Some(handle) => {
                    lemma_read_block_of_extension(with_filter, file@, handle);
                },
                None => {},
            }
        }
        file
    }

    /// Writes the entries that are not written out yet as one data block
    /// and notes the block in the index.
    fn flush(&mut self)
        requires
            old(self).wf(),
            old(self)@.pending.len() > 0,
        ensures
            final(self).wf(),
            final(self)@.entries == old(self)@.entries,
            final(self)@.pending == Seq::<Entry>::empty(),
            final(self)@.options == old(self)@.options,
            spec_is_extension(old(self)@.file, final(self)@.file),
            final(self)@.index_size <= old(self)@.index_size + INDEX_ENTRY_OVERHEAD
                + old(self).last_key@.len(),
            final(self).last_key@ == old(self).last_key@,
    {
        let ghost pending = self.data_block@.entries;
        let ghost interval = self.options.block_restart_interval as nat;
        let ghost old_file = self.file@;
        let ghost old_index = self.index_block@.entries;
        let payload: Vec<u8> = self.data_block.finish();
        let handle: BlockHandle = append_block(&mut self.file, payload.as_slice());
        let mut handle_bytes: Vec<u8> = Vec::new();
        put_handle(&mut handle_bytes, handle);
        let ghost entry = Entry { key: self.last_key@, value: handle_bytes@ };
        proof {
            lemma_decode_encode_handle(handle);
            assert(handle_bytes@ =~= spec_encode_handle(handle));
            lemma_push_entry(
                old_index,
                Entry { key: self.last_key@, value: Seq::new(16, |i: int| 0u8) },
                1,
            );
            lemma_push_entry(old_index, entry, 1);
        }
        let added = self.index_block.add(self.last_key.as_slice(), handle_bytes.as_slice());
        assert(added is Ok);
        match &mut self.block_filter {
            Some(filter) => {
                proof {
                    if self.blocks@.len() > 0 {
                        let last = self.blocks@.len() - 1;
                        assert(self.blocks@[last].len() > 0);
                        assert(filter@.blocks[last].block_offset == self.handles@[last].offset);
                    }
                }
                filter.finish_block(handle.offset);
            },
            None => {},
        }
        proof {
            let blocks = self.blocks@.push(pending);
            lemma_concat_blocks_push(self.blocks@, pending);
            assert(spec_concat_blocks(blocks, blocks.len()) + Seq::<Entry>::empty()
                =~= spec_concat_blocks(self.blocks@, self.blocks@.len()) + pending);
            assert(pending.last().key == self.last_key@);
        }
        self.blocks = Ghost(self.blocks@.push(pending));
        self.handles = Ghost(self.handles@.push(handle));
        proof {
            crate::table::block_based::block_builder::lemma_encode_block_len(pending, interval);
            lemma_blocks_readable_of_extension(
                old_file,
                self.file@,
                old(self).blocks@,
                old(self).handles@,
                interval,
            );
            assert forall|j: int| 0 <= j < self.blocks@.len() implies {
                &&& (#[trigger] self.blocks@[j]).len() > 0
                &&& spec_entries_sorted(self.blocks@[j])
                &&& spec_handle_fits(self.file@, self.handles@[j])
                &&& spec_read_block(self.file@, self.handles@[j]) == Ok::<Seq<u8>, TableError>(
                    spec_encode_block(self.blocks@[j], interval),
                )
                &&& spec_block_size(self.blocks@[j], interval) <= u32::MAX
            } by {
                if j < old(self).blocks@.len() {
                    assert(self.blocks@[j] == old(self).blocks@[j]);
                    assert(self.handles@[j] == old(self).handles@[j]);
                }
            }
            assert forall|j: int, k: int| 0 <= j < k < self.handles@.len() implies (
            #[trigger] self.handles@[j]).offset < (#[trigger] self.handles@[k]).offset by {
                assert(self.handles@[j] == old(self).handles@[j]);
                assert(old(self).blocks@[j].len() > 0);
                if k < old(self).handles@.len() {
                    assert(self.handles@[k] == old(self).handles@[k]);
                }
            }
            assert(self.blocks_written());
            let index = self.index_block@.entries;
            assert(index == old_index.push(entry));
            assert forall|j: int| 0 <= j < index.len() implies (#[trigger] index[j]).key.len()
                >= FOOTER_SIZE by {
                if j < old_index.len() {
                    assert(index[j] == old_index[j]);
                } else {
                    assert(pending[pending.len() - 1].key.len() >= FOOTER_SIZE);
                }
            }
            assert forall|a: int, b: int| 0 <= a < b < index.len() implies spec_internal_key_less(
                (#[trigger] index[a]).key,
                (#[trigger] index[b]).key,
            ) by {
                assert(index[a] == old_index[a]);
                if b < old_index.len() {
                    assert(index[b] == old_index[b]);
                } else {
                    assert(spec_internal_key_less(
                        old_index[a].key,
                        pending[pending.len() - 1].key,
                    ));
                }
            }
            assert(self.index_kept());
            assert(self.last_key_kept());
            assert(self.filter_kept());
            assert(spec_user_keys(self.data_block@.entries) =~= Seq::<Seq<u8>>::empty());
            assert(spec_block_keys(self.blocks@, self.handles@) =~= spec_block_keys(
                old(self).blocks@,
                old(self).handles@,
            ).push(BlockKeys { block_offset: handle.offset, keys: spec_user_keys(pending) }));
            assert(self.block_filter_kept());
            lemma_blocks_ordered_push(old(self).blocks@, pending, old_index, old(self).handles@);
        }
    }
}

/// The entries of the meta index block of a table whose filter blocks have
/// these handles: first the entry of the per-block filters, then the entry
/// of the whole-table filter.
pub open spec fn spec_meta_entries(
    block_filter_handle: Option<BlockHandle>,
    filter_handle: Option<BlockHandle>,
) -> Seq<Entry> {
    let first = match block_filter_handle {
        Some(handle) => seq![
            Entry {
                key: spec_filter_block_name(BLOOM_FILTER_POLICY_NAME),
                value: spec_encode_handle(handle),
            },
        ],
        None => Seq::empty(),
    };
    let second = match filter_handle {
        Some(handle) => seq![
            Entry {
                key: spec_full_filter_block_name(BLOOM_FILTER_POLICY_NAME),
                value: spec_encode_handle(handle),
            },
        ],
        None => Seq::empty(),
    };
    first + second
}

/// Each filter block is found in the meta index block under its name.
pub proof fn lemma_meta_entries_are_found(
    block_filter_handle: Option<BlockHandle>,
    filter_handle: Option<BlockHandle>,
)
    ensures
        spec_find_meta_block(
            spec_meta_entries(block_filter_handle, filter_handle),
            spec_filter_block_name(BLOOM_FILTER_POLICY_NAME),
        ) == block_filter_handle,
        spec_find_meta_block(
            spec_meta_entries(block_filter_handle, filter_handle),
            spec_full_filter_block_name(BLOOM_FILTER_POLICY_NAME),
        ) == filter_handle,
{
    let entries = spec_meta_entries(block_filter_handle, filter_handle);
    let name = spec_filter_block_name(BLOOM_FILTER_POLICY_NAME);
    let full_name = spec_full_filter_block_name(BLOOM_FILTER_POLICY_NAME);
    lemma_filter_names();
    match block_filter_handle {
        Some(handle) => {
            lemma_decode_encode_handle(handle);
            assert(entries[0].key == name);
        },
        None => {},
    }
    match filter_handle {
        Some(handle) => {
            lemma_decode_encode_handle(handle);
            assert(entries[entries.len() - 1].key == full_name);
        },
        None => {},
    }
    assert(spec_find_meta_block_from(entries, name, 2) is None);
    assert(spec_find_meta_block_from(entries, full_name, 2) is None);
    if entries.len() >= 1 {
        assert(spec_find_meta_block_from(entries, name, 1) is None);
    }
    if entries.len() == 1 {
        assert(spec_find_meta_block_from(entries, full_name, 1) is None);
    }
}

/// Appends a filter block to `file` and notes it in the meta index block
/// under `name`.
fn write_filter_block(file: &mut Vec<u8>, meta: &mut BlockBuilder, name: &[u8], data: &[u8]) -> (handle:
    BlockHandle)
    requires
        old(meta).wf(),
        old(meta)@.restart_interval == 1,
        old(meta)@.entries.len() <= 1,
        old(meta)@.entries.len() == 1 ==> old(meta)@.entries[0].key.len() <= 0x1000
            && old(meta)@.entries[0].value.len() == BLOCK_HANDLE_SIZE,
        name@.len() <= 0x1000,
    ensures
        final(meta).wf(),
        final(meta)@.restart_interval == 1,
        final(meta)@.entries == old(meta)@.entries.push(
            Entry { key: name@, value: spec_encode_handle(handle) },
        ),
        spec_is_extension(old(file)@, final(file)@),
        spec_handle_fits(final(file)@, handle),
        spec_read_block(final(file)@, handle) == Ok::<Seq<u8>, TableError>(data@),
{
    let handle: BlockHandle = append_block(file, data);
    let mut handle_bytes: Vec<u8> = Vec::new();
    put_handle(&mut handle_bytes, handle);
    proof {
        lemma_decode_encode_handle(handle);
        assert(handle_bytes@ =~= spec_encode_handle(handle));
        let entries = meta@.entries;
        lemma_push_entry(entries, Entry { key: name@, value: Seq::new(16, |i: int| 0u8) }, 1);
        crate::table::block_based::block_builder::lemma_encode_block_len(entries, 1);
        if entries.len() == 1 {
            assert(entries =~= Seq::<Entry>::empty().push(entries[0]));
            lemma_push_entry(Seq::empty(), entries[0], 1);
        } else {
            assert(entries =~= Seq::<Entry>::empty());
        }
    }
    let added = meta.add(name, handle_bytes.as_slice());
    assert(added is Ok);
    handle
}

/// Writes the filter blocks that the table has, and makes the meta index
/// block that names them.
fn write_filters(
    file: &mut Vec<u8>,
    filter: &Option<FullFilterBlockBuilder>,
    block_filter: &Option<FilterBlockBuilder>,
) -> (result: (Vec<u8>, Option<BlockHandle>, Option<BlockHandle>))
    requires
        filter matches Some(builder) ==> builder.wf(),
        block_filter matches Some(builder) ==> builder.wf(),
    ensures
        spec_is_extension(old(file)@, final(file)@),
        spec_parse_block(result.0@) == Some(spec_meta_entries(result.2, result.1)),
        match *filter {
            Some(builder) => result.1 matches Some(handle) && spec_handle_fits(
                final(file)@,
                handle,
            ) && spec_read_block(final(file)@, handle) == Ok::<Seq<u8>, TableError>(
                spec_full_filter(builder@.keys, builder@.bits_per_key),
            ),
            None => result.1 is None,
        },
        match *block_filter {
            Some(builder) => result.2 matches Some(handle) && spec_handle_fits(
                final(file)@,
                handle,
            ) && spec_read_block(final(file)@, handle) == Ok::<Seq<u8>, TableError>(
                spec_filter_block(builder@.blocks, builder@.bits_per_key),
            ),
            None => result.2 is None,
        },
{
    let mut meta = BlockBuilder::new(1);
    proof {
        lemma_filter_names();
        lemma_extension_reflexive(file@);
    }
    let block_filter_handle: Option<BlockHandle> = match block_filter {
        Some(builder) => {
            let name: Vec<u8> = filter_block_name(BLOOM_FILTER_POLICY_NAME);
            let data: Vec<u8> = builder.finish();
            Some(write_filter_block(file, &mut meta, name.as_slice(), data.as_slice()))
        },
        None => None,
    };
    let ghost with_block_filter = file@;
    proof {
        match block_filter_handle {
            Some(handle) => {
                lemma_decode_encode_handle(handle);
            },
            None => {},
        }
    }
    let filter_handle: Option<BlockHandle> = match filter {
        Some(builder) => {
            let name: Vec<u8> = full_filter_block_name(BLOOM_FILTER_POLICY_NAME);
            let data: Vec<u8> = builder.finish();
            Some(write_filter_block(file, &mut meta, name.as_slice(), data.as_slice()))
        },
        None => None,
    };
    proof {
        lemma_extension_reflexive(with_block_filter);
        lemma_extension_transitive(old(file)@, with_block_filter, file@);
        match block_filter_handle {
            Some(handle) => {
                lemma_read_block_of_extension(with_block_filter, file@, handle);
            },
            None => {},
        }
        assert(meta@.entries =~= spec_meta_entries(block_filter_handle, filter_handle));
    }
    let payload: Vec<u8> = meta.finish();
    (payload, filter_handle, block_filter_handle)
}

/// Writes the meta index block, the index block and the footer.
fn write_tail(file: &mut Vec<u8>, meta_payload: &[u8], index_payload: &[u8]) -> (handles: (
    BlockHandle,
    BlockHandle,
))
    ensures
        spec_is_extension(old(file)@, final(file)@),
        spec_parse_footer(final(file)@) == Some(handles),
        spec_read_block(final(file)@, handles.0) == Ok::<Seq<u8>, TableError>(meta_payload@),
        spec_read_block(final(file)@, handles.1) == Ok::<Seq<u8>, TableError>(index_payload@),
{
    let metaindex_handle: BlockHandle = append_block(file, meta_payload);
    let ghost with_meta = file@;
    let index_handle: BlockHandle = append_block(file, index_payload);
    let ghost with_index = file@;
    put_footer(file, metaindex_handle, index_handle);
    proof {
        lemma_read_block_of_extension(with_meta, with_index, metaindex_handle);
        lemma_read_block_of_extension(with_index, file@, metaindex_handle);
        lemma_read_block_of_extension(with_index, file@, index_handle);
        lemma_extension_transitive(old(file)@, with_meta, with_index);
        lemma_extension_transitive(old(file)@, with_index, file@);
    }
    (metaindex_handle, index_handle)
}

/// Ordered blocks stay ordered with one more block behind them whose keys
/// come after the separators of all of them.
proof fn lemma_blocks_ordered_push(
    blocks: Seq<Seq<Entry>>,
    block: Seq<Entry>,
    index: Seq<Entry>,
    handles: Seq<BlockHandle>,
)
    requires
        spec_blocks_ordered(blocks),
        block.len() > 0,
        spec_entries_sorted(block),
        index.len() == blocks.len(),
        forall|j: int|
            0 <= j < index.len() ==> (#[trigger] index[j]) == spec_index_block_entry(
                blocks[j],
                handles[j],
            ),
        forall|j: int, i: int|
            0 <= j < index.len() && 0 <= i < block.len() ==> spec_internal_key_less(
                (#[trigger] index[j]).key,
                (#[trigger] block[i]).key,
            ),
    ensures
        spec_blocks_ordered(blocks.push(block)),
{
    let grown = blocks.push(block);
    assert forall|j: int| 0 <= j < grown.len() implies (#[trigger] grown[j]).len() > 0
        && spec_entries_sorted(grown[j]) by {
        if j < blocks.len() {
            assert(grown[j] == blocks[j]);
        }
    }
    assert forall|j: int, k: int, i: int|
        0 <= j < k < grown.len() && 0 <= i < grown[k].len() implies spec_internal_key_less(
        (#[trigger] grown[j]).last().key,
        (#[trigger] grown[k][i]).key,
    ) by {
        assert(grown[j] == blocks[j]);
        if k < blocks.len() {
            assert(grown[k] == blocks[k]);
            assert(spec_internal_key_less(blocks[j].last().key, blocks[k][i].key));
        } else {
            assert(index[j] == spec_index_block_entry(blocks[j], handles[j]));
            assert(spec_internal_key_less(index[j].key, block[i].key));
        }
    }
}

/// A sorted data block that was written out is loaded as it was.
pub proof fn lemma_written_block_loads(
    file: Seq<u8>,
    block: Seq<Entry>,
    handle: BlockHandle,
    interval: nat,
)
    requires
        spec_entries_sorted(block),
        spec_block_size(block, interval) <= u32::MAX,
        spec_read_block(file, handle) == Ok::<Seq<u8>, TableError>(
            spec_encode_block(block, interval),
        ),
    ensures
        spec_load_block(file, handle, DISABLE_GLOBAL_SEQUENCE_NUMBER) == Ok::<
            Seq<Entry>,
            TableError,
        >(block),
{
    lemma_encode_block_parses(block, interval);
    lemma_stamp_entries_disabled(block);
}

/// A file that ends with the footer of an index block whose entries tell of
/// the data blocks written out holds the entries of those blocks.
pub proof fn lemma_finished_table(
    file: Seq<u8>,
    blocks: Seq<Seq<Entry>>,
    handles: Seq<BlockHandle>,
    interval: nat,
    metaindex_handle: BlockHandle,
    index_handle: BlockHandle,
    index: Seq<Entry>,
)
    requires
        spec_parse_footer(file) == Some((metaindex_handle, index_handle)),
        spec_read_block(file, index_handle) == Ok::<Seq<u8>, TableError>(
            spec_encode_block(index, 1),
        ),
        spec_block_size(index, 1) <= u32::MAX,
        spec_entries_sorted(index),
        index.len() == blocks.len(),
        forall|j: int|
            0 <= j < index.len() ==> (#[trigger] index[j]) == spec_index_block_entry(
                blocks[j],
                handles[j],
            ),
        spec_blocks_readable(file, blocks, handles, interval),
        spec_blocks_ordered(blocks),
    ensures
        spec_table_blocks(file, DISABLE_GLOBAL_SEQUENCE_NUMBER) == Some(blocks),
        spec_table_entries(file, DISABLE_GLOBAL_SEQUENCE_NUMBER) == Some(
            spec_concat_blocks(blocks, blocks.len()),
        ),
        spec_table_is_ordered(file, DISABLE_GLOBAL_SEQUENCE_NUMBER),
        spec_table_block_keys(file, DISABLE_GLOBAL_SEQUENCE_NUMBER) == spec_block_keys(
            blocks,
            handles,
        ),
{
    let disabled = DISABLE_GLOBAL_SEQUENCE_NUMBER;
    let payload = spec_encode_block(index, 1);
    lemma_encode_block_parses(index, 1);
    lemma_stamp_entries_disabled(index);
    assert(spec_decode_data_block(payload, disabled) == Some(index));
    assert forall|j: int| 0 <= j < index.len() implies (#[trigger] index[j]).value.len()
        == BLOCK_HANDLE_SIZE by {
        lemma_decode_encode_handle(handles[j]);
    }
    let views = index.map_values(|entry: Entry| spec_index_entry(entry));
    assert(spec_decode_index_block(payload, disabled) == Some(views));
    assert(spec_load_index(file, disabled) == Ok::<Seq<IndexEntryView>, TableError>(views));
    assert forall|j: int| 0 <= j < views.len() implies spec_load_block(
        file,
        (#[trigger] views[j]).handle,
        disabled,
    ) == Ok::<Seq<Entry>, TableError>(blocks[j]) by {
        lemma_decode_encode_handle(handles[j]);
        assert(index[j] == spec_index_block_entry(blocks[j], handles[j]));
        assert(views[j].handle == handles[j]);
        assert(blocks[j].len() > 0);
        lemma_written_block_loads(file, blocks[j], handles[j], interval);
    }
    assert(spec_all_blocks_load(file, disabled, views));
    assert(Seq::new(views.len(), |j: int| spec_block_entries(file, disabled, views, j))
        =~= blocks);
    assert forall|j: int| 0 <= j < blocks.len() implies (#[trigger] views[j]).separator
        == blocks[j].last().key && views[j].handle == handles[j] by {
        lemma_decode_encode_handle(handles[j]);
        assert(index[j] == spec_index_block_entry(blocks[j], handles[j]));
    }
    assert forall|j: int, k: int| 0 <= j < k < views.len() implies (#[trigger] views[j]).handle.offset
        < (#[trigger] views[k]).handle.offset by {
        assert(views[j].handle == handles[j]);
        assert(views[k].handle == handles[k]);
    }
    assert(spec_table_block_keys(file, disabled) =~= spec_block_keys(blocks, handles));
}

/// A builder that took one more entry into its data block is in order again.
proof fn lemma_entry_added(before: TableBuilder, after: TableBuilder, entry: Entry)
    requires
        before.wf(),
        entry.key.len() >= FOOTER_SIZE,
        before@.entries.len() > 0 ==> spec_internal_key_less(before@.entries.last().key, entry.key),
        before@.index_size + INDEX_ENTRY_OVERHEAD + entry.key.len() <= u32::MAX,
        after.options == before.options,
        after.file == before.file,
        after.index_block == before.index_block,
        after.blocks == before.blocks,
        after.handles == before.handles,
        after.data_block.wf(),
        after.data_block@.restart_interval == before.data_block@.restart_interval,
        after.data_block@.entries == before.data_block@.entries.push(entry),
        after.last_key@ == entry.key,
        match before.filter {
            Some(builder) => after.filter matches Some(grown) && grown.wf() && grown@.bits_per_key
                == builder@.bits_per_key && grown@.keys == builder@.keys.push(
                spec_extract_user_key(entry.key),
            ),
            None => after.filter is None,
        },
        match before.block_filter {
            Some(builder) => after.block_filter matches Some(grown) && grown.wf()
                && grown@.bits_per_key == builder@.bits_per_key && grown@.blocks == builder@.blocks
                && grown@.pending == builder@.pending.push(spec_extract_user_key(entry.key)),
            None => after.block_filter is None,
        },
    ensures
        after.wf(),
        after@.entries == before@.entries.push(entry),
        after@.pending == before@.pending.push(entry),
        after@.file == before@.file,
        after@.options == before@.options,
{
    let pending = before.data_block@.entries;
    let grown = after.data_block@.entries;
    let index = before.index_block@.entries;
    let blocks = before.blocks@;
    let done = spec_concat_blocks(blocks, blocks.len());
    assert(after@.entries =~= before@.entries.push(entry));
    assert(spec_user_keys(after@.entries) =~= spec_user_keys(before@.entries).push(
        spec_extract_user_key(entry.key),
    ));
    if pending.len() > 0 {
        assert(before@.entries.last() == pending.last());
    } else if blocks.len() > 0 {
        assert(blocks[blocks.len() - 1].len() > 0);
        assert(before@.entries =~= done);
        assert(done.last() == blocks[blocks.len() - 1].last());
        assert(index[index.len() - 1] == spec_index_block_entry(
            blocks[blocks.len() - 1],
            before.handles@[blocks.len() - 1],
        ));
    }
    assert forall|i: int| 0 <= i < grown.len() implies (#[trigger] grown[i]).key.len()
        >= FOOTER_SIZE by {
        if i < pending.len() {
            assert(grown[i] == pending[i]);
        }
    }
    assert forall|a: int, b: int| 0 <= a < b < grown.len() implies spec_internal_key_less(
        (#[trigger] grown[a]).key,
        (#[trigger] grown[b]).key,
    ) by {
        assert(grown[a] == pending[a]);
        if b < pending.len() {
            assert(grown[b] == pending[b]);
        } else if a < pending.len() - 1 {
            assert(spec_internal_key_less(pending[a].key, pending[pending.len() - 1].key));
            lemma_internal_key_less_transitive(
                pending[a].key,
                pending[pending.len() - 1].key,
                entry.key,
            );
        }
    }
    assert forall|j: int, i: int| 0 <= j < index.len() && 0 <= i < grown.len()
        implies spec_internal_key_less((#[trigger] index[j]).key, (#[trigger] grown[i]).key) by {
        if i < pending.len() {
            assert(grown[i] == pending[i]);
        } else if pending.len() > 0 {
            assert(spec_internal_key_less(index[j].key, pending[pending.len() - 1].key));
            lemma_internal_key_less_transitive(
                index[j].key,
                pending[pending.len() - 1].key,
                entry.key,
            );
        } else if j < index.len() - 1 {
            assert(spec_internal_key_less(index[j].key, index[index.len() - 1].key));
            lemma_internal_key_less_transitive(
                index[j].key,
                index[index.len() - 1].key,
                entry.key,
            );
        }
    }
    assert(spec_user_keys(grown) =~= spec_user_keys(pending).push(
        spec_extract_user_key(entry.key),
    ));
    assert(after.blocks_written());
    assert(after.index_kept());
    assert(after.last_key_kept());
    assert(after.filter_kept());
    assert(after.block_filter_kept());
}

/// The entries of blocks and one more block are the entries of the blocks
/// and the entries of that block.
pub proof fn lemma_concat_blocks_push(blocks: Seq<Seq<Entry>>, block: Seq<Entry>)
    ensures
        spec_concat_blocks(blocks.push(block), blocks.len() + 1) == spec_concat_blocks(
            blocks,
            blocks.len(),
        ) + block,
{
    lemma_concat_blocks_prefix(blocks, blocks.push(block), blocks.len());
}

/// The entries of the first `n` blocks do not depend on the blocks behind
/// them.
pub proof fn lemma_concat_blocks_prefix(a: Seq<Seq<Entry>>, b: Seq<Seq<Entry>>, n: nat)
    requires
        n <= a.len() <= b.len(),
        forall|j: int| 0 <= j < n ==> a[j] == b[j],
    ensures
        spec_concat_blocks(a, n) == spec_concat_blocks(b, n),
    decreases n,
{
    if n > 0 {
        lemma_concat_blocks_prefix(a, b, (n - 1) as nat);
    }
}

} // verus!
