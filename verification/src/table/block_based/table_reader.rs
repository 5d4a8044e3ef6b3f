//! Reading a table: the footer names the index block and the meta index
//! block, the index names the data blocks, and the meta index the filter.

use vstd::prelude::*;
use crate::table::block_based::block::{
    decode_block, decode_data_block, find_entry, spec_decode_data_block, spec_entries_of,
    spec_entries_sorted, spec_lower_bound, spec_parse_block, spec_user_keys, Entry, KeyValue,
};
use crate::table::block_based::filter_block_builder::BlockKeys;
use crate::table::block_based::filter_reader::{
    spec_filter_may_contain, FilterReader, FilterView,
};
use crate::table::block_based::full_filter_block_builder::BLOOM_FILTER_POLICY_NAME;
use crate::table::block_based::index_reader::{
    decode_index_block, find_block, spec_block_for, spec_decode_index_block, spec_index_of,
    spec_index_sorted, IndexEntry, IndexEntryView,
};
use crate::table::block_based::meta_block::{
    filter_block_name, find_meta_block, full_filter_block_name, spec_filter_block_name,
    spec_find_meta_block, spec_full_filter_block_name,
};
use crate::table::format::{parse_footer, read_block, spec_parse_footer, spec_read_block, BlockHandle};
use crate::common::key_order::spec_internal_key_less;
use crate::table::TableError;
use crate::util::bloom::{key_may_match, spec_key_may_match};
use crate::util::{bytes_equal, extract_user_key, spec_extract_user_key, FOOTER_SIZE};

verus! {

/// The entries of the data block that `handle` denotes, the global sequence
/// number stamped on their keys.
pub open spec fn spec_load_block(file: Seq<u8>, handle: BlockHandle, global_seqno: u64) -> Result<
    Seq<Entry>,
    TableError,
> {
    match spec_read_block(file, handle) {
        Ok(payload) => match spec_decode_data_block(payload, global_seqno) {
            Some(entries) => Ok(entries),
            None => Err(TableError::Corruption),
        },
        Err(error) => Err(error),
    }
}

/// The index of a table, the global sequence number stamped on its
/// separators.
pub open spec fn spec_load_index(file: Seq<u8>, global_seqno: u64) -> Result<
    Seq<IndexEntryView>,
    TableError,
> {
    match spec_parse_footer(file) {
        Some((metaindex_handle, index_handle)) => match spec_read_block(file, index_handle) {
            Ok(payload) => match spec_decode_index_block(payload, global_seqno) {
                Some(index) => Ok(index),
                None => Err(TableError::Corruption),
            },
            Err(error) => Err(error),
        },
        None => Err(TableError::Corruption),
    }
}

/// The entries of the meta index block of a table.
pub open spec fn spec_load_meta_index(file: Seq<u8>) -> Result<Seq<Entry>, TableError> {
    match spec_parse_footer(file) {
        Some((metaindex_handle, index_handle)) => match spec_read_block(file, metaindex_handle) {
            Ok(payload) => match spec_parse_block(payload) {
                Some(entries) => Ok(entries),
                None => Err(TableError::Corruption),
            },
            Err(error) => Err(error),
        },
        None => Err(TableError::Corruption),
    }
}

/// The filter of a table that its meta index lists under `name`; `None`
/// where it lists none.
pub open spec fn spec_load_filter(file: Seq<u8>, name: Seq<u8>) -> Result<
    Option<Seq<u8>>,
    TableError,
> {
    match spec_load_meta_index(file) {
        Ok(entries) => match spec_find_meta_block(entries, name) {
            Some(handle) => match spec_read_block(file, handle) {
                Ok(filter) => Ok(Some(filter)),
                Err(error) => Err(error),
            },
            None => Ok(None),
        },
        Err(error) => Err(error),
    }
}

/// The entries of the `j`-th data block of a table with this index; none
/// where the block cannot be loaded.
pub open spec fn spec_block_entries(
    file: Seq<u8>,
    global_seqno: u64,
    index: Seq<IndexEntryView>,
    j: int,
) -> Seq<Entry> {
    match spec_load_block(file, index[j].handle, global_seqno) {
        Ok(entries) => entries,
        Err(error) => Seq::empty(),
    }
}

/// Whether every data block of a table with this index can be loaded.
pub open spec fn spec_all_blocks_load(
    file: Seq<u8>,
    global_seqno: u64,
    index: Seq<IndexEntryView>,
) -> bool {
    forall|j: int|
        0 <= j < index.len() ==> spec_load_block(file, (#[trigger] index[j]).handle, global_seqno)
            is Ok
}

/// The entries of the first `n` of `blocks`, one block after the other.
pub open spec fn spec_concat_blocks(blocks: Seq<Seq<Entry>>, n: nat) -> Seq<Entry>
    decreases n,
{
    if n == 0 {
        Seq::empty()
    } else {
        spec_concat_blocks(blocks, (n - 1) as nat) + blocks[n - 1]
    }
}

/// Whether the blocks have entries, the keys of each block are internal keys
/// in strictly ascending order, and the last key of each block comes before
/// all keys of the blocks behind it.
pub open spec fn spec_blocks_ordered(blocks: Seq<Seq<Entry>>) -> bool {
    &&& forall|j: int|
        0 <= j < blocks.len() ==> (#[trigger] blocks[j]).len() > 0 && spec_entries_sorted(blocks[j])
    &&& forall|j: int, k: int, i: int|
        0 <= j < k < blocks.len() && 0 <= i < blocks[k].len() ==> spec_internal_key_less(
            (#[trigger] blocks[j]).last().key,
            (#[trigger] blocks[k][i]).key,
        )
}

/// The data blocks of a table; `None` where the index or one of the blocks
/// cannot be loaded.
pub open spec fn spec_table_blocks(file: Seq<u8>, global_seqno: u64) -> Option<Seq<Seq<Entry>>> {
    match spec_load_index(file, global_seqno) {
        Ok(index) => if spec_all_blocks_load(file, global_seqno, index) {
            Some(Seq::new(index.len(), |j: int| spec_block_entries(file, global_seqno, index, j)))
        } else {
            None
        },
        Err(error) => None,
    }
}

/// The entries of a table in their order; `None` where the index or a data
/// block cannot be loaded.
pub open spec fn spec_table_entries(file: Seq<u8>, global_seqno: u64) -> Option<Seq<Entry>> {
    match spec_table_blocks(file, global_seqno) {
        Some(blocks) => Some(spec_concat_blocks(blocks, blocks.len())),
        None => None,
    }
}

/// Whether a table is in order: its index and all its data blocks can be
/// loaded, the data blocks are ordered, and the separator of each data
/// block is the last key of the block.
pub open spec fn spec_table_is_ordered(file: Seq<u8>, global_seqno: u64) -> bool {
    match (spec_load_index(file, global_seqno), spec_table_blocks(file, global_seqno)) {
        (Ok(index), Some(blocks)) => {
            &&& spec_blocks_ordered(blocks)
            &&& forall|j: int|
                0 <= j < blocks.len() ==> (#[trigger] index[j]).separator == blocks[j].last().key
            &&& forall|j: int, k: int|
                0 <= j < k < index.len() ==> (#[trigger] index[j]).handle.offset
                    < (#[trigger] index[k]).handle.offset
        },
        _ => false,
    }
}

/// The user keys of the data blocks of a table, with the offsets that the
/// data blocks lie at.
pub open spec fn spec_table_block_keys(file: Seq<u8>, global_seqno: u64) -> Seq<BlockKeys> {
    match (spec_load_index(file, global_seqno), spec_table_blocks(file, global_seqno)) {
        (Ok(index), Some(blocks)) => Seq::new(
            blocks.len(),
            |j: int|
                BlockKeys {
                    block_offset: index[j].handle.offset,
                    keys: spec_user_keys(blocks[j]),
                },
        ),
        _ => Seq::empty(),
    }
}

/// What a `TableReader` holds.
pub struct TableView {
    /// The bytes of the table.
    pub file: Seq<u8>,
    /// The sequence number that is stamped on every key read, or
    /// `DISABLE_GLOBAL_SEQUENCE_NUMBER`.
    pub global_seqno: u64,
    /// The index of the table.
    pub index: Seq<IndexEntryView>,
    /// The filter of the table, where it has one.
    pub filter: Option<FilterView>,
}

/// The filter of a table: the whole-table filter that its meta index
/// lists, else the per-block filters that it lists, else none.
pub open spec fn spec_load_table_filter(file: Seq<u8>) -> Result<Option<FilterView>, TableError> {
    match spec_load_filter(file, spec_full_filter_block_name(BLOOM_FILTER_POLICY_NAME)) {
        Ok(Some(data)) => Ok(Some(FilterView::Full(data))),
        Ok(None) => match spec_load_filter(
            file,
            spec_filter_block_name(BLOOM_FILTER_POLICY_NAME),
        ) {
            Ok(Some(data)) => Ok(Some(FilterView::PerBlock(data))),
            Ok(None) => Ok(None),
            Err(error) => Err(error),
        },
        Err(error) => Err(error),
    }
}

/// What opening a table comes to: its index and its filter are loaded.
pub open spec fn spec_open_table(file: Seq<u8>, global_seqno: u64) -> Result<TableView, TableError> {
    match spec_load_index(file, global_seqno) {
        Ok(index) => match spec_load_table_filter(file) {
            Ok(filter) => Ok(TableView { file, global_seqno, index, filter }),
            Err(error) => Err(error),
        },
        Err(error) => Err(error),
    }
}

/// Whether the filter of a table leaves it open that a user key is among
/// the keys of the table. Only a whole-table filter excludes a key from the
/// table.
pub open spec fn spec_table_may_contain(table: TableView, user_key: Seq<u8>) -> bool {
    match table.filter {
        Some(FilterView::Full(data)) => spec_key_may_match(data, user_key),
        _ => true,
    }
}

/// Whether the filter of a table leaves it open that a user key is among
/// the keys of its `j`-th data block. A table without a filter excludes
/// nothing.
pub open spec fn spec_block_may_match(table: TableView, j: int, user_key: Seq<u8>) -> bool {
    match table.filter {
        Some(filter) => spec_filter_may_contain(filter, table.index[j].handle.offset, user_key),
        None => true,
    }
}

/// What a lookup of the internal key `target` comes to. The first data
/// block whose separator does not come before `target` is the block of
/// the lookup. Where the filter excludes the user key from that block,
/// nothing is found. Else the block is loaded, and its first entry whose
/// key does not come before `target` is found if it has the user key of
/// `target`.
pub open spec fn spec_get(table: TableView, target: Seq<u8>) -> Result<Option<Entry>, TableError> {
    let block = spec_block_for(table.index, target);
    if block >= table.index.len() {
        Ok(None)
    } else if !spec_block_may_match(table, block, spec_extract_user_key(target)) {
        Ok(None)
    } else {
        match spec_load_block(table.file, table.index[block].handle, table.global_seqno) {
            Ok(entries) => {
                let i = spec_lower_bound(entries, target);
                if i < entries.len() && spec_extract_user_key(entries[i].key)
                    == spec_extract_user_key(target) {
                    Ok(Some(entries[i]))
                } else {
                    Ok(None)
                }
            },
            Err(error) => Err(error),
        }
    }
}

/// A table that was opened: its bytes, its index and its filter.
pub struct TableReader {
    file: Vec<u8>,
    global_seqno: u64,
    index: Vec<IndexEntry>,
    filter: Option<FilterReader>,
}

impl View for TableReader {
    type V = TableView;

    closed spec fn view(&self) -> TableView {
        TableView {
            file: self.file@,
            global_seqno: self.global_seqno,
            index: spec_index_of(self.index@),
            filter: match self.filter {
                Some(reader) => Some(reader@),
                None => None,
            },
        }
    }
}

impl TableReader {
    /// The reader holds what opening its bytes comes to, and the separators
    /// of its index ascend.
    pub closed spec fn wf(&self) -> bool {
        &&& spec_open_table(self@.file, self@.global_seqno) == Ok::<TableView, TableError>(self@)
        &&& spec_index_sorted(self@.index)
    }

    /// Opens a table: reads its footer, its index and its filter. Every key
    /// read from the table will carry `global_seqno`, unless that is
    /// `DISABLE_GLOBAL_SEQUENCE_NUMBER`.
    pub fn open(file: Vec<u8>, global_seqno: u64) -> (result: Result<TableReader, TableError>)
        ensures
            match spec_open_table(file@, global_seqno) {
                Ok(table) => result matches Ok(reader) && reader.wf() && reader@ == table,
                Err(error) => result matches Err(found) && found == error,
            },
    {
        let (metaindex_handle, index_handle) = match parse_footer(file.as_slice()) {
            Ok(handles) => handles,
            Err(error) => {
                return Err(error);
            },
        };
        let index: Vec<IndexEntry> = match read_block(file.as_slice(), index_handle) {
            Ok(payload) => match decode_index_block(payload, global_seqno) {
                Ok(index) => index,
                Err(error) => {
                    return Err(error);
                },
            },
            Err(error) => {
                return Err(error);
            },
        };
        let filter: Option<FilterReader> = match load_table_filter(
            file.as_slice(),
            metaindex_handle,
        ) {
            Ok(filter) => filter,
            Err(error) => {
                return Err(error);
            },
        };
        Ok(TableReader { file, global_seqno, index, filter })
    }

    /// The separators of the index of a reader that is in order ascend.
    pub proof fn lemma_index_is_sorted(&self)
        requires
            self.wf(),
        ensures
            spec_index_sorted(self@.index),
    {
    }

    /// The number of data blocks of the table.
    pub fn block_count(&self) -> (count: usize)
        ensures
            count == self@.index.len(),
    {
        self.index.len()
    }

    /// The index of the table.
    pub fn index(&self) -> (index: &Vec<IndexEntry>)
        ensures
            spec_index_of(index@) == self@.index,
    {
        &self.index
    }

    /// The sequence number that is stamped on every key read.
    pub fn global_seqno(&self) -> (global_seqno: u64)
        ensures
            global_seqno == self@.global_seqno,
    {
        self.global_seqno
    }

    /// Loads the `j`-th data block of the table.
    pub fn load_block(&self, j: usize) -> (result: Result<Vec<KeyValue>, TableError>)
        requires
            j < self@.index.len(),
        ensures
            match spec_load_block(self@.file, self@.index[j as int].handle, self@.global_seqno) {
                Ok(entries) => result matches Ok(pairs) && spec_entries_of(pairs@) == entries
                    && spec_entries_sorted(entries),
                Err(error) => result matches Err(found) && found == error,
            },
    {
        assert(self@.index[j as int] == self.index@[j as int]@);
        match read_block(self.file.as_slice(), self.index[j].handle) {
            Ok(payload) => decode_data_block(payload, self.global_seqno),
            Err(error) => Err(error),
        }
    }

    /// Looks the internal key `target` up: finds the first entry that does
    /// not come before it, if that entry has its user key. The filter is
    /// asked first, and no data block is loaded where it excludes the key.
    pub fn get(&self, target: &[u8]) -> (result: Result<Option<KeyValue>, TableError>)
        requires
            self.wf(),
            target@.len() >= FOOTER_SIZE,
        ensures
            match spec_get(self@, target@) {
                Ok(Some(entry)) => result matches Ok(Some(pair)) && pair@ == entry,
                Ok(None) => result matches Ok(None),
                Err(error) => result matches Err(found) && found == error,
            },
    {
        let user_key = extract_user_key(target);
        let block: usize = find_block(&self.index, target);
        if block >= self.index.len() {
            return Ok(None);
        }
        assert(self@.index[block as int] == self.index@[block as int]@);
        let may_match: bool = match &self.filter {
            Some(filter) => filter.key_may_match(self.index[block].handle.offset, user_key),
            None => true,
        };
        if !may_match {
            return Ok(None);
        }
        let mut entries: Vec<KeyValue> = match self.load_block(block) {
            Ok(entries) => entries,
            Err(error) => {
                return Err(error);
            },
        };
        let i: usize = find_entry(&entries, target);
        if i >= entries.len() {
            return Ok(None);
        }
        assert(spec_entries_of(entries@)[i as int] == entries@[i as int]@);
        if !bytes_equal(extract_user_key(entries[i].key.as_slice()), user_key) {
            return Ok(None);
        }
        Ok(Some(entries.swap_remove(i)))
    }

    /// Tells whether the filter of the table leaves it open that a user
    /// key is in the table; `false` means that it is not.
    pub fn key_may_match(&self, user_key: &[u8]) -> (may_match: bool)
        ensures
            may_match == spec_table_may_contain(self@, user_key@),
    {
        match &self.filter {
            Some(FilterReader::Full { data }) => key_may_match(data.as_slice(), user_key),
            _ => true,
        }
    }
}

/// Loads the filter that the meta index block lists under `name`, where it
/// lists one.
fn load_filter(file: &[u8], metaindex_handle: BlockHandle, name: &[u8]) -> (result: Result<
    Option<Vec<u8>>,
    TableError,
>)
    requires
        spec_parse_footer(file@) matches Some(handles) && handles.0 == metaindex_handle,
    ensures
        match spec_load_filter(file@, name@) {
            Ok(Some(filter)) => result matches Ok(Some(data)) && data@ == filter,
            Ok(None) => result matches Ok(None),
            Err(error) => result matches Err(found) && found == error,
        },
{
    let entries: Vec<KeyValue> = match read_block(file, metaindex_handle) {
        Ok(payload) => match decode_block(payload) {
            Ok(entries) => entries,
            Err(error) => {
                return Err(error);
            },
        },
        Err(error) => {
            return Err(error);
        },
    };
    match find_meta_block(&entries, name) {
        Some(handle) => match read_block(file, handle) {
            Ok(payload) => {
                let mut data: Vec<u8> = Vec::new();
                data.extend_from_slice(payload);
                assert(data@ =~= payload@);
                Ok(Some(data))
            },
            Err(error) => Err(error),
        },
        None => Ok(None),
    }
}

/// Loads the filter of a table: the whole-table filter where the meta index
/// block lists one, else the per-block filters where it lists them.
fn load_table_filter(file: &[u8], metaindex_handle: BlockHandle) -> (result: Result<
    Option<FilterReader>,
    TableError,
>)
    requires
        spec_parse_footer(file@) matches Some(handles) && handles.0 == metaindex_handle,
    ensures
        match spec_load_table_filter(file@) {
            Ok(Some(filter)) => result matches Ok(Some(reader)) && reader@ == filter,
            Ok(None) => result matches Ok(None),
            Err(error) => result matches Err(found) && found == error,
        },
{
    let full_name: Vec<u8> = full_filter_block_name(BLOOM_FILTER_POLICY_NAME);
    match load_filter(file, metaindex_handle, full_name.as_slice()) {
        Ok(Some(data)) => Ok(Some(FilterReader::Full { data })),
        Ok(None) => {
            let name: Vec<u8> = filter_block_name(BLOOM_FILTER_POLICY_NAME);
            match load_filter(file, metaindex_handle, name.as_slice()) {
                Ok(Some(data)) => Ok(Some(FilterReader::PerBlock { data })),
                Ok(None) => Ok(None),
                Err(error) => Err(error),
            }
        },
        Err(error) => Err(error),
    }
}

/// The entries of the first blocks are the beginning of the entries of
/// more blocks, and each entry of a block stands in the run of all entries
/// behind the entries of the blocks before its own.
pub proof fn lemma_concat_blocks_entry(blocks: Seq<Seq<Entry>>, j: int, n: int, entry: int)
    requires
        0 <= j < n <= blocks.len(),
        0 <= entry < blocks[j].len(),
    ensures
        spec_concat_blocks(blocks, j as nat).len() + blocks[j].len() <= spec_concat_blocks(
            blocks,
            n as nat,
        ).len(),
        spec_concat_blocks(blocks, n as nat)[spec_concat_blocks(blocks, j as nat).len() + entry]
            == blocks[j][entry],
    decreases n,
{
    if j + 1 < n {
        lemma_concat_blocks_entry(blocks, j, n - 1, entry);
    }
}

/// Every place in the run of the entries of blocks is the place of an
/// entry in one of the blocks.
pub proof fn lemma_concat_blocks_place(blocks: Seq<Seq<Entry>>, n: int, place: int) -> (at: (
    int,
    int,
))
    requires
        0 <= n <= blocks.len(),
        0 <= place < spec_concat_blocks(blocks, n as nat).len(),
    ensures
        0 <= at.0 < n,
        0 <= at.1 < blocks[at.0].len(),
        spec_concat_blocks(blocks, at.0 as nat).len() + at.1 == place,
    decreases n,
{
    let before = spec_concat_blocks(blocks, (n - 1) as nat).len();
    if place >= before {
        (n - 1, place - before)
    } else {
        lemma_concat_blocks_place(blocks, n - 1, place)
    }
}

/// The entries of ordered blocks, one block after the other, are internal
/// keys in strictly ascending order.
pub proof fn lemma_ordered_blocks_are_sorted(blocks: Seq<Seq<Entry>>)
    requires
        spec_blocks_ordered(blocks),
    ensures
        spec_entries_sorted(spec_concat_blocks(blocks, blocks.len())),
{
    let all = spec_concat_blocks(blocks, blocks.len());
    let n = blocks.len() as int;
    assert forall|i: int| 0 <= i < all.len() implies (#[trigger] all[i]).key.len()
        >= FOOTER_SIZE by {
        let at = lemma_concat_blocks_place(blocks, n, i);
        lemma_concat_blocks_entry(blocks, at.0, n, at.1);
        assert(spec_entries_sorted(blocks[at.0]));
        assert(blocks[at.0][at.1].key.len() >= FOOTER_SIZE);
    }
    assert forall|a: int, b: int| 0 <= a < b < all.len() implies spec_internal_key_less(
        (#[trigger] all[a]).key,
        (#[trigger] all[b]).key,
    ) by {
        let at_a = lemma_concat_blocks_place(blocks, n, a);
        let at_b = lemma_concat_blocks_place(blocks, n, b);
        lemma_concat_blocks_entry(blocks, at_a.0, n, at_a.1);
        lemma_concat_blocks_entry(blocks, at_b.0, n, at_b.1);
        let block_a = blocks[at_a.0];
        let block_b = blocks[at_b.0];
        assert(spec_entries_sorted(block_a));
        if at_a.0 == at_b.0 {
            assert(spec_internal_key_less(block_a[at_a.1].key, block_a[at_b.1].key));
        } else if at_a.0 < at_b.0 {
            assert(spec_internal_key_less(block_a.last().key, block_b[at_b.1].key));
            if at_a.1 < block_a.len() - 1 {
                assert(spec_internal_key_less(
                    block_a[at_a.1].key,
                    block_a[block_a.len() - 1].key,
                ));
                crate::common::key_order::lemma_internal_key_less_transitive(
                    block_a[at_a.1].key,
                    block_a.last().key,
                    block_b[at_b.1].key,
                );
            }
        } else {
            lemma_concat_blocks_entry(blocks, at_b.0, at_a.0, at_b.1);
        }
    }
}

} // verus!
