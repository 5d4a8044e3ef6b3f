//! Reading the index block: one entry for each data block, made of a
//! separator key, which no key of the block comes after, and the handle of
//! the block.

use vstd::prelude::*;
use crate::common::key_order::{
    internal_key_less, lemma_internal_key_less_transitive, spec_internal_key_less,
};
use crate::table::block_based::block::{
    decode_data_block, spec_decode_data_block, spec_entries_of, Entry, KeyValue,
};
use crate::table::format::{decode_handle, spec_decode_handle, BlockHandle, BLOCK_HANDLE_SIZE};
use crate::table::TableError;
use crate::util::FOOTER_SIZE;

verus! {

/// An entry of the index, as contracts speak of it.
pub struct IndexEntryView {
    pub separator: Seq<u8>,
    pub handle: BlockHandle,
}

/// An entry of the index.
#[derive(Debug)]
pub struct IndexEntry {
    pub separator: Vec<u8>,
    pub handle: BlockHandle,
}

impl View for IndexEntry {
    type V = IndexEntryView;

    open spec fn view(&self) -> IndexEntryView {
        IndexEntryView { separator: self.separator@, handle: self.handle }
    }
}

/// The index entries that a vector of them stands for.
pub open spec fn spec_index_of(entries: Seq<IndexEntry>) -> Seq<IndexEntryView> {
    entries.map_values(|entry: IndexEntry| entry@)
}

/// Whether the separators are internal keys in strictly ascending order.
pub open spec fn spec_index_sorted(index: Seq<IndexEntryView>) -> bool {
    &&& forall|i: int| 0 <= i < index.len() ==> (#[trigger] index[i]).separator.len() >= FOOTER_SIZE
    &&& forall|i: int, j: int|
        0 <= i < j < index.len() ==> spec_internal_key_less(
            (#[trigger] index[i]).separator,
            (#[trigger] index[j]).separator,
        )
}

/// Whether the value of every entry has the length of a block handle.
pub open spec fn spec_values_are_handles(entries: Seq<Entry>) -> bool {
    forall|i: int| 0 <= i < entries.len() ==> (#[trigger] entries[i]).value.len() == BLOCK_HANDLE_SIZE
}

/// The index entry that an entry of the index block stands for.
pub open spec fn spec_index_entry(entry: Entry) -> IndexEntryView {
    IndexEntryView { separator: entry.key, handle: spec_decode_handle(entry.value) }
}

/// The index that an index block holds, the global sequence number stamped
/// on the separators. The block is corrupt where it is no data block of
/// strictly ascending internal keys, or a value is no block handle.
pub open spec fn spec_decode_index_block(payload: Seq<u8>, global_seqno: u64) -> Option<
    Seq<IndexEntryView>,
> {
    match spec_decode_data_block(payload, global_seqno) {
        Some(entries) => if spec_values_are_handles(entries) {
            Some(entries.map_values(|entry: Entry| spec_index_entry(entry)))
        } else {
            None
        },
        None => None,
    }
}

/// Where the first block lies whose separator does not come before
/// `target`: the first `n` index entries are those that come before it.
pub open spec fn spec_is_block_for(index: Seq<IndexEntryView>, target: Seq<u8>, n: int) -> bool {
    &&& 0 <= n <= index.len()
    &&& forall|i: int| 0 <= i < n ==> spec_internal_key_less((#[trigger] index[i]).separator, target)
    &&& forall|i: int|
        n <= i < index.len() ==> !spec_internal_key_less((#[trigger] index[i]).separator, target)
}

/// Where the first block stands, from the `from`-th on, whose separator
/// does not come before `target`; the number of blocks where there is none.
pub open spec fn spec_block_for_from(index: Seq<IndexEntryView>, target: Seq<u8>, from: int) -> int
    decreases index.len() - from,
{
    if from < 0 || from >= index.len() {
        index.len() as int
    } else if !spec_internal_key_less(index[from].separator, target) {
        from
    } else {
        spec_block_for_from(index, target, from + 1)
    }
}

/// Where the first block stands whose separator does not come before
/// `target`; the number of blocks where there is none.
pub open spec fn spec_block_for(index: Seq<IndexEntryView>, target: Seq<u8>) -> int {
    spec_block_for_from(index, target, 0)
}

/// The place before which all separators come before `target`, and from
/// which on none does, is the place of the block for `target`.
pub proof fn lemma_block_for_is(index: Seq<IndexEntryView>, target: Seq<u8>, from: int, n: int)
    requires
        0 <= from <= n,
        spec_is_block_for(index, target, n),
    ensures
        spec_block_for_from(index, target, from) == n,
    decreases n - from,
{
    if from < n {
        assert(spec_internal_key_less(index[from].separator, target));
        lemma_block_for_is(index, target, from + 1, n);
    } else if n < index.len() {
        assert(!spec_internal_key_less(index[n].separator, target));
    }
}

/// The separators before the block for `target` come before `target`, and
/// the separator of that block does not.
pub proof fn lemma_block_for_bounds(index: Seq<IndexEntryView>, target: Seq<u8>, from: int)
    requires
        0 <= from <= index.len(),
    ensures
        from <= spec_block_for_from(index, target, from) <= index.len(),
        forall|i: int|
            from <= i < spec_block_for_from(index, target, from) ==> spec_internal_key_less(
                (#[trigger] index[i]).separator,
                target,
            ),
        spec_block_for_from(index, target, from) < index.len() ==> !spec_internal_key_less(
            index[spec_block_for_from(index, target, from)].separator,
            target,
        ),
    decreases index.len() - from,
{
    if from < index.len() && spec_internal_key_less(index[from].separator, target) {
        lemma_block_for_bounds(index, target, from + 1);
    }
}

/// Decodes an index block, or reports it as corrupt.
pub fn decode_index_block(payload: &[u8], global_seqno: u64) -> (result: Result<
    Vec<IndexEntry>,
    TableError,
>)
    ensures
        match spec_decode_index_block(payload@, global_seqno) {
            Some(index) => result matches Ok(entries) && spec_index_of(entries@) == index
                && spec_index_sorted(index),
            None => result == Err::<Vec<IndexEntry>, TableError>(TableError::Corruption),
        },
{
    let pairs: Vec<KeyValue> = match decode_data_block(payload, global_seqno) {
        Ok(pairs) => pairs,
        Err(error) => {
            return Err(error);
        },
    };
    let ghost entries = spec_entries_of(pairs@);
    let ghost index = entries.map_values(|entry: Entry| spec_index_entry(entry));
    let mut result: Vec<IndexEntry> = Vec::new();
    let mut i: usize = 0;
    while i < pairs.len()
        invariant
            i <= pairs@.len(),
            entries == spec_entries_of(pairs@),
            spec_decode_data_block(payload@, global_seqno) == Some(entries),
            index == entries.map_values(|entry: Entry| spec_index_entry(entry)),
            result@.len() == i,
            forall|k: int| 0 <= k < i ==> (#[trigger] result@[k])@ == index[k],
            forall|k: int| 0 <= k < i ==> (#[trigger] entries[k]).value.len() == BLOCK_HANDLE_SIZE,
        decreases pairs@.len() - i,
    {
        let pair = &pairs[i];
        if pair.value.len() != BLOCK_HANDLE_SIZE {
            assert(entries[i as int].value.len() != BLOCK_HANDLE_SIZE);
            return Err(TableError::Corruption);
        }
        let handle = decode_handle(pair.value.as_slice());
        let mut separator: Vec<u8> = Vec::new();
        separator.extend_from_slice(pair.key.as_slice());
        assert(separator@ =~= pair.key@);
        result.push(IndexEntry { separator, handle });
        i += 1;
    }
    proof {
        assert(spec_index_of(result@) =~= index);
        assert forall|a: int, b: int| 0 <= a < b < index.len() implies spec_internal_key_less(
            (#[trigger] index[a]).separator,
            (#[trigger] index[b]).separator,
        ) by {
            assert(spec_internal_key_less(entries[a].key, entries[b].key));
        }
        assert forall|a: int| 0 <= a < index.len() implies (#[trigger] index[a]).separator.len()
            >= FOOTER_SIZE by {
            assert(entries[a].key.len() >= FOOTER_SIZE);
        }
        assert(spec_index_sorted(index));
    }
    Ok(result)
}

/// Finds the first block whose separator does not come before `target`, by
/// its place in the index; the number of blocks where there is none.
pub fn find_block(index: &Vec<IndexEntry>, target: &[u8]) -> (n: usize)
    requires
        spec_index_sorted(spec_index_of(index@)),
        target@.len() >= FOOTER_SIZE,
    ensures
        spec_is_block_for(spec_index_of(index@), target@, n as int),
        n == spec_block_for(spec_index_of(index@), target@),
{
    let ghost views = spec_index_of(index@);
    let mut low: usize = 0;
    let mut high: usize = index.len();
    while low < high
        invariant
            low <= high <= index@.len(),
            views == spec_index_of(index@),
            spec_index_sorted(views),
            target@.len() >= FOOTER_SIZE,
            forall|i: int| 0 <= i < low ==> spec_internal_key_less((#[trigger] views[i]).separator, target@),
            forall|i: int|
                high <= i < views.len() ==> !spec_internal_key_less(
                    (#[trigger] views[i]).separator,
                    target@,
                ),
        decreases high - low,
    {
        let middle: usize = low + (high - low) / 2;
        assert(views[middle as int] == index@[middle as int]@);
        if internal_key_less(index[middle].separator.as_slice(), target) {
            assert forall|i: int| 0 <= i < middle + 1 implies spec_internal_key_less(
                (#[trigger] views[i]).separator,
                target@,
            ) by {
                if i < middle {
                    lemma_internal_key_less_transitive(
                        views[i].separator,
                        views[middle as int].separator,
                        target@,
                    );
                }
            }
            low = middle + 1;
        } else {
            assert forall|i: int| middle <= i < views.len() implies !spec_internal_key_less(
                (#[trigger] views[i]).separator,
                target@,
            ) by {
                if middle < i && spec_internal_key_less(views[i].separator, target@) {
                    lemma_internal_key_less_transitive(
                        views[middle as int].separator,
                        views[i].separator,
                        target@,
                    );
                }
            }
            high = middle;
        }
    }
    proof {
        lemma_block_for_is(views, target@, 0, low as int);
    }
    low
}

} // verus!
