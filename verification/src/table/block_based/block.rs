//! The layout of a block: a run of front-coded entries, then the array of
//! restart points and its length.
//!
//! An entry is three little-endian 32-bit lengths (of the part of the key
//! shared with the key before it, of the rest of the key, of the value),
//! the rest of the key, and the value. A restart point is the offset of an
//! entry that shares nothing with the key before it.

use vstd::prelude::*;
use crate::common::format::{spec_apply_global_seqno, spec_trim_append, GlobalSeqnoAppliedKey};
use crate::common::key_order::{
    internal_key_less, lemma_internal_key_less_transitive, spec_internal_key_less,
};
use crate::common::DISABLE_GLOBAL_SEQUENCE_NUMBER;
use crate::table::TableError;
use crate::util::{
    decode_fixed_uint32, spec_decode_fixed_uint32, spec_extract_user_key, FOOTER_SIZE,
};

verus! {

/// Number of bytes of the three lengths that an entry starts with.
pub const ENTRY_HEADER_SIZE: usize = 12;

/// A key and its value, as a block holds them.
pub struct Entry {
    pub key: Seq<u8>,
    pub value: Seq<u8>,
}

/// A key and its value, copied out of a block.
#[derive(Debug)]
pub struct KeyValue {
    pub key: Vec<u8>,
    pub value: Vec<u8>,
}

impl View for KeyValue {
    type V = Entry;

    open spec fn view(&self) -> Entry {
        Entry { key: self.key@, value: self.value@ }
    }
}

/// The entries that a vector of key-value pairs stands for.
pub open spec fn spec_entries_of(pairs: Seq<KeyValue>) -> Seq<Entry> {
    pairs.map_values(|pair: KeyValue| pair@)
}

/// The 32-bit length that stands in `data` at `pos`.
pub open spec fn spec_length_at(data: Seq<u8>, pos: int) -> nat {
    spec_decode_fixed_uint32(data.subrange(pos, pos + 4)) as nat
}

/// Length of the part of its key that the entry at `pos` shares with the key
/// before it.
pub open spec fn spec_entry_shared(data: Seq<u8>, pos: int) -> nat {
    spec_length_at(data, pos)
}

/// Length of the part of its key that the entry at `pos` stores.
pub open spec fn spec_entry_non_shared(data: Seq<u8>, pos: int) -> nat {
    spec_length_at(data, pos + 4)
}

/// Length of the value of the entry at `pos`.
pub open spec fn spec_entry_value_len(data: Seq<u8>, pos: int) -> nat {
    spec_length_at(data, pos + 8)
}

/// Where the entry at `pos` ends.
pub open spec fn spec_entry_end(data: Seq<u8>, pos: int) -> int {
    pos + ENTRY_HEADER_SIZE + spec_entry_non_shared(data, pos) + spec_entry_value_len(data, pos)
}

/// Whether an entry stands at `pos` that ends at or before `end` and shares
/// no more with the key before it than that key has.
pub open spec fn spec_entry_fits(data: Seq<u8>, pos: int, end: int, prev_key: Seq<u8>) -> bool {
    &&& pos + ENTRY_HEADER_SIZE <= end
    &&& spec_entry_end(data, pos) <= end
    &&& spec_entry_shared(data, pos) <= prev_key.len()
}

/// The entry at `pos`, its key rebuilt from the key before it.
pub open spec fn spec_entry_at(data: Seq<u8>, pos: int, prev_key: Seq<u8>) -> Entry {
    let key_start = pos + ENTRY_HEADER_SIZE;
    let value_start = key_start + spec_entry_non_shared(data, pos);
    Entry {
        key: spec_trim_append(
            prev_key,
            data,
            key_start as nat,
            spec_entry_shared(data, pos),
            spec_entry_non_shared(data, pos),
        ),
        value: data.subrange(value_start, value_start + spec_entry_value_len(data, pos)),
    }
}

/// The entries that fill `data` from `pos` to `end` exactly, the first of
/// them front-coded against `prev_key`; `None` where the bytes are no such
/// run of entries.
pub open spec fn spec_parse_entries(data: Seq<u8>, pos: int, end: int, prev_key: Seq<u8>) -> Option<
    Seq<Entry>,
>
    decreases end - pos,
{
    if pos >= end {
        if pos == end {
            Some(Seq::empty())
        } else {
            None
        }
    } else if !spec_entry_fits(data, pos, end, prev_key) {
        None
    } else {
        let entry = spec_entry_at(data, pos, prev_key);
        match spec_parse_entries(data, spec_entry_end(data, pos), end, entry.key) {
            Some(rest) => Some(seq![entry] + rest),
            None => None,
        }
    }
}

/// Number of restart points that a block says it has: its last four bytes.
pub open spec fn spec_restart_count(block: Seq<u8>) -> nat
    recommends
        block.len() >= 4,
{
    spec_length_at(block, block.len() - 4)
}

/// Whether a block has room for the restart points that it says it has.
pub open spec fn spec_block_has_restarts(block: Seq<u8>) -> bool {
    &&& block.len() >= 4
    &&& 4 * spec_restart_count(block) + 4 <= block.len()
}

/// Where the entries of a block end and its restart points begin.
pub open spec fn spec_restarts_start(block: Seq<u8>) -> int
    recommends
        spec_block_has_restarts(block),
{
    block.len() - 4 - 4 * spec_restart_count(block)
}

/// The entries of a block; `None` where the bytes are no well-formed block.
pub open spec fn spec_parse_block(block: Seq<u8>) -> Option<Seq<Entry>> {
    if spec_block_has_restarts(block) {
        spec_parse_entries(block, 0, spec_restarts_start(block), Seq::empty())
    } else {
        None
    }
}

/// Reads the 32-bit length that stands in `data` at `pos`.
pub fn length_at(data: &[u8], pos: usize) -> (length: usize)
    requires
        pos + 4 <= data@.len(),
    ensures
        length == spec_length_at(data@, pos as int),
{
    assert(pos + 4 <= data.len());
    decode_fixed_uint32(&data[pos..pos + 4]) as usize
}

/// Decodes the entries of a block, or reports the block as corrupt.
pub fn decode_block(block: &[u8]) -> (result: Result<Vec<KeyValue>, TableError>)
    ensures
        match spec_parse_block(block@) {
            Some(entries) => result matches Ok(pairs) && spec_entries_of(pairs@) == entries,
            None => result == Err::<Vec<KeyValue>, TableError>(TableError::Corruption),
        },
{
    let len: usize = block.len();
    if len < 4 {
        return Err(TableError::Corruption);
    }
    let restart_count: usize = length_at(block, len - 4);
    if restart_count > (len - 4) / 4 {
        return Err(TableError::Corruption);
    }
    let end: usize = len - 4 - 4 * restart_count;
    let mut pairs: Vec<KeyValue> = Vec::new();
    let mut holder = GlobalSeqnoAppliedKey::new(DISABLE_GLOBAL_SEQUENCE_NUMBER, false);
    let mut pos: usize = 0;
    while pos < end
        invariant
            pos <= end <= block@.len(),
            spec_block_has_restarts(block@),
            end == spec_restarts_start(block@),
            spec_parse_entries(block@, 0, end as int, Seq::empty()) == match spec_parse_entries(
                block@,
                pos as int,
                end as int,
                holder@.key,
            ) {
                Some(rest) => Some(spec_entries_of(pairs@) + rest),
                None => None,
            },
        decreases end - pos,
    {
        if end - pos < ENTRY_HEADER_SIZE {
            return Err(TableError::Corruption);
        }
        let shared: usize = length_at(block, pos);
        let non_shared: usize = length_at(block, pos + 4);
        let value_len: usize = length_at(block, pos + 8);
        let key_start: usize = pos + ENTRY_HEADER_SIZE;
        if non_shared > end - key_start || value_len > end - key_start - non_shared || shared
            > holder.get_key().len() {
            return Err(TableError::Corruption);
        }
        let value_start: usize = key_start + non_shared;
        let ghost prev_key = holder@.key;
        let ghost done = spec_entries_of(pairs@);
        holder.trim_append(block, key_start, shared, non_shared);
        let mut key: Vec<u8> = Vec::new();
        key.extend_from_slice(holder.get_key());
        let mut value: Vec<u8> = Vec::new();
        value.extend_from_slice(&block[value_start..value_start + value_len]);
        pairs.push(KeyValue { key, value });
        proof {
            let entry = spec_entry_at(block@, pos as int, prev_key);
            assert(key@ =~= entry.key);
            assert(value@ =~= entry.value);
            assert(spec_entries_of(pairs@) =~= done.push(entry));
            let rest = spec_parse_entries(block@, value_start + value_len, end as int, entry.key);
            if rest is Some {
                assert(done + (seq![entry] + rest->0) =~= done.push(entry) + rest->0);
            }
        }
        pos = value_start + value_len;
    }
    proof {
        assert(spec_entries_of(pairs@) + Seq::<Entry>::empty() =~= spec_entries_of(pairs@));
    }
    Ok(pairs)
}

/// The user keys of entries.
pub open spec fn spec_user_keys(entries: Seq<Entry>) -> Seq<Seq<u8>> {
    entries.map_values(|entry: Entry| spec_extract_user_key(entry.key))
}

/// Whether every key is long enough to end with a footer.
pub open spec fn spec_keys_have_footer(entries: Seq<Entry>) -> bool {
    forall|i: int| 0 <= i < entries.len() ==> (#[trigger] entries[i]).key.len() >= FOOTER_SIZE
}

/// Whether each key comes before all keys behind it in the order of internal
/// keys.
pub open spec fn spec_keys_ascend(entries: Seq<Entry>) -> bool {
    forall|i: int, j: int|
        0 <= i < j < entries.len() ==> spec_internal_key_less(
            (#[trigger] entries[i]).key,
            (#[trigger] entries[j]).key,
        )
}

/// Whether the keys are internal keys in strictly ascending order.
pub open spec fn spec_entries_sorted(entries: Seq<Entry>) -> bool {
    spec_keys_have_footer(entries) && spec_keys_ascend(entries)
}

/// An entry with the global sequence number stamped on its key.
pub open spec fn spec_stamp_entry(global_seqno: u64, entry: Entry) -> Entry {
    Entry { key: spec_apply_global_seqno(global_seqno, entry.key), value: entry.value }
}

/// The entries with the global sequence number stamped on each key.
pub open spec fn spec_stamp_entries(global_seqno: u64, entries: Seq<Entry>) -> Seq<Entry> {
    entries.map_values(|entry: Entry| spec_stamp_entry(global_seqno, entry))
}

/// The entries of a data block as a reader hands them out: the keys carry
/// the global sequence number. The block is corrupt where its bytes are no
/// well-formed block, a key is too short for a footer, or the keys handed
/// out do not ascend strictly.
pub open spec fn spec_decode_data_block(payload: Seq<u8>, global_seqno: u64) -> Option<Seq<Entry>> {
    match spec_parse_block(payload) {
        Some(raw) => if spec_keys_have_footer(raw) && spec_keys_ascend(
            spec_stamp_entries(global_seqno, raw),
        ) {
            Some(spec_stamp_entries(global_seqno, raw))
        } else {
            None
        },
        None => None,
    }
}

/// Keys of which each comes before the next ascend.
pub proof fn lemma_neighbours_ascend(entries: Seq<Entry>)
    requires
        forall|i: int|
            0 < i < entries.len() ==> spec_internal_key_less(
                entries[i - 1].key,
                (#[trigger] entries[i]).key,
            ),
    ensures
        spec_keys_ascend(entries),
{
    assert forall|i: int, j: int| 0 <= i < j < entries.len() implies spec_internal_key_less(
        (#[trigger] entries[i]).key,
        (#[trigger] entries[j]).key,
    ) by {
        lemma_ascend_from(entries, i, j);
    }
}

proof fn lemma_ascend_from(entries: Seq<Entry>, i: int, j: int)
    requires
        0 <= i < j < entries.len(),
        forall|i: int|
            0 < i < entries.len() ==> spec_internal_key_less(
                entries[i - 1].key,
                (#[trigger] entries[i]).key,
            ),
    ensures
        spec_internal_key_less(entries[i].key, entries[j].key),
    decreases j - i,
{
    if i + 1 < j {
        lemma_ascend_from(entries, i, j - 1);
        assert(spec_internal_key_less(entries[j - 1].key, entries[j].key));
        lemma_internal_key_less_transitive(entries[i].key, entries[j - 1].key, entries[j].key);
    } else {
        assert(spec_internal_key_less(entries[j - 1].key, entries[j].key));
    }
}

/// Where sequence-number rewriting is switched off, entries are handed out
/// as they are.
pub proof fn lemma_stamp_entries_disabled(entries: Seq<Entry>)
    ensures
        spec_stamp_entries(DISABLE_GLOBAL_SEQUENCE_NUMBER, entries) == entries,
{
    assert(spec_stamp_entries(DISABLE_GLOBAL_SEQUENCE_NUMBER, entries) =~= entries);
}

/// The keys that a data block hands out are internal keys in strictly
/// ascending order.
pub proof fn lemma_decoded_data_block_is_sorted(payload: Seq<u8>, global_seqno: u64)
    requires
        spec_decode_data_block(payload, global_seqno) is Some,
    ensures
        spec_entries_sorted(spec_decode_data_block(payload, global_seqno)->0),
{
    let raw = spec_parse_block(payload)->0;
    let stamped = spec_stamp_entries(global_seqno, raw);
    assert forall|i: int| 0 <= i < stamped.len() implies (#[trigger] stamped[i]).key.len()
        >= FOOTER_SIZE by {
        assert(raw[i].key.len() >= FOOTER_SIZE);
        crate::common::format::lemma_applied_key_len(global_seqno, raw[i].key);
    }
}

/// Copies an entry and stamps the global sequence number of `holder` on the
/// key of the copy.
fn stamp_entry(holder: &mut GlobalSeqnoAppliedKey, pair: &KeyValue) -> (stamped: KeyValue)
    requires
        pair.key@.len() >= FOOTER_SIZE,
    ensures
        final(holder)@.global_seqno == old(holder)@.global_seqno,
        stamped@ == spec_stamp_entry(old(holder)@.global_seqno, pair@),
        stamped.key@.len() >= FOOTER_SIZE,
{
    holder.set_key(pair.key.as_slice());
    let mut key: Vec<u8> = Vec::new();
    key.extend_from_slice(holder.get_key());
    let mut value: Vec<u8> = Vec::new();
    value.extend_from_slice(pair.value.as_slice());
    proof {
        crate::common::format::lemma_applied_key_len(old(holder)@.global_seqno, pair.key@);
        assert(key@ =~= spec_apply_global_seqno(old(holder)@.global_seqno, pair.key@));
        assert(value@ =~= pair.value@);
    }
    KeyValue { key, value }
}

/// Decodes the entries of a data block and stamps the global sequence
/// number on their keys, or reports the block as corrupt.
pub fn decode_data_block(payload: &[u8], global_seqno: u64) -> (result: Result<
    Vec<KeyValue>,
    TableError,
>)
    ensures
        match spec_decode_data_block(payload@, global_seqno) {
            Some(entries) => result matches Ok(pairs) && spec_entries_of(pairs@) == entries
                && spec_entries_sorted(entries),
            None => result == Err::<Vec<KeyValue>, TableError>(TableError::Corruption),
        },
{
    let raw: Vec<KeyValue> = match decode_block(payload) {
        Ok(raw) => raw,
        Err(error) => {
            return Err(error);
        },
    };
    let ghost raw_entries = spec_entries_of(raw@);
    let ghost stamped = spec_stamp_entries(global_seqno, raw_entries);
    let mut pairs: Vec<KeyValue> = Vec::new();
    let mut holder = GlobalSeqnoAppliedKey::new(global_seqno, false);
    let mut i: usize = 0;
    while i < raw.len()
        invariant
            i <= raw@.len(),
            raw_entries == spec_entries_of(raw@),
            stamped == spec_stamp_entries(global_seqno, raw_entries),
            spec_parse_block(payload@) == Some(raw_entries),
            holder@.global_seqno == global_seqno,
            pairs@.len() == i,
            forall|k: int| 0 <= k < i ==> (#[trigger] pairs@[k])@ == stamped[k],
            forall|k: int| 0 <= k < i ==> (#[trigger] raw_entries[k]).key.len() >= FOOTER_SIZE,
            forall|k: int| 0 <= k < i ==> (#[trigger] stamped[k]).key.len() >= FOOTER_SIZE,
            forall|k: int|
                0 < k < i ==> spec_internal_key_less(stamped[k - 1].key, (#[trigger] stamped[k]).key),
        decreases raw@.len() - i,
    {
        let pair = &raw[i];
        if pair.key.len() < FOOTER_SIZE {
            assert(raw_entries[i as int].key.len() < FOOTER_SIZE);
            return Err(TableError::Corruption);
        }
        let entry = stamp_entry(&mut holder, pair);
        assert(entry@ == stamped[i as int]);
        if i > 0 {
            assert(pairs@[i - 1]@ == stamped[i - 1]);
            if !internal_key_less(pairs[i - 1].key.as_slice(), entry.key.as_slice()) {
                assert(!spec_internal_key_less(stamped[i - 1].key, stamped[i as int].key));
                return Err(TableError::Corruption);
            }
        }
        pairs.push(entry);
        i += 1;
    }
    proof {
        lemma_neighbours_ascend(stamped);
        assert(spec_entries_of(pairs@) =~= stamped);
        lemma_decoded_data_block_is_sorted(payload@, global_seqno);
    }
    Ok(pairs)
}

/// Where the first of `entries`, from the `from`-th on, stands whose key
/// does not come before `target`; the number of entries where there is none.
pub open spec fn spec_lower_bound_from(entries: Seq<Entry>, target: Seq<u8>, from: int) -> int
    decreases entries.len() - from,
{
    if from < 0 || from >= entries.len() {
        entries.len() as int
    } else if !spec_internal_key_less(entries[from].key, target) {
        from
    } else {
        spec_lower_bound_from(entries, target, from + 1)
    }
}

/// Where the first of `entries` stands whose key does not come before
/// `target`; the number of entries where there is none.
pub open spec fn spec_lower_bound(entries: Seq<Entry>, target: Seq<u8>) -> int {
    spec_lower_bound_from(entries, target, 0)
}

/// Where the keys before a place come before `target` and the key at the
/// place does not, the place is the lower bound of `target`.
pub proof fn lemma_lower_bound_is(entries: Seq<Entry>, target: Seq<u8>, from: int, n: int)
    requires
        0 <= from <= n <= entries.len(),
        forall|i: int| from <= i < n ==> spec_internal_key_less((#[trigger] entries[i]).key, target),
        n < entries.len() ==> !spec_internal_key_less(entries[n].key, target),
    ensures
        spec_lower_bound_from(entries, target, from) == n,
    decreases n - from,
{
    if from < n {
        assert(spec_internal_key_less(entries[from].key, target));
        lemma_lower_bound_is(entries, target, from + 1, n);
    }
}

/// The keys before the lower bound of `target` come before `target`, and
/// the key at the lower bound does not.
pub proof fn lemma_lower_bound_bounds(entries: Seq<Entry>, target: Seq<u8>, from: int)
    requires
        0 <= from <= entries.len(),
    ensures
        from <= spec_lower_bound_from(entries, target, from) <= entries.len(),
        forall|i: int|
            from <= i < spec_lower_bound_from(entries, target, from) ==> spec_internal_key_less(
                (#[trigger] entries[i]).key,
                target,
            ),
        spec_lower_bound_from(entries, target, from) < entries.len() ==> !spec_internal_key_less(
            entries[spec_lower_bound_from(entries, target, from)].key,
            target,
        ),
    decreases entries.len() - from,
{
    if from < entries.len() && spec_internal_key_less(entries[from].key, target) {
        lemma_lower_bound_bounds(entries, target, from + 1);
    }
}

/// Finds the first entry whose key does not come before `target`, by its
/// place; the number of entries where there is none.
pub fn find_entry(entries: &Vec<KeyValue>, target: &[u8]) -> (n: usize)
    requires
        spec_entries_sorted(spec_entries_of(entries@)),
        target@.len() >= FOOTER_SIZE,
    ensures
        n == spec_lower_bound(spec_entries_of(entries@), target@),
        n <= entries@.len(),
{
    let ghost views = spec_entries_of(entries@);
    let mut low: usize = 0;
    let mut high: usize = entries.len();
    while low < high
        invariant
            low <= high <= entries@.len(),
            views == spec_entries_of(entries@),
            spec_entries_sorted(views),
            target@.len() >= FOOTER_SIZE,
            forall|i: int| 0 <= i < low ==> spec_internal_key_less((#[trigger] views[i]).key, target@),
            forall|i: int|
                high <= i < views.len() ==> !spec_internal_key_less(
                    (#[trigger] views[i]).key,
                    target@,
                ),
        decreases high - low,
    {
        let middle: usize = low + (high - low) / 2;
        assert(views[middle as int] == entries@[middle as int]@);
        if internal_key_less(entries[middle].key.as_slice(), target) {
            assert forall|i: int| 0 <= i < middle + 1 implies spec_internal_key_less(
                (#[trigger] views[i]).key,
                target@,
            ) by {
                if i < middle {
                    lemma_internal_key_less_transitive(
                        views[i].key,
                        views[middle as int].key,
                        target@,
                    );
                }
            }
            low = middle + 1;
        } else {
            assert forall|i: int| middle <= i < views.len() implies !spec_internal_key_less(
                (#[trigger] views[i]).key,
                target@,
            ) by {
                if middle < i && spec_internal_key_less(views[i].key, target@) {
                    lemma_internal_key_less_transitive(
                        views[middle as int].key,
                        views[i].key,
                        target@,
                    );
                }
            }
            high = middle;
        }
    }
    proof {
        lemma_lower_bound_is(views, target@, 0, low as int);
    }
    low
}

} // verus!
