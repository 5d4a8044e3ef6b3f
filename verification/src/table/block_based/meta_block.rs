//! The meta index block: a directory from the names of meta blocks to their
//! handles.

use vstd::prelude::*;
use vstd::string::StringSliceAdditionalSpecFns;
use crate::table::block_based::block::{spec_entries_of, Entry, KeyValue};
use crate::table::block_based::{FILTER_BLOCK_PREFIX, FULL_FILTER_BLOCK_PREFIX};
use crate::table::format::{decode_handle, spec_decode_handle, BlockHandle, BLOCK_HANDLE_SIZE};
use crate::util::bytes_equal;

verus! {

/// The name of the meta block of per-block filters of a filter policy.
pub open spec fn spec_filter_block_name(policy_name: &str) -> Seq<u8> {
    FILTER_BLOCK_PREFIX.spec_bytes() + policy_name.spec_bytes()
}

/// The name of the meta block of the whole-table filter of a filter policy.
pub open spec fn spec_full_filter_block_name(policy_name: &str) -> Seq<u8> {
    FULL_FILTER_BLOCK_PREFIX.spec_bytes() + policy_name.spec_bytes()
}

/// Whether an entry of the meta index block names `name` and holds a block
/// handle.
pub open spec fn spec_names_meta_block(entry: Entry, name: Seq<u8>) -> bool {
    entry.key == name && entry.value.len() == BLOCK_HANDLE_SIZE
}

/// The handle of the first of `entries`, from the `from`-th on, that names
/// `name`; `None` where none does.
pub open spec fn spec_find_meta_block_from(entries: Seq<Entry>, name: Seq<u8>, from: int) -> Option<
    BlockHandle,
>
    decreases entries.len() - from,
{
    if from < 0 || from >= entries.len() {
        None
    } else if spec_names_meta_block(entries[from], name) {
        Some(spec_decode_handle(entries[from].value))
    } else {
        spec_find_meta_block_from(entries, name, from + 1)
    }
}

/// The handle that the meta index block gives for `name`; `None` where it
/// has no entry of that name.
pub open spec fn spec_find_meta_block(entries: Seq<Entry>, name: Seq<u8>) -> Option<BlockHandle> {
    spec_find_meta_block_from(entries, name, 0)
}

fn concat_names(prefix: &str, policy_name: &str) -> (name: Vec<u8>)
    ensures
        name@ == prefix.spec_bytes() + policy_name.spec_bytes(),
{
    let mut name: Vec<u8> = Vec::new();
    name.extend_from_slice(prefix.as_bytes());
    name.extend_from_slice(policy_name.as_bytes());
    assert(name@ =~= prefix.spec_bytes() + policy_name.spec_bytes());
    name
}

/// Makes the name of the meta block of per-block filters of a filter
/// policy.
pub fn filter_block_name(policy_name: &str) -> (name: Vec<u8>)
    ensures
        name@ == spec_filter_block_name(policy_name),
{
    concat_names(FILTER_BLOCK_PREFIX, policy_name)
}

/// Makes the name of the meta block of the whole-table filter of a filter
/// policy.
pub fn full_filter_block_name(policy_name: &str) -> (name: Vec<u8>)
    ensures
        name@ == spec_full_filter_block_name(policy_name),
{
    concat_names(FULL_FILTER_BLOCK_PREFIX, policy_name)
}

/// Looks a meta block up by its name.
pub fn find_meta_block(entries: &Vec<KeyValue>, name: &[u8]) -> (handle: Option<BlockHandle>)
    ensures
        handle == spec_find_meta_block(spec_entries_of(entries@), name@),
{
    let ghost views = spec_entries_of(entries@);
    let mut i: usize = 0;
    while i < entries.len()
        invariant
            i <= entries@.len(),
            views == spec_entries_of(entries@),
            spec_find_meta_block(views, name@) == spec_find_meta_block_from(views, name@, i as int),
        decreases entries@.len() - i,
    {
        let entry = &entries[i];
        assert(views[i as int] == entry@);
        if entry.value.len() == BLOCK_HANDLE_SIZE && bytes_equal(entry.key.as_slice(), name) {
            return Some(decode_handle(entry.value.as_slice()));
        }
        i += 1;
    }
    None
}

} // verus!
