//! What a table is built with.

use vstd::prelude::*;
use crate::table::block_based::filter_block_builder::FilterBlockFactory;
use crate::table::block_based::full_filter_block_builder::FullFilterBlockFactory;

verus! {

/// Number of bytes after which a data block is closed unless told otherwise.
pub const DEFAULT_BLOCK_SIZE: usize = 4096;

/// Number of entries after which a restart point is set unless told
/// otherwise.
pub const DEFAULT_BLOCK_RESTART_INTERVAL: usize = 16;

/// The options of a block-based table.
#[derive(Clone, Copy, Debug)]
pub struct BlockBasedTableOptions {
    /// A data block is closed once it has this many bytes.
    pub block_size: usize,
    /// In a data block every entry that follows this many entries is a
    /// restart point; at least 1.
    pub block_restart_interval: usize,
    /// Makes the whole-table filter; none is written without it.
    pub filter_factory: Option<FullFilterBlockFactory>,
    /// Makes the per-block filters; none are written without it.
    pub block_filter_factory: Option<FilterBlockFactory>,
}

impl BlockBasedTableOptions {
    /// Whether a table can be built with these options.
    pub open spec fn spec_is_valid(&self) -> bool {
        self.block_restart_interval >= 1
    }

    /// Tells whether a table can be built with these options.
    pub fn is_valid(&self) -> (valid: bool)
        ensures
            valid == self.spec_is_valid(),
    {
        self.block_restart_interval >= 1
    }
}

impl Default for BlockBasedTableOptions {
    /// Blocks of 4096 bytes with a restart point every 16 entries, and no
    /// filters.
    fn default() -> (options: Self)
        ensures
            options.block_size == DEFAULT_BLOCK_SIZE,
            options.block_restart_interval == DEFAULT_BLOCK_RESTART_INTERVAL,
            options.filter_factory is None,
            options.block_filter_factory is None,
            options.spec_is_valid(),
    {
        BlockBasedTableOptions {
            block_size: DEFAULT_BLOCK_SIZE,
            block_restart_interval: DEFAULT_BLOCK_RESTART_INTERVAL,
            filter_factory: None,
            block_filter_factory: None,
        }
    }
}

} // verus!
