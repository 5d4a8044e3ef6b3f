//! The block-based table format.

use vstd::prelude::*;

pub mod block;
pub mod block_builder;
pub mod filter_block_builder;
pub mod filter_reader;
pub mod full_filter_block_builder;
pub mod index_reader;
pub mod meta_block;
pub mod options;
pub mod table_builder;
pub mod table_builder_factory;
pub mod table_iterator;
pub mod table_reader;

pub use filter_block_builder::FilterBlockFactory;
pub use full_filter_block_builder::FullFilterBlockFactory;
pub use options::BlockBasedTableOptions;
pub use table_builder_factory::BlockBasedTableFactory;

verus! {

/// Number of bytes that follow the payload of every block: one byte for the
/// compression type and four for the checksum.
pub const BLOCK_TRAILER_SIZE: usize = 5;

/// What the name of the meta block of per-block filters starts with; the name
/// of the filter policy follows.
pub const FILTER_BLOCK_PREFIX: &'static str = "filter.";

/// What the name of the meta block of a whole-table filter starts with; the
/// name of the filter policy follows.
pub const FULL_FILTER_BLOCK_PREFIX: &'static str = "fullfilter.";

} // verus!
