//! The sorted-table storage layer of an LSM-tree key-value engine.
//!
//! `common` holds the internal key codec: the footer that packs a sequence
//! number with a value type behind every user key, the order of internal
//! keys, and the holder that stamps one global sequence number on the keys
//! of a table. `table` holds the block-based table format: blocks of
//! front-coded entries, filters, the index, the meta index and the footer,
//! with the builder that writes a table and the reader and iterator that
//! read it. `util` holds fixed-width integers, the checksum and the Bloom
//! filter. Every function is verified against its contract.

pub mod common;
pub mod table;
pub mod util;
