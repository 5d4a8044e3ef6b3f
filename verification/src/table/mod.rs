//! Table formats.

use vstd::prelude::*;

pub mod block_based;
pub mod format;

verus! {

/// Why a table could not be built or read.
#[derive(Clone, Copy, Debug, PartialEq, Eq, Structural)]
pub enum TableError {
    /// The bytes read are no well-formed part of a table: a block or the
    /// footer is cut short or malformed, or a checksum does not match.
    Corruption,
    /// A key handed to a builder does not come after the key added before it.
    OrderingViolation,
    /// A key is shorter than the footer that every internal key ends with.
    KeyTooShort,
    /// A key, a value or a block is larger than the format has room for.
    TooLarge,
    /// A block is stored with a compression that this library does not undo.
    UnsupportedCompression,
}

} // verus!
