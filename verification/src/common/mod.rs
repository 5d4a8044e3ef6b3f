//! Definitions shared by every part of the table format.

use vstd::prelude::*;

pub mod format;
pub mod key_order;

verus! {

/// Largest sequence number that fits in the 56 bits an internal key footer
/// gives it.
pub const MAX_SEQUENCE_NUMBER: u64 = 0x00ff_ffff_ffff_ffff;

/// Global sequence number that switches sequence-number rewriting off. It lies
/// above `MAX_SEQUENCE_NUMBER`, so no sequence number that was ever allocated
/// equals it.
pub const DISABLE_GLOBAL_SEQUENCE_NUMBER: u64 = 0xffff_ffff_ffff_ffff;

} // verus!
