//! Failures of a conversion.

use crate::header::FormatError;
use vstd::prelude::*;

verus! {

/// Why a conversion stopped. Every failure is fatal for the whole run.
#[derive(Clone, Copy, Debug, PartialEq, Eq, Structural)]
pub enum ZsoError {
    /// The container ends inside its header or its index table.
    UnexpectedEof,
    /// The header failed validation.
    Format(FormatError),
    /// A block could not be reconstructed to exactly one block size.
    Corruption {
        /// Sequential number of the block.
        block: u64,
        /// Byte offset of its stored form, saturated at `u64::MAX`.
        offset: u64,
    },
    /// The alignment shift cannot represent every offset in 31 bits.
    AlignmentOverflow,
    /// The compressor refused a block.
    CompressionFailed {
        /// Sequential number of the block.
        block: u64,
    },
}

/// A natural number as a `u64`, saturated at `u64::MAX`.
pub open spec fn saturated(n: nat) -> u64 {
    if n > u64::MAX {
        u64::MAX
    } else {
        n as u64
    }
}

} // verus!
