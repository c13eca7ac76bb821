//! The ways in which decoding a block can fail.

use vstd::prelude::*;

verus! {

/// Why a block could not be decoded.
#[derive(Debug, Clone, Copy, PartialEq, Eq)]
pub enum DecompressError {
    /// A write would run past the end of the sink. `expected` is the size the sink would
    /// have needed for that write (saturated at `usize::MAX`), `actual` is its capacity.
    OutputTooSmall { expected: usize, actual: usize },
    /// A literal run extends past the end of the input, or a length does not fit in 32 bits.
    LiteralOutOfBounds,
    /// The input ended where a token, a length byte or an offset was still due.
    ExpectedAnotherByte,
    /// A match offset is zero or reaches back further than the available history.
    OffsetOutOfBounds,
    /// The block decoded to a different number of bytes than the caller announced.
    UncompressedSizeDiffers { expected: usize, actual: usize },
}

} // verus!
