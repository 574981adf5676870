//! Errors reported while framing or decoding LEB128 bytes.
use vstd::prelude::*;

verus! {

/// Why a byte sequence could not be framed or decoded.
#[derive(Debug, Clone, Copy, PartialEq, Eq, Structural)]
pub enum DecodeError {
    /// No byte with a clear continuation bit was found: the value is cut off.
    Truncated,
    /// Bytes remain after the last complete value.
    TrailingBytes,
    /// The value does not fit in an integer of `requested_width` bits; it
    /// needs `needed_bits`.
    Overflow { requested_width: u32, needed_bits: u128 },
}

} // verus!
