//! The failures of decoding and of encoding.

use vstd::prelude::*;

verus! {

/// Why a buffer is not the wire form of what was asked for.
#[derive(Clone, Copy, Debug, PartialEq, Eq, Structural)]
pub enum DecodeError {
    /// The buffer ends before the field does.
    Truncated,
    /// The three reserved bits of the header's second flag octet are not all zero.
    ReservedFieldNonZero,
    /// A length octet starts with the reserved bit patterns `01` or `10`.
    InvalidLabelLength,
    /// A compression pointer points at or after itself, or at an offset that a
    /// pointer was already followed from.
    InvalidPointer,
    /// The labels of a name take more than 255 octets, length octets included.
    NameTooLong,
}

/// Why a value has no wire form.
#[derive(Clone, Copy, Debug, PartialEq, Eq, Structural)]
pub enum EncodeError {
    /// A record's data is longer than its 16-bit length field can say.
    PayloadTooLarge,
}

} // verus!
