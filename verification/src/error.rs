//! What can go wrong, as values.

use vstd::prelude::*;

verus! {

/// Why text could not be converted to or from the legacy encoding.
#[derive(Clone, Copy, Debug, PartialEq, Eq, Structural)]
pub enum CodecError {
    /// The bytes are not valid in the legacy encoding.
    Malformed,
    /// The text holds a character the legacy encoding does not have.
    Unmappable,
    /// The input is longer than the codec can size a buffer for.
    TooLong,
}

/// Why an extraction or a patch run was abandoned.
#[derive(Clone, Copy, Debug, PartialEq, Eq, Structural)]
pub enum Error {
    /// The string of the slot at `address` could not be converted.
    Encoding { address: u32, cause: CodecError },
    /// The sidecar has no text for the slot at `address`.
    MissingSlot { address: u32 },
    /// More room is needed than there is: `required` bytes against
    /// `available`.
    Capacity { required: u64, available: u32 },
    /// The slot at `address` does not lie within the image.
    Truncated { address: u32 },
    /// The slot at `address` holds a pointer below the translation offset.
    BadPointer { address: u32, pointer: u32 },
    /// The string of the slot at `address` runs into the end of the image:
    /// no null byte ends it.
    Unterminated { address: u32 },
    /// Line `line` of the sidecar, counted from zero, has no comma.
    MissingSeparator { line: usize },
    /// Line `line` of the sidecar, counted from zero, does not start with a
    /// hexadecimal address that fits in 32 bits.
    BadAddress { line: usize },
    /// The sidecar has more than one line for `address`.
    DuplicateAddress { address: u32 },
}

} // verus!
