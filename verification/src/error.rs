//! The decode failure taxonomy shared by every fallible operation.

use vstd::prelude::*;

verus! {

/// A decode failure. Every fallible operation reports one of these through an
/// ordinary `Result`; nothing panics while decoding.
#[derive(Debug, PartialEq, Eq)]
pub enum BitError {
    /// A read, skip or alignment requested more bits than remain in the
    /// current logical window.
    NotEnoughData {
        /// The number of bits the operation asked for.
        requested: usize,
        /// The number of bits the window still held.
        bits_left: usize,
    },
    /// A requested integer bit count exceeds the storage width of the target
    /// type.
    TooManyBits,
    /// A seek target lies beyond the stream's logical length.
    IndexOutOfBounds {
        /// The requested position, relative to the stream's origin.
        pos: usize,
        /// The stream's logical length in bits.
        size: usize,
    },
    /// Decoded bytes are not valid UTF-8. `valid_up_to` is the byte length of
    /// the longest prefix that is a valid encoding of whole characters, which
    /// lets a caller that ignores the error keep its cursor consistent.
    Utf8Error {
        /// Byte length of the longest valid prefix.
        valid_up_to: usize,
    },
    /// A decoded tag value has no matching variant. The engine itself never
    /// raises this; schema-driven callers share this result channel.
    UnmatchedDiscriminant {
        /// The tag value that was decoded.
        discriminant: usize,
        /// The name of the enum whose variants were searched.
        enum_name: String,
    },
}

} // verus!
