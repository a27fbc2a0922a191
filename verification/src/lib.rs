//! Bit-precision binary decoding: integers, booleans, byte runs and UTF-8
//! strings are read from a byte buffer at arbitrary, non-byte-aligned bit
//! offsets, under a big- or little-endian bit ordering, through a
//! bounds-checked buffer and a cursor-carrying stream with nested windows.

pub mod bits;
pub mod buffer;
pub mod endianness;
pub mod error;
pub mod laws;
pub mod read;
pub mod readstream;
pub mod text;

pub use buffer::BitReadBuffer;
pub use endianness::{BigEndian, Endianness, LittleEndian};
pub use error::BitError;
pub use read::{Read, ReadSized};
pub use readstream::BitReadStream;
