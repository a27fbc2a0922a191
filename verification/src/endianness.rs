//! Bit/byte ordering policies.

use vstd::prelude::*;

verus! {

/// A bit/byte ordering policy, chosen once per buffer and propagated to every
/// derived sub-view.
///
/// The policy fixes how bits gathered from successive bit offsets combine into
/// a multi-bit value: little-endian places the first-read bit in a byte at the
/// byte's least significant position and makes the first-read bits of a value
/// its least significant bits; big-endian reads a byte from its most
/// significant bit down and makes the first-read bits the most significant.
pub trait Endianness: Copy {
    /// True for the little-endian policy, false for the big-endian one.
    spec fn spec_is_le() -> bool;

    /// Runtime witness of the policy.
    fn is_le() -> (r: bool)
        ensures
            r == Self::spec_is_le(),
    ;
}

/// Marker type selecting the little-endian policy.
#[derive(Clone, Copy, Debug)]
pub struct LittleEndian;

/// Marker type selecting the big-endian policy.
#[derive(Clone, Copy, Debug)]
pub struct BigEndian;

impl Endianness for LittleEndian {
    open spec fn spec_is_le() -> bool {
        true
    }

    fn is_le() -> bool {
        true
    }
}

impl Endianness for BigEndian {
    open spec fn spec_is_le() -> bool {
        false
    }

    fn is_le() -> bool {
        false
    }
}

} // verus!
