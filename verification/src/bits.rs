//! The bit-combination model: what value a run of bits denotes under each
//! ordering policy, and the executable core that assembles it.

use vstd::arithmetic::power2::{
    lemma2_to64, lemma_pow2_adds, lemma_pow2_pos, lemma_pow2_strictly_increases, lemma_pow2_unfold,
    pow2,
};
use vstd::prelude::*;

verus! {

/// The bit a byte holds at in-byte index `i` under the given policy:
/// little-endian counts indices from the least significant bit, big-endian
/// from the most significant bit.
pub open spec fn bit_of_byte(byte: u8, i: int, le: bool) -> bool
    recommends
        0 <= i < 8,
{
    if le {
        (byte >> (i as u8)) & 1u8 == 1u8
    } else {
        (byte >> ((7 - i) as u8)) & 1u8 == 1u8
    }
}

/// The bit stored at absolute bit offset `p` of a byte sequence.
pub open spec fn bit_at(data: Seq<u8>, p: int, le: bool) -> bool
    recommends
        0 <= p < data.len() * 8,
{
    bit_of_byte(data[p / 8], p % 8, le)
}

/// The unsigned value denoted by the `count` bits at offsets
/// `pos .. pos + count`. Under little-endian the first-read bit is the least
/// significant; under big-endian it is the most significant.
pub open spec fn bits_value(data: Seq<u8>, pos: int, count: nat, le: bool) -> nat
    recommends
        0 <= pos && pos + count <= data.len() * 8,
    decreases count,
{
    if count == 0 {
        0
    } else {
        let prev = bits_value(data, pos, (count - 1) as nat, le);
        let last = bit_at(data, pos + count - 1, le);
        if le {
            prev + (if last {
                pow2((count - 1) as nat)
            } else {
                0
            })
        } else {
            2 * prev + (if last {
                1nat
            } else {
                0
            })
        }
    }
}

/// The two's complement reading of an assembled `count`-bit pattern `u`: if
/// the most significant of the `count` bits is set, the value is `u - 2^count`.
pub open spec fn signed_value(u: nat, count: nat) -> int {
    if count > 0 && u >= pow2((count - 1) as nat) {
        u - pow2(count)
    } else {
        u as int
    }
}

/// The run of `n` bytes decoded one byte at a time at bit offsets
/// `pos, pos + 8, ...` under the given policy.
pub open spec fn byte_seq_at(data: Seq<u8>, pos: int, n: nat, le: bool) -> Seq<u8> {
    Seq::new(n, |i: int| bits_value(data, pos + 8 * i, 8, le) as u8)
}

/// An assembled `count`-bit value is below `2^count`.
pub proof fn lemma_bits_value_bound(data: Seq<u8>, pos: int, count: nat, le: bool)
    ensures
        bits_value(data, pos, count, le) < pow2(count),
    decreases count,
{
    if count == 0 {
        lemma2_to64();
    } else {
        lemma_bits_value_bound(data, pos, (count - 1) as nat, le);
        lemma_pow2_unfold(count);
    }
}

/// An assembled value destined for a `width`-bit type stays below
/// `2^width` whenever no more than `width` bits were requested.
pub proof fn lemma_bits_value_fits(data: Seq<u8>, pos: int, count: nat, le: bool, width: nat)
    requires
        count <= width,
        width <= 128,
    ensures
        bits_value(data, pos, count, le) < pow2(width),
{
    lemma_bits_value_bound(data, pos, count, le);
    if count < width {
        lemma_pow2_strictly_increases(count, width);
    }
}

/// A sign-extended `count`-bit value fits the two's complement range of a
/// `width`-bit type whenever no more than `width` bits were requested.
pub proof fn lemma_signed_value_fits(u: nat, count: nat, width: nat)
    requires
        u < pow2(count),
        count <= width,
        1 <= width <= 128,
    ensures
        -pow2((width - 1) as nat) <= signed_value(u, count) < pow2((width - 1) as nat),
{
    if count > 0 && u >= pow2((count - 1) as nat) {
        lemma_pow2_unfold(count);
        if count - 1 < width - 1 {
            lemma_pow2_strictly_increases((count - 1) as nat, (width - 1) as nat);
        }
    } else {
        lemma2_to64();
        lemma_pow2_pos((width - 1) as nat);
        if count > 0 && count - 1 < width - 1 {
            lemma_pow2_strictly_increases((count - 1) as nat, (width - 1) as nat);
        }
    }
}

/// Concrete values of the powers of two at the integer widths this crate
/// reads, beyond the range vstd states directly.
pub proof fn lemma_pow2_wide()
    ensures
        pow2(127) == 0x80000000000000000000000000000000,
        pow2(128) == 0x100000000000000000000000000000000,
{
    lemma2_to64();
    lemma_pow2_adds(64, 63);
    lemma_pow2_adds(64, 64);
    assert(pow2(63) == 0x8000000000000000) by {
        lemma_pow2_unfold(64);
    }
}

/// Reinterprets an assembled `count`-bit pattern as a two's complement signed
/// value, sign-extending when the most significant of the `count` bits is set.
pub fn sign_extend(u: u128, count: usize) -> (r: i128)
    requires
        count <= 128,
        (u as nat) < pow2(count as nat),
    ensures
        r as int == signed_value(u as nat, count as nat),
{
    if count == 0 {
        proof {
            lemma2_to64();
        }
        0
    } else {
        proof {
            lemma_pow2_unfold(count as nat);
            if count < 128 {
                lemma_pow2_strictly_increases(count as nat, 128);
            }
            if count - 1 < 127 {
                lemma_pow2_strictly_increases((count - 1) as nat, 127);
            }
            lemma_pow2_wide();
        }
        let t = pow2_exec(count - 1);
        if u < t {
            u as i128
        } else {
            let m = t - (u - t);
            -((m - 1) as i128) - 1
        }
    }
}

/// Reads the single bit at absolute bit offset `p`.
pub(crate) fn read_bit(bytes: &Vec<u8>, p: usize, le: bool) -> (r: bool)
    requires
        p < bytes@.len() * 8,
    ensures
        r == bit_at(bytes@, p as int, le),
{
    proof {
        assert(p as int / 8 < bytes@.len());
    }
    let byte = bytes[p / 8];
    let off = (p % 8) as u8;
    if le {
        (byte >> off) & 1u8 == 1u8
    } else {
        (byte >> (7 - off)) & 1u8 == 1u8
    }
}

/// Computes `2^e` for exponents that fit a `u128`.
fn pow2_exec(e: usize) -> (r: u128)
    requires
        e <= 127,
    ensures
        r as nat == pow2(e as nat),
{
    proof {
        lemma2_to64();
        lemma_pow2_wide();
    }
    let mut r: u128 = 1;
    let mut i: usize = 0;
    while i < e
        invariant
            i <= e <= 127,
            r as nat == pow2(i as nat),
        decreases e - i,
    {
        proof {
            lemma_pow2_unfold((i + 1) as nat);
            if i + 1 < 128 {
                lemma_pow2_strictly_increases((i + 1) as nat, 128);
            }
            lemma_pow2_wide();
        }
        r = r * 2;
        i = i + 1;
    }
    r
}

/// Assembles the `count` bits at offsets `pos .. pos + count` into their
/// unsigned value under the given policy.
pub fn read_bits_raw(bytes: &Vec<u8>, pos: usize, count: usize, le: bool) -> (r: u128)
    requires
        count <= 128,
        pos + count <= bytes@.len() * 8,
        pos + count <= usize::MAX,
    ensures
        r as nat == bits_value(bytes@, pos as int, count as nat, le),
{
    let mut acc: u128 = 0;
    let mut place: u128 = 1;
    let mut i: usize = 0;
    proof {
        lemma2_to64();
    }
    while i < count
        invariant
            i <= count <= 128,
            pos + count <= bytes@.len() * 8,
            pos + count <= usize::MAX,
            acc as nat == bits_value(bytes@, pos as int, i as nat, le),
            (acc as nat) < pow2(i as nat),
            le && i < count ==> place as nat == pow2(i as nat),
        decreases count - i,
    {
        let b = read_bit(bytes, pos + i, le);
        proof {
            lemma_bits_value_bound(bytes@, pos as int, (i + 1) as nat, le);
            lemma_pow2_unfold((i + 1) as nat);
            if i + 1 < 128 {
                lemma_pow2_strictly_increases((i + 1) as nat, 128);
            }
            lemma_pow2_wide();
        }
        if le {
            if b {
                acc = acc + place;
            }
        } else {
            acc = 2 * acc + (if b {
                1u128
            } else {
                0u128
            });
        }
        i = i + 1;
        if le && i < count {
            place = place * 2;
        }
    }
    acc
}

} // verus!
