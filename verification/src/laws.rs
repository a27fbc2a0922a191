//! Laws of the decoding engine, stated over the same spec functions its
//! contracts use and proved once for all inputs.

use crate::bits::{bit_at, bit_of_byte, bits_value, byte_seq_at, signed_value};
use crate::readstream::{
    align_skip, sint_outcome, spec_clone, spec_sub_stream, uint_outcome, StreamModel,
};
use vstd::arithmetic::power2::{lemma2_to64, lemma_pow2_adds, lemma_pow2_unfold, pow2};
use vstd::prelude::*;

verus! {

/// Reading 8 bits at a byte-aligned offset reproduces the stored byte
/// itself, under either ordering policy.
pub proof fn lemma_aligned_byte_identity(data: Seq<u8>, i: int, le: bool)
    requires
        0 <= i < data.len(),
    ensures
        bits_value(data, 8 * i, 8, le) == data[i],
{
    lemma2_to64();
    let b = data[i];
    assert forall|k: int| 0 <= k < 8 implies bit_at(data, 8 * i + k, le) == bit_of_byte(
        b,
        k,
        le,
    ) by {
        assert((8 * i + k) / 8 == i);
        assert((8 * i + k) % 8 == k);
    }
    reveal_with_fuel(bits_value, 9);
    if le {
        assert(bits_value(data, 8 * i, 8, true) == (if bit_of_byte(b, 0, true) {
            1int
        } else {
            0int
        }) + (if bit_of_byte(b, 1, true) {
            2int
        } else {
            0int
        }) + (if bit_of_byte(b, 2, true) {
            4int
        } else {
            0int
        }) + (if bit_of_byte(b, 3, true) {
            8int
        } else {
            0int
        }) + (if bit_of_byte(b, 4, true) {
            16int
        } else {
            0int
        }) + (if bit_of_byte(b, 5, true) {
            32int
        } else {
            0int
        }) + (if bit_of_byte(b, 6, true) {
            64int
        } else {
            0int
        }) + (if bit_of_byte(b, 7, true) {
            128int
        } else {
            0int
        }));
        assert((if (b >> 0u8) & 1u8 == 1u8 {
            1int
        } else {
            0int
        }) + (if (b >> 1u8) & 1u8 == 1u8 {
            2int
        } else {
            0int
        }) + (if (b >> 2u8) & 1u8 == 1u8 {
            4int
        } else {
            0int
        }) + (if (b >> 3u8) & 1u8 == 1u8 {
            8int
        } else {
            0int
        }) + (if (b >> 4u8) & 1u8 == 1u8 {
            16int
        } else {
            0int
        }) + (if (b >> 5u8) & 1u8 == 1u8 {
            32int
        } else {
            0int
        }) + (if (b >> 6u8) & 1u8 == 1u8 {
            64int
        } else {
            0int
        }) + (if (b >> 7u8) & 1u8 == 1u8 {
            128int
        } else {
            0int
        }) == b) by (bit_vector);
    } else {
        assert(bits_value(data, 8 * i, 8, false) == (if bit_of_byte(b, 0, false) {
            128int
        } else {
            0int
        }) + (if bit_of_byte(b, 1, false) {
            64int
        } else {
            0int
        }) + (if bit_of_byte(b, 2, false) {
            32int
        } else {
            0int
        }) + (if bit_of_byte(b, 3, false) {
            16int
        } else {
            0int
        }) + (if bit_of_byte(b, 4, false) {
            8int
        } else {
            0int
        }) + (if bit_of_byte(b, 5, false) {
            4int
        } else {
            0int
        }) + (if bit_of_byte(b, 6, false) {
            2int
        } else {
            0int
        }) + (if bit_of_byte(b, 7, false) {
            1int
        } else {
            0int
        }));
        assert((if (b >> 7u8) & 1u8 == 1u8 {
            128int
        } else {
            0int
        }) + (if (b >> 6u8) & 1u8 == 1u8 {
            64int
        } else {
            0int
        }) + (if (b >> 5u8) & 1u8 == 1u8 {
            32int
        } else {
            0int
        }) + (if (b >> 4u8) & 1u8 == 1u8 {
            16int
        } else {
            0int
        }) + (if (b >> 3u8) & 1u8 == 1u8 {
            8int
        } else {
            0int
        }) + (if (b >> 2u8) & 1u8 == 1u8 {
            4int
        } else {
            0int
        }) + (if (b >> 1u8) & 1u8 == 1u8 {
            2int
        } else {
            0int
        }) + (if (b >> 0u8) & 1u8 == 1u8 {
            1int
        } else {
            0int
        }) == b) by (bit_vector);
    }
}

/// Reading `c1 + c2` bits in one go equals reading `c1` bits and then `c2`
/// bits and combining the parts as the policy orders them: under
/// little-endian the later bits are the more significant part, under
/// big-endian the earlier ones are.
pub proof fn lemma_bits_value_concat(data: Seq<u8>, pos: int, c1: nat, c2: nat, le: bool)
    ensures
        le ==> bits_value(data, pos, (c1 + c2) as nat, true) as int == bits_value(
            data,
            pos,
            c1,
            true,
        ) as int + pow2(c1) as int * (bits_value(data, pos + c1, c2, true) as int),
        !le ==> bits_value(data, pos, (c1 + c2) as nat, false) as int == bits_value(
            data,
            pos,
            c1,
            false,
        ) as int * (pow2(c2) as int) + bits_value(data, pos + c1, c2, false) as int,
    decreases c2,
{
    if c2 == 0 {
        lemma2_to64();
        assert(bits_value(data, pos + c1, 0, le) == 0);
        assert((c1 + 0) as nat == c1);
        assert(bits_value(data, pos, (c1 + c2) as nat, le) == bits_value(data, pos, c1, le));
    } else {
        lemma_bits_value_concat(data, pos, c1, (c2 - 1) as nat, le);
        lemma_pow2_adds(c1, (c2 - 1) as nat);
        lemma_pow2_unfold(c2);
        if le {
            let vr = bits_value(data, pos + c1, (c2 - 1) as nat, true);
            let x: int = if bit_at(data, pos + c1 + c2 - 1, true) {
                1
            } else {
                0
            };
            assert(bits_value(data, pos + c1, c2, true) == vr + x * pow2((c2 - 1) as nat));
            assert(bits_value(data, pos, (c1 + c2) as nat, true) == bits_value(
                data,
                pos,
                (c1 + c2 - 1) as nat,
                true,
            ) + x * pow2((c1 + c2 - 1) as nat));
            assert(pow2((c1 + c2 - 1) as nat) == pow2(c1) * pow2((c2 - 1) as nat));
            assert(pow2(c1) * (vr + x * pow2((c2 - 1) as nat)) == pow2(c1) * vr + x * (pow2(c1)
                * pow2((c2 - 1) as nat))) by (nonlinear_arith);
            assert(pow2(c1) as int * (bits_value(data, pos + c1, c2, true) as int) == pow2(c1) * (
            vr + x * pow2((c2 - 1) as nat)));
        } else {
            let v1 = bits_value(data, pos, c1, false);
            let vr = bits_value(data, pos + c1, (c2 - 1) as nat, false);
            let x: int = if bit_at(data, pos + c1 + c2 - 1, false) {
                1
            } else {
                0
            };
            assert(bits_value(data, pos + c1, c2, false) == 2 * vr + x);
            assert(bits_value(data, pos, (c1 + c2) as nat, false) == 2 * bits_value(
                data,
                pos,
                (c1 + c2 - 1) as nat,
                false,
            ) + x);
            assert(2 * (v1 * pow2((c2 - 1) as nat) + vr) == v1 * (2 * pow2((c2 - 1) as nat)) + 2
                * vr) by (nonlinear_arith);
        }
    }
}

/// Reading whole bytes at a byte-aligned offset reproduces the stored
/// bytes, one for one, under either ordering policy.
pub proof fn lemma_aligned_bytes_identity(data: Seq<u8>, i: int, n: nat, le: bool)
    requires
        0 <= i,
        i + n <= data.len(),
    ensures
        byte_seq_at(data, 8 * i, n, le) =~= data.subrange(i, i + n),
{
    assert forall|j: int| 0 <= j < n implies #[trigger] byte_seq_at(data, 8 * i, n, le)[j]
        == data.subrange(i, i + n)[j] by {
        lemma_aligned_byte_identity(data, i + j, le);
        assert(8 * i + 8 * j == 8 * (i + j));
    }
}

/// Reading 16 aligned bits combines two stored bytes as the policy orders
/// them: big-endian makes the first byte the more significant part,
/// little-endian the second.
pub proof fn lemma_aligned_pair(data: Seq<u8>, i: int)
    requires
        0 <= i,
        i + 2 <= data.len(),
    ensures
        bits_value(data, 8 * i, 16, false) == 256 * data[i] + data[i + 1],
        bits_value(data, 8 * i, 16, true) == 256 * data[i + 1] + data[i],
{
    lemma_bits_value_concat(data, 8 * i, 8, 8, false);
    lemma_bits_value_concat(data, 8 * i, 8, 8, true);
    assert(8 * i + 8 == 8 * (i + 1));
    lemma_aligned_byte_identity(data, i, false);
    lemma_aligned_byte_identity(data, i + 1, false);
    lemma_aligned_byte_identity(data, i, true);
    lemma_aligned_byte_identity(data, i + 1, true);
    lemma2_to64();
}

/// Checked and unchecked reads agree bit for bit: on every in-bounds
/// request the checked integer read succeeds, and its value is exactly the
/// assembled value the unchecked read returns.
pub proof fn lemma_checked_unchecked_agree(m: StreamModel, count: int, width: int, le: bool)
    requires
        m.wf(),
        0 <= count <= width <= 128,
        count <= m.bits_left(),
    ensures
        uint_outcome(m, count, width, le) == Ok::<nat, crate::error::BitError>(
            bits_value(m.data, m.pos, count as nat, le),
        ),
        sint_outcome(m, count, width, le) == Ok::<int, crate::error::BitError>(
            signed_value(bits_value(m.data, m.pos, count as nat, le), count as nat),
        ),
{
}

/// Carving an `n`-bit sub-stream advances the parent by exactly `n`, the
/// sub-stream spans exactly `n` bits from its own fresh origin, and a read
/// of more than `n` bits from it fails even though the physical storage
/// behind it may extend further.
pub proof fn lemma_sub_stream_isolation(m: StreamModel, count: int, k: int, width: int, le: bool)
    requires
        m.wf(),
        0 <= count <= m.bits_left(),
        count < k,
    ensures
        spec_sub_stream(m, count).wf(),
        spec_sub_stream(m, count).bit_len() == count,
        spec_sub_stream(m, count).rel_pos() == 0,
        spec_sub_stream(m, count).bits_left() == count,
        m.with_pos(m.pos + count).rel_pos() == m.rel_pos() + count,
        uint_outcome(spec_sub_stream(m, count), k, width, le) == Err::<
            nat,
            crate::error::BitError,
        >(
            crate::error::BitError::NotEnoughData {
                requested: k as usize,
                bits_left: count as usize,
            },
        ),
{
}

/// Cloning resets the origin: the clone reads the same bytes, reports
/// position zero, and has exactly the bits the source had left.
pub proof fn lemma_clone_resets_origin(m: StreamModel)
    requires
        m.wf(),
    ensures
        spec_clone(m).wf(),
        spec_clone(m).rel_pos() == 0,
        spec_clone(m).bits_left() == m.bits_left(),
        spec_clone(m).data == m.data,
{
}

/// Alignment skips fewer than 8 bits and lands the cursor on a byte
/// boundary of the stream's own window.
pub proof fn lemma_align_lands_on_byte(m: StreamModel)
    requires
        m.wf(),
    ensures
        0 <= align_skip(m) < 8,
        (m.rel_pos() + align_skip(m)) % 8 == 0,
{
}

} // verus!
