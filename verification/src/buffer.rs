//! The random-access bit buffer: owned byte storage with a logical bit
//! length, read with an explicit bit offset on every call.

use crate::bits::{
    bit_at, bits_value, byte_seq_at, lemma_bits_value_bound, read_bit, read_bits_raw, sign_extend,
    signed_value,
};
use crate::endianness::Endianness;
use crate::error::BitError;
use crate::text::{
    find_nul, lemma_len_before_nul, lemma_len_before_nul_unique, lemma_nul_is_boundary,
    len_before_nul, string_from_utf8_bytes, take_prefix, utf8_prefix, utf8_valid_prefix_len,
};
use vstd::arithmetic::power2::lemma2_to64;
use vstd::prelude::*;
use vstd::utf8::{decode_utf8, valid_utf8};

verus! {

/// The mathematical content of a buffer: the physical bytes and the logical
/// window length in bits. The window may end before the physical storage
/// does; every checked read is held to the window, not to the storage.
pub struct BufferModel {
    /// The physical bytes backing the buffer.
    pub data: Seq<u8>,
    /// The logical window length in bits.
    pub bit_len: int,
}

impl BufferModel {
    /// The window fits the storage, and the storage's bit count fits a usize.
    pub open spec fn wf(self) -> bool {
        0 <= self.bit_len <= self.data.len() * 8 && self.data.len() * 8 <= usize::MAX
    }

    /// The bits the window still holds at and after offset `pos`.
    pub open spec fn bits_left_at(self, pos: int) -> int {
        if pos <= self.bit_len {
            self.bit_len - pos
        } else {
            0
        }
    }
}

/// Whole bytes readable at bit offset `pos` before the physical storage
/// ends. An unbounded string scan is clamped by this, not by the logical
/// window, which may end earlier.
pub open spec fn phys_bytes_avail(data: Seq<u8>, pos: int) -> int {
    if pos <= data.len() * 8 {
        (data.len() * 8 - pos) / 8
    } else {
        0
    }
}

/// The bytes an unbounded string scan collects at bit offset `pos`: one byte
/// per 8 bits, up to the first NUL or the physical end of storage, the
/// terminator excluded.
pub open spec fn nul_span(data: Seq<u8>, pos: int, le: bool) -> Seq<u8> {
    let all = byte_seq_at(data, pos, phys_bytes_avail(data, pos) as nat, le);
    all.take(len_before_nul(all))
}

/// The unbounded scan collects no more bytes than the storage holds.
pub proof fn lemma_scan_len_bounded(data: Seq<u8>, pos: int, le: bool)
    requires
        0 <= pos,
    ensures
        nul_span(data, pos, le).len() <= data.len(),
{
    let avail = phys_bytes_avail(data, pos);
    let all = byte_seq_at(data, pos, avail as nat, le);
    lemma_len_before_nul(all);
    if pos <= data.len() * 8 {
        vstd::arithmetic::div_mod::lemma_div_is_ordered(
            data.len() * 8 - pos,
            data.len() as int * 8,
            8,
        );
        assert(data.len() as int * 8 / 8 == data.len());
    }
}

/// Owned byte storage plus a logical bit length, decoded under the ordering
/// policy `E`. The buffer has no cursor: every primitive takes an explicit
/// bit offset and leaves the buffer untouched.
#[derive(Debug)]
pub struct BitReadBuffer<E: Endianness> {
    bytes: Vec<u8>,
    bit_len: usize,
    endianness: E,
}

impl<E: Endianness> View for BitReadBuffer<E> {
    type V = BufferModel;

    closed spec fn view(&self) -> BufferModel {
        BufferModel { data: self.bytes@, bit_len: self.bit_len as int }
    }
}

/// Copies a byte vector.
fn copy_bytes(v: &Vec<u8>) -> (r: Vec<u8>)
    ensures
        r@ == v@,
{
    let mut r: Vec<u8> = Vec::new();
    let mut i: usize = 0;
    while i < v.len()
        invariant
            i <= v@.len(),
            r@ == v@.subrange(0, i as int),
        decreases v@.len() - i,
    {
        r.push(v[i]);
        proof {
            assert(r@ =~= v@.subrange(0, i + 1));
        }
        i = i + 1;
    }
    proof {
        assert(r@ =~= v@);
    }
    r
}

impl<E: Endianness> BitReadBuffer<E> {
    /// Creates a buffer over the given bytes; the logical window initially
    /// covers all of them.
    pub fn new(bytes: Vec<u8>, endianness: E) -> (r: Self)
        requires
            bytes@.len() * 8 <= usize::MAX,
        ensures
            r@.wf(),
            r@.data == bytes@,
            r@.bit_len == bytes@.len() * 8,
    {
        let bit_len = bytes.len() * 8;
        BitReadBuffer { bytes, bit_len, endianness }
    }

    /// The logical bit length of this buffer: the window's, which for a
    /// sub-buffer is shorter than the physical storage's.
    pub fn bit_len(&self) -> (r: usize)
        ensures
            r == self@.bit_len,
    {
        self.bit_len
    }

    /// The bits the window still holds at and after offset `pos`.
    fn bits_left_from(&self, pos: usize) -> (r: usize)
        requires
            self@.wf(),
        ensures
            r == self@.bits_left_at(pos as int),
    {
        if pos <= self.bit_len {
            self.bit_len - pos
        } else {
            0
        }
    }

    /// Reads the bit at offset `pos` as a boolean.
    /// Succeeds exactly when the bit lies inside the window.
    pub fn read_bool(&self, pos: usize) -> (r: Result<bool, BitError>)
        requires
            self@.wf(),
        ensures
            pos + 1 <= self@.bit_len ==> r == Ok::<bool, BitError>(
                bit_at(self@.data, pos as int, E::spec_is_le()),
            ),
            pos + 1 > self@.bit_len ==> r == Err::<bool, BitError>(
                BitError::NotEnoughData {
                    requested: 1,
                    bits_left: self@.bits_left_at(pos as int) as usize,
                },
            ),
    {
        if pos < self.bit_len {
            Ok(read_bit(&self.bytes, pos, E::is_le()))
        } else {
            Err(BitError::NotEnoughData { requested: 1, bits_left: self.bits_left_from(pos) })
        }
    }

    /// Reads the bit at offset `pos` as a boolean without a bounds test; the
    /// caller owes the proof that the bit lies inside the window.
    pub fn read_bool_unchecked(&self, pos: usize) -> (r: bool)
        requires
            self@.wf(),
            pos + 1 <= self@.bit_len,
        ensures
            r == bit_at(self@.data, pos as int, E::spec_is_le()),
    {
        read_bit(&self.bytes, pos, E::is_le())
    }

    /// Reads `count` bits at offset `pos` as an unsigned value.
    /// The window is verified first: past it the error is `NotEnoughData`;
    /// within it a count over 128 bits is `TooManyBits`.
    pub fn read_uint(&self, pos: usize, count: usize) -> (r: Result<u128, BitError>)
        requires
            self@.wf(),
        ensures
            pos + count > self@.bit_len ==> r == Err::<u128, BitError>(
                BitError::NotEnoughData {
                    requested: count,
                    bits_left: self@.bits_left_at(pos as int) as usize,
                },
            ),
            pos + count <= self@.bit_len && count > 128 ==> r == Err::<u128, BitError>(
                BitError::TooManyBits,
            ),
            pos + count <= self@.bit_len && count <= 128 ==> (r matches Ok(v) && v as nat
                == bits_value(self@.data, pos as int, count as nat, E::spec_is_le())),
    {
        if pos > self.bit_len || count > self.bit_len - pos {
            Err(BitError::NotEnoughData {
                requested: count,
                bits_left: self.bits_left_from(pos),
            })
        } else if count > 128 {
            Err(BitError::TooManyBits)
        } else {
            Ok(read_bits_raw(&self.bytes, pos, count, E::is_le()))
        }
    }

    /// Reads `count` bits at offset `pos` as an unsigned value without bounds
    /// tests; the caller owes the proof that the run lies inside the window.
    pub fn read_uint_unchecked(&self, pos: usize, count: usize) -> (r: u128)
        requires
            self@.wf(),
            pos + count <= self@.bit_len,
            count <= 128,
        ensures
            r as nat == bits_value(self@.data, pos as int, count as nat, E::spec_is_le()),
    {
        read_bits_raw(&self.bytes, pos, count, E::is_le())
    }

    /// Reads `count` bits at offset `pos` as a two's complement signed value:
    /// the unsigned assembly of the same bits, sign-extended when its most
    /// significant bit is set. Checked like `read_uint`.
    pub fn read_sint(&self, pos: usize, count: usize) -> (r: Result<i128, BitError>)
        requires
            self@.wf(),
        ensures
            pos + count > self@.bit_len ==> r == Err::<i128, BitError>(
                BitError::NotEnoughData {
                    requested: count,
                    bits_left: self@.bits_left_at(pos as int) as usize,
                },
            ),
            pos + count <= self@.bit_len && count > 128 ==> r == Err::<i128, BitError>(
                BitError::TooManyBits,
            ),
            pos + count <= self@.bit_len && count <= 128 ==> (r matches Ok(v) && v as int
                == signed_value(
                    bits_value(self@.data, pos as int, count as nat, E::spec_is_le()),
                    count as nat,
                )),
    {
        if pos > self.bit_len || count > self.bit_len - pos {
            Err(BitError::NotEnoughData {
                requested: count,
                bits_left: self.bits_left_from(pos),
            })
        } else if count > 128 {
            Err(BitError::TooManyBits)
        } else {
            Ok(self.read_sint_unchecked(pos, count))
        }
    }

    /// Reads `count` bits at offset `pos` as a signed value without bounds
    /// tests; the caller owes the proof that the run lies inside the window.
    pub fn read_sint_unchecked(&self, pos: usize, count: usize) -> (r: i128)
        requires
            self@.wf(),
            pos + count <= self@.bit_len,
            count <= 128,
        ensures
            r as int == signed_value(
                bits_value(self@.data, pos as int, count as nat, E::spec_is_le()),
                count as nat,
            ),
    {
        let u = read_bits_raw(&self.bytes, pos, count, E::is_le());
        proof {
            lemma_bits_value_bound(self@.data, pos as int, count as nat, E::spec_is_le());
        }
        sign_extend(u, count)
    }

    /// Reads the 32 bits of a single precision float at offset `pos` as its
    /// raw pattern, assembled like an unsigned 32-bit integer; the caller
    /// bit-casts the pattern into its float type.
    pub fn read_float32_bits(&self, pos: usize) -> (r: Result<u32, BitError>)
        requires
            self@.wf(),
        ensures
            pos + 32 <= self@.bit_len ==> (r matches Ok(v) && v as nat == bits_value(
                self@.data,
                pos as int,
                32,
                E::spec_is_le(),
            )),
            pos + 32 > self@.bit_len ==> r == Err::<u32, BitError>(
                BitError::NotEnoughData {
                    requested: 32,
                    bits_left: self@.bits_left_at(pos as int) as usize,
                },
            ),
    {
        if pos > self.bit_len || 32 > self.bit_len - pos {
            Err(BitError::NotEnoughData { requested: 32, bits_left: self.bits_left_from(pos) })
        } else {
            Ok(self.read_float32_bits_unchecked(pos))
        }
    }

    /// Reads a single precision float's 32-bit pattern without a bounds
    /// test; the caller owes the proof that the run lies inside the window.
    pub fn read_float32_bits_unchecked(&self, pos: usize) -> (r: u32)
        requires
            self@.wf(),
            pos + 32 <= self@.bit_len,
        ensures
            r as nat == bits_value(self@.data, pos as int, 32, E::spec_is_le()),
    {
        let v = read_bits_raw(&self.bytes, pos, 32, E::is_le());
        proof {
            lemma_bits_value_bound(self@.data, pos as int, 32, E::spec_is_le());
            lemma2_to64();
        }
        v as u32
    }

    /// Reads the 64 bits of a double precision float at offset `pos` as its
    /// raw pattern, assembled like an unsigned 64-bit integer; the caller
    /// bit-casts the pattern into its float type.
    pub fn read_float64_bits(&self, pos: usize) -> (r: Result<u64, BitError>)
        requires
            self@.wf(),
        ensures
            pos + 64 <= self@.bit_len ==> (r matches Ok(v) && v as nat == bits_value(
                self@.data,
                pos as int,
                64,
                E::spec_is_le(),
            )),
            pos + 64 > self@.bit_len ==> r == Err::<u64, BitError>(
                BitError::NotEnoughData {
                    requested: 64,
                    bits_left: self@.bits_left_at(pos as int) as usize,
                },
            ),
    {
        if pos > self.bit_len || 64 > self.bit_len - pos {
            Err(BitError::NotEnoughData { requested: 64, bits_left: self.bits_left_from(pos) })
        } else {
            Ok(self.read_float64_bits_unchecked(pos))
        }
    }

    /// Reads a double precision float's 64-bit pattern without a bounds
    /// test; the caller owes the proof that the run lies inside the window.
    pub fn read_float64_bits_unchecked(&self, pos: usize) -> (r: u64)
        requires
            self@.wf(),
            pos + 64 <= self@.bit_len,
        ensures
            r as nat == bits_value(self@.data, pos as int, 64, E::spec_is_le()),
    {
        let v = read_bits_raw(&self.bytes, pos, 64, E::is_le());
        proof {
            lemma_bits_value_bound(self@.data, pos as int, 64, E::spec_is_le());
            lemma2_to64();
        }
        v as u64
    }

    /// Reads `byte_count` bytes starting at bit offset `pos`, each assembled
    /// from 8 bits under the buffer's policy.
    /// Succeeds exactly when all `byte_count * 8` bits lie inside the window.
    pub fn read_bytes(&self, pos: usize, byte_count: usize) -> (r: Result<Vec<u8>, BitError>)
        requires
            self@.wf(),
            byte_count <= usize::MAX / 8,
        ensures
            pos + byte_count * 8 <= self@.bit_len ==> (r matches Ok(v) && v@ == byte_seq_at(
                self@.data,
                pos as int,
                byte_count as nat,
                E::spec_is_le(),
            )),
            pos + byte_count * 8 > self@.bit_len ==> r == Err::<Vec<u8>, BitError>(
                BitError::NotEnoughData {
                    requested: (byte_count * 8) as usize,
                    bits_left: self@.bits_left_at(pos as int) as usize,
                },
            ),
    {
        if pos > self.bit_len || byte_count * 8 > self.bit_len - pos {
            Err(BitError::NotEnoughData {
                requested: byte_count * 8,
                bits_left: self.bits_left_from(pos),
            })
        } else {
            Ok(self.read_bytes_unchecked(pos, byte_count))
        }
    }

    /// Reads `byte_count` bytes starting at bit offset `pos` without bounds
    /// tests; the caller owes the proof that the run lies inside the window.
    pub fn read_bytes_unchecked(&self, pos: usize, byte_count: usize) -> (r: Vec<u8>)
        requires
            self@.wf(),
            pos + byte_count * 8 <= self@.bit_len,
        ensures
            r@ == byte_seq_at(self@.data, pos as int, byte_count as nat, E::spec_is_le()),
    {
        let ghost le = E::spec_is_le();
        let mut out: Vec<u8> = Vec::new();
        let mut i: usize = 0;
        while i < byte_count
            invariant
                self@.wf(),
                i <= byte_count,
                pos + byte_count * 8 <= self@.bit_len,
                out@ == byte_seq_at(self@.data, pos as int, i as nat, le),
                le == E::spec_is_le(),
            decreases byte_count - i,
        {
            let b = read_bits_raw(&self.bytes, pos + 8 * i, 8, E::is_le());
            proof {
                lemma_bits_value_bound(self@.data, pos as int + 8 * i, 8, le);
                lemma2_to64();
            }
            out.push(b as u8);
            proof {
                assert(out@ =~= byte_seq_at(self@.data, pos as int, (i + 1) as nat, le));
            }
            i = i + 1;
        }
        out
    }

    /// Collects the bytes of an unbounded string scan: one byte per 8 bits
    /// from `pos`, stopping before the first NUL or at the physical end of
    /// storage.
    fn scan_nul(&self, pos: usize) -> (r: Vec<u8>)
        requires
            self@.wf(),
        ensures
            r@ == nul_span(self@.data, pos as int, E::spec_is_le()),
    {
        let ghost le = E::spec_is_le();
        let ghost avail = phys_bytes_avail(self@.data, pos as int);
        let ghost all = byte_seq_at(self@.data, pos as int, avail as nat, le);
        let mut out: Vec<u8> = Vec::new();
        let phys = self.bytes.len() * 8;
        if pos > phys {
            proof {
                assert(all.take(len_before_nul(all)) =~= out@);
            }
            return out;
        }
        let max_bytes = (phys - pos) / 8;
        proof {
            assert(avail == max_bytes);
            assert(8 * ((phys - pos) as int / 8) <= phys - pos);
        }
        let mut i: usize = 0;
        while i < max_bytes
            invariant
                self@.wf(),
                i <= max_bytes == avail,
                pos + 8 * max_bytes <= self@.data.len() * 8,
                pos + 8 * max_bytes <= usize::MAX,
                le == E::spec_is_le(),
                avail == phys_bytes_avail(self@.data, pos as int),
                all == byte_seq_at(self@.data, pos as int, avail as nat, le),
                out@ == all.take(i as int),
                forall|k: int| 0 <= k < i ==> all[k] != 0,
            decreases max_bytes - i,
        {
            let b128 = read_bits_raw(&self.bytes, pos + 8 * i, 8, E::is_le());
            proof {
                lemma_bits_value_bound(self@.data, pos as int + 8 * i, 8, le);
                lemma2_to64();
                assert(all[i as int] == b128 as u8);
            }
            let b = b128 as u8;
            if b == 0 {
                proof {
                    lemma_len_before_nul_unique(all, i as int);
                }
                return out;
            }
            out.push(b);
            proof {
                assert(out@ =~= all.take(i + 1));
            }
            i = i + 1;
        }
        proof {
            lemma_len_before_nul_unique(all, avail);
            assert(out@ =~= all.take(len_before_nul(all)));
        }
        out
    }

    /// Reads a UTF-8 string at bit offset `pos`. With `byte_len == Some(n)`,
    /// exactly `n` bytes are decoded and the returned value stops at the
    /// first NUL; the whole run must lie inside the window and be valid
    /// UTF-8. With `byte_len == None`, bytes are scanned up to the first NUL
    /// or the physical end of storage and decoded whole. Invalid bytes are
    /// reported with the byte length of their longest valid prefix.
    pub fn read_string(&self, pos: usize, byte_len: Option<usize>) -> (r: Result<String, BitError>)
        requires
            self@.wf(),
            byte_len matches Some(n) ==> n <= usize::MAX / 8,
        ensures
            ({
                let le = E::spec_is_le();
                match byte_len {
                    Some(n) => {
                        &&& pos + n * 8 > self@.bit_len ==> r == Err::<String, BitError>(
                            BitError::NotEnoughData {
                                requested: (n * 8) as usize,
                                bits_left: self@.bits_left_at(pos as int) as usize,
                            },
                        )
                        &&& pos + n * 8 <= self@.bit_len ==> {
                            let raw = byte_seq_at(self@.data, pos as int, n as nat, le);
                            &&& valid_utf8(raw) ==> (r matches Ok(s) && s@ == decode_utf8(
                                raw.take(len_before_nul(raw)),
                            ))
                            &&& !valid_utf8(raw) ==> r == Err::<String, BitError>(
                                BitError::Utf8Error {
                                    valid_up_to: utf8_valid_prefix_len(raw) as usize,
                                },
                            )
                        }
                    },
                    None => {
                        let scanned = nul_span(self@.data, pos as int, le);
                        &&& valid_utf8(scanned) ==> (r matches Ok(s) && s@ == decode_utf8(scanned))
                        &&& !valid_utf8(scanned) ==> r == Err::<String, BitError>(
                            BitError::Utf8Error {
                                valid_up_to: utf8_valid_prefix_len(scanned) as usize,
                            },
                        )
                    },
                }
            }),
    {
        match byte_len {
            Some(n) => {
                let raw = match self.read_bytes(pos, n) {
                    Ok(b) => b,
                    Err(e) => {
                        return Err(e);
                    },
                };
                let vp = utf8_prefix(raw.as_slice());
                if vp < raw.len() {
                    Err(BitError::Utf8Error { valid_up_to: vp })
                } else {
                    let j = find_nul(raw.as_slice());
                    proof {
                        lemma_nul_is_boundary(raw@);
                        lemma_len_before_nul(raw@);
                    }
                    let prefix = take_prefix(raw.as_slice(), j);
                    Ok(string_from_utf8_bytes(prefix))
                }
            },
            None => {
                let scanned = self.scan_nul(pos);
                let vp = utf8_prefix(scanned.as_slice());
                if vp < scanned.len() {
                    Err(BitError::Utf8Error { valid_up_to: vp })
                } else {
                    Ok(string_from_utf8_bytes(scanned))
                }
            },
        }
    }

    /// Carves a sub-buffer: the same physical bytes under a window that ends
    /// at bit offset `end`, measured in this buffer's window.
    /// Succeeds exactly when `end` does not pass the current window's end.
    pub fn get_sub_buffer(&self, end: usize) -> (r: Result<Self, BitError>)
        requires
            self@.wf(),
        ensures
            end <= self@.bit_len ==> (r matches Ok(b) && b@.wf() && b@.data == self@.data
                && b@.bit_len == end),
            end > self@.bit_len ==> r == Err::<Self, BitError>(
                BitError::NotEnoughData {
                    requested: end,
                    bits_left: self@.bit_len as usize,
                },
            ),
    {
        if end <= self.bit_len {
            Ok(BitReadBuffer {
                bytes: copy_bytes(&self.bytes),
                bit_len: end,
                endianness: self.endianness,
            })
        } else {
            Err(BitError::NotEnoughData { requested: end, bits_left: self.bit_len })
        }
    }
}

impl<E: Endianness> Clone for BitReadBuffer<E> {
    /// Duplicates the buffer: same bytes, same window, same policy.
    fn clone(&self) -> (r: Self)
        ensures
            r@ == self@,
    {
        BitReadBuffer {
            bytes: copy_bytes(&self.bytes),
            bit_len: self.bit_len,
            endianness: self.endianness,
        }
    }
}

} // verus!
