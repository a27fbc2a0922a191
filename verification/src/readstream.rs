//! The bit stream: a cursor over a bit buffer, with hierarchical windows,
//! automatic advancement on success, and the string-decoding recovery rules.

use crate::bits::{bit_at, bits_value, byte_seq_at, lemma_bits_value_bound, signed_value};
use crate::buffer::{lemma_scan_len_bounded, nul_span, BitReadBuffer, BufferModel};
use crate::endianness::Endianness;
use crate::error::BitError;
use crate::read::{Read, ReadSized};
use crate::text::{
    fit_boundary_len, fit_prefix, len_before_nul, lemma_fit_boundary, string_from_utf8_bytes,
    take_prefix, utf8_valid_prefix_len,
};
use vstd::prelude::*;
use vstd::utf8::{decode_utf8, decode_utf8_encode_utf8, valid_utf8};

verus! {

/// The mathematical content of a stream: the physical bytes, the absolute
/// bounds of the logical window, and the absolute cursor position. Outward
/// positions are relative to `start`; the model keeps absolute offsets so
/// that bit values can be read off `data` directly.
pub struct StreamModel {
    /// The physical bytes backing the stream's buffer.
    pub data: Seq<u8>,
    /// Absolute bit offset of the window's origin.
    pub start: int,
    /// Absolute bit offset of the window's end.
    pub end: int,
    /// Absolute bit offset of the cursor.
    pub pos: int,
}

impl StreamModel {
    /// The cursor stays inside the window, the window inside the storage.
    pub open spec fn wf(self) -> bool {
        &&& 0 <= self.start <= self.pos <= self.end <= self.data.len() * 8
        &&& self.data.len() * 8 <= usize::MAX
    }

    /// The stream's logical length in bits.
    pub open spec fn bit_len(self) -> int {
        self.end - self.start
    }

    /// The cursor position relative to the window's origin.
    pub open spec fn rel_pos(self) -> int {
        self.pos - self.start
    }

    /// The bits between the cursor and the window's end.
    pub open spec fn bits_left(self) -> int {
        self.end - self.pos
    }

    /// The same stream with the cursor at absolute offset `p`.
    pub open spec fn with_pos(self, p: int) -> StreamModel {
        StreamModel { pos: p, ..self }
    }
}

/// The checked outcome of reading `count` bits as an unsigned integer whose
/// target type stores `width` bits: bounds are verified first, then the
/// count against the width.
pub open spec fn uint_outcome(m: StreamModel, count: int, width: int, le: bool) -> Result<
    nat,
    BitError,
> {
    if count > m.bits_left() {
        Err(
            BitError::NotEnoughData {
                requested: count as usize,
                bits_left: m.bits_left() as usize,
            },
        )
    } else if count > width {
        Err(BitError::TooManyBits)
    } else {
        Ok(bits_value(m.data, m.pos, count as nat, le))
    }
}

/// The checked outcome of reading `count` bits as a signed integer of
/// `width`-bit storage: the unsigned assembly reinterpreted in two's
/// complement.
pub open spec fn sint_outcome(m: StreamModel, count: int, width: int, le: bool) -> Result<
    int,
    BitError,
> {
    match uint_outcome(m, count, width, le) {
        Ok(v) => Ok(signed_value(v, count as nat)),
        Err(e) => Err(e),
    }
}

/// The bits `align` skips: up to the next multiple of 8 relative to the
/// stream's own origin.
pub open spec fn align_skip(m: StreamModel) -> int {
    if m.rel_pos() % 8 == 0 {
        0
    } else {
        8 - m.rel_pos() % 8
    }
}

/// The cursor and result of a clone: same bytes and window end, but the
/// origin is reset to the source's cursor, so the clone starts fresh at
/// relative position zero with the same bits remaining.
pub open spec fn spec_clone(m: StreamModel) -> StreamModel {
    StreamModel { start: m.pos, pos: m.pos, ..m }
}

/// The sub-stream `read_bits` carves: the same physical bytes, a window of
/// exactly `count` bits starting at the parent's cursor, and a cursor at
/// that window's origin.
pub open spec fn spec_sub_stream(m: StreamModel, count: int) -> StreamModel {
    StreamModel { data: m.data, start: m.pos, pos: m.pos, end: m.pos + count }
}

/// The cursor and value a fixed-length string read leaves behind: `n` bytes
/// are decoded and consumed whole; the returned value stops at the first
/// NUL. The cursor advances by `n * 8` bits even when the bytes are not
/// valid UTF-8, so a caller that ignores the error stays positioned.
pub open spec fn read_string_fixed(m: StreamModel, n: int, le: bool) -> (StreamModel, Result<
    Seq<char>,
    BitError,
>) {
    if 8 * n > m.bits_left() {
        (
            m,
            Err(
                BitError::NotEnoughData {
                    requested: (8 * n) as usize,
                    bits_left: m.bits_left() as usize,
                },
            ),
        )
    } else {
        let raw = byte_seq_at(m.data, m.pos, n as nat, le);
        if valid_utf8(raw) {
            (m.with_pos(m.pos + 8 * n), Ok(decode_utf8(raw.take(len_before_nul(raw)))))
        } else {
            (
                m.with_pos(m.pos + 8 * n),
                Err(BitError::Utf8Error { valid_up_to: utf8_valid_prefix_len(raw) as usize }),
            )
        }
    }
}

/// The cursor and value an unbounded string read leaves behind. Bytes are
/// scanned up to the first NUL or the physical end of storage — which may
/// pass the stream's logical window. When the consumption would pass the
/// window, the value is cut to the longest character-boundary prefix that
/// fits the window's remaining whole bytes and only that much is consumed;
/// otherwise the scanned bytes plus the terminator are consumed. On
/// malformed UTF-8 the cursor still advances, by
/// `(valid_up_to + 1) * 8` bits capped at `bits_left / 8`, so a caller
/// that ignores the error keeps a consistent position.
pub open spec fn read_string_unsized(m: StreamModel, le: bool) -> (StreamModel, Result<
    Seq<char>,
    BitError,
>) {
    let max_length = m.bits_left() / 8;
    let scanned = nul_span(m.data, m.pos, le);
    if !valid_utf8(scanned) {
        let vup = utf8_valid_prefix_len(scanned);
        let adv = if (vup + 1) * 8 <= max_length {
            (vup + 1) * 8
        } else {
            max_length
        };
        (m.with_pos(m.pos + adv), Err(BitError::Utf8Error { valid_up_to: vup as usize }))
    } else {
        let consumed = (scanned.len() + 1) * 8;
        if consumed <= m.bits_left() {
            (m.with_pos(m.pos + consumed), Ok(decode_utf8(scanned)))
        } else {
            let fit = fit_boundary_len(scanned, max_length);
            (m.with_pos(m.pos + 8 * fit), Ok(decode_utf8(scanned.take(fit))))
        }
    }
}

/// Relates an executable string result to the specification's character
/// sequences: same error, or a string whose characters are the sequence.
pub open spec fn string_result_matches(r: Result<String, BitError>, s: Result<
    Seq<char>,
    BitError,
>) -> bool {
    match (r, s) {
        (Ok(a), Ok(b)) => a@ == b,
        (Err(e1), Err(e2)) => e1 == e2,
        _ => false,
    }
}

/// Stream over a bit buffer: every read decodes at the current cursor and
/// advances it by the bits consumed exactly when the read succeeds.
#[derive(Debug)]
pub struct BitReadStream<E: Endianness> {
    buffer: BitReadBuffer<E>,
    start_pos: usize,
    pos: usize,
}

impl<E: Endianness> View for BitReadStream<E> {
    type V = StreamModel;

    closed spec fn view(&self) -> StreamModel {
        StreamModel {
            data: self.buffer@.data,
            start: self.start_pos as int,
            end: self.buffer@.bit_len,
            pos: self.pos as int,
        }
    }
}

impl<E: Endianness> BitReadStream<E> {
    /// Creates a stream over a buffer, with the cursor and origin at the
    /// buffer's first bit.
    pub fn new(buffer: BitReadBuffer<E>) -> (r: Self)
        requires
            buffer@.wf(),
        ensures
            r@.wf(),
            r@.data == buffer@.data,
            r@.start == 0,
            r@.pos == 0,
            r@.end == buffer@.bit_len,
    {
        BitReadStream { start_pos: 0, pos: 0, buffer }
    }

    /// The stream's logical length in bits.
    pub fn bit_len(&self) -> (r: usize)
        requires
            self@.wf(),
        ensures
            r == self@.bit_len(),
    {
        self.buffer.bit_len() - self.start_pos
    }

    /// The cursor position, relative to the stream's own origin.
    pub fn pos(&self) -> (r: usize)
        requires
            self@.wf(),
        ensures
            r == self@.rel_pos(),
    {
        self.pos - self.start_pos
    }

    /// The bits between the cursor and the window's end.
    pub fn bits_left(&self) -> (r: usize)
        requires
            self@.wf(),
        ensures
            r == self@.bits_left(),
    {
        self.bit_len() - self.pos()
    }

    /// Tests whether `count` bits can be read at the cursor, returning the
    /// same error a real read would raise. The cursor does not move.
    pub fn check_read(&self, count: usize) -> (r: Result<(), BitError>)
        requires
            self@.wf(),
        ensures
            count <= self@.bits_left() ==> r == Ok::<(), BitError>(()),
            count > self@.bits_left() ==> r == Err::<(), BitError>(
                BitError::NotEnoughData {
                    requested: count,
                    bits_left: self@.bits_left() as usize,
                },
            ),
    {
        if self.bits_left() < count {
            Err(BitError::NotEnoughData { requested: count, bits_left: self.bits_left() })
        } else {
            Ok(())
        }
    }

    /// Reads one bit as a boolean, advancing the cursor on success and
    /// leaving it in place on failure.
    pub fn read_bool(&mut self) -> (r: Result<bool, BitError>)
        requires
            old(self)@.wf(),
        ensures
            final(self)@.wf(),
            old(self)@.bits_left() >= 1 ==> r == Ok::<bool, BitError>(
                bit_at(old(self)@.data, old(self)@.pos, E::spec_is_le()),
            ) && final(self)@ == old(self)@.with_pos(old(self)@.pos + 1),
            old(self)@.bits_left() < 1 ==> r == Err::<bool, BitError>(
                BitError::NotEnoughData {
                    requested: 1,
                    bits_left: old(self)@.bits_left() as usize,
                },
            ) && final(self)@ == old(self)@,
    {
        let result = self.buffer.read_bool(self.pos);
        if result.is_ok() {
            self.pos = self.pos + 1;
        }
        result
    }

    /// Reads one bit as a boolean without a bounds test; the caller owes the
    /// proof that a bit remains.
    pub fn read_bool_unchecked(&mut self) -> (r: bool)
        requires
            old(self)@.wf(),
            old(self)@.bits_left() >= 1,
        ensures
            final(self)@.wf(),
            r == bit_at(old(self)@.data, old(self)@.pos, E::spec_is_le()),
            final(self)@ == old(self)@.with_pos(old(self)@.pos + 1),
    {
        let result = self.buffer.read_bool_unchecked(self.pos);
        self.pos = self.pos + 1;
        result
    }

    /// Reads `count` bits as an unsigned value destined for a `width`-bit
    /// integer type: bounds are verified first (`NotEnoughData`), then the
    /// count against the width (`TooManyBits`). The cursor advances exactly
    /// on success.
    pub fn read_unsigned(&mut self, count: usize, width: usize) -> (r: Result<u128, BitError>)
        requires
            old(self)@.wf(),
            width <= 128,
        ensures
            final(self)@.wf(),
            match uint_outcome(old(self)@, count as int, width as int, E::spec_is_le()) {
                Ok(v) => r matches Ok(x) && x as nat == v && final(self)@ == old(self)@.with_pos(
                    old(self)@.pos + count,
                ),
                Err(e) => r == Err::<u128, BitError>(e) && final(self)@ == old(self)@,
            },
    {
        let left = self.bits_left();
        if count > left {
            Err(BitError::NotEnoughData { requested: count, bits_left: left })
        } else if count > width {
            Err(BitError::TooManyBits)
        } else {
            let v = self.buffer.read_uint_unchecked(self.pos, count);
            self.pos = self.pos + count;
            Ok(v)
        }
    }

    /// Reads `count` bits as an unsigned value without bounds tests; the
    /// caller owes the proof that `count` bits remain.
    pub fn read_unsigned_unchecked(&mut self, count: usize) -> (r: u128)
        requires
            old(self)@.wf(),
            count <= 128,
            count <= old(self)@.bits_left(),
        ensures
            final(self)@.wf(),
            r as nat == bits_value(old(self)@.data, old(self)@.pos, count as nat, E::spec_is_le()),
            final(self)@ == old(self)@.with_pos(old(self)@.pos + count),
    {
        let v = self.buffer.read_uint_unchecked(self.pos, count);
        self.pos = self.pos + count;
        v
    }

    /// Reads `count` bits as a two's complement signed value destined for a
    /// `width`-bit integer type, checked like `read_unsigned`.
    pub fn read_signed(&mut self, count: usize, width: usize) -> (r: Result<i128, BitError>)
        requires
            old(self)@.wf(),
            width <= 128,
        ensures
            final(self)@.wf(),
            match sint_outcome(old(self)@, count as int, width as int, E::spec_is_le()) {
                Ok(v) => r matches Ok(x) && x as int == v && final(self)@ == old(self)@.with_pos(
                    old(self)@.pos + count,
                ),
                Err(e) => r == Err::<i128, BitError>(e) && final(self)@ == old(self)@,
            },
    {
        let left = self.bits_left();
        if count > left {
            Err(BitError::NotEnoughData { requested: count, bits_left: left })
        } else if count > width {
            Err(BitError::TooManyBits)
        } else {
            let v = self.buffer.read_sint_unchecked(self.pos, count);
            self.pos = self.pos + count;
            Ok(v)
        }
    }

    /// Reads `count` bits as a signed value without bounds tests; the caller
    /// owes the proof that `count` bits remain.
    pub fn read_signed_unchecked(&mut self, count: usize) -> (r: i128)
        requires
            old(self)@.wf(),
            count <= 128,
            count <= old(self)@.bits_left(),
        ensures
            final(self)@.wf(),
            r as int == signed_value(
                bits_value(old(self)@.data, old(self)@.pos, count as nat, E::spec_is_le()),
                count as nat,
            ),
            final(self)@ == old(self)@.with_pos(old(self)@.pos + count),
    {
        let v = self.buffer.read_sint_unchecked(self.pos, count);
        self.pos = self.pos + count;
        v
    }

    /// Reads the 32 bits of a single precision float as its raw pattern,
    /// assembled like an unsigned 32-bit integer under the stream's policy.
    /// The caller bit-casts the pattern into its float type.
    pub fn read_float32_bits(&mut self) -> (r: Result<u32, BitError>)
        requires
            old(self)@.wf(),
        ensures
            final(self)@.wf(),
            old(self)@.bits_left() >= 32 ==> (r matches Ok(v) && v as nat == bits_value(
                old(self)@.data,
                old(self)@.pos,
                32,
                E::spec_is_le(),
            ) && final(self)@ == old(self)@.with_pos(old(self)@.pos + 32)),
            old(self)@.bits_left() < 32 ==> r == Err::<u32, BitError>(
                BitError::NotEnoughData {
                    requested: 32,
                    bits_left: old(self)@.bits_left() as usize,
                },
            ) && final(self)@ == old(self)@,
    {
        match self.read_unsigned(32, 32) {
            Ok(v) => {
                proof {
                    lemma_bits_value_bound(old(self)@.data, old(self)@.pos, 32, E::spec_is_le());
                    vstd::arithmetic::power2::lemma2_to64();
                }
                Ok(v as u32)
            },
            Err(e) => Err(e),
        }
    }

    /// Reads the 64 bits of a double precision float as its raw pattern,
    /// assembled like an unsigned 64-bit integer under the stream's policy.
    /// The caller bit-casts the pattern into its float type.
    pub fn read_float64_bits(&mut self) -> (r: Result<u64, BitError>)
        requires
            old(self)@.wf(),
        ensures
            final(self)@.wf(),
            old(self)@.bits_left() >= 64 ==> (r matches Ok(v) && v as nat == bits_value(
                old(self)@.data,
                old(self)@.pos,
                64,
                E::spec_is_le(),
            ) && final(self)@ == old(self)@.with_pos(old(self)@.pos + 64)),
            old(self)@.bits_left() < 64 ==> r == Err::<u64, BitError>(
                BitError::NotEnoughData {
                    requested: 64,
                    bits_left: old(self)@.bits_left() as usize,
                },
            ) && final(self)@ == old(self)@,
    {
        match self.read_unsigned(64, 64) {
            Ok(v) => {
                proof {
                    lemma_bits_value_bound(old(self)@.data, old(self)@.pos, 64, E::spec_is_le());
                    vstd::arithmetic::power2::lemma2_to64();
                }
                Ok(v as u64)
            },
            Err(e) => Err(e),
        }
    }

    /// Reads the 32 bits of a single precision float's pattern without a
    /// bounds test; the caller owes the proof that 32 bits remain.
    pub fn read_float32_bits_unchecked(&mut self) -> (r: u32)
        requires
            old(self)@.wf(),
            old(self)@.bits_left() >= 32,
        ensures
            final(self)@.wf(),
            r as nat == bits_value(old(self)@.data, old(self)@.pos, 32, E::spec_is_le()),
            final(self)@ == old(self)@.with_pos(old(self)@.pos + 32),
    {
        let v = self.read_unsigned_unchecked(32);
        proof {
            lemma_bits_value_bound(old(self)@.data, old(self)@.pos, 32, E::spec_is_le());
            vstd::arithmetic::power2::lemma2_to64();
        }
        v as u32
    }

    /// Reads the 64 bits of a double precision float's pattern without a
    /// bounds test; the caller owes the proof that 64 bits remain.
    pub fn read_float64_bits_unchecked(&mut self) -> (r: u64)
        requires
            old(self)@.wf(),
            old(self)@.bits_left() >= 64,
        ensures
            final(self)@.wf(),
            r as nat == bits_value(old(self)@.data, old(self)@.pos, 64, E::spec_is_le()),
            final(self)@ == old(self)@.with_pos(old(self)@.pos + 64),
    {
        let v = self.read_unsigned_unchecked(64);
        proof {
            lemma_bits_value_bound(old(self)@.data, old(self)@.pos, 64, E::spec_is_le());
            vstd::arithmetic::power2::lemma2_to64();
        }
        v as u64
    }

    /// Reads `byte_count` bytes at the cursor, each assembled from 8 bits
    /// under the stream's policy. The cursor advances by `byte_count * 8`
    /// bits exactly on success.
    pub fn read_bytes(&mut self, byte_count: usize) -> (r: Result<Vec<u8>, BitError>)
        requires
            old(self)@.wf(),
            byte_count <= usize::MAX / 8,
        ensures
            final(self)@.wf(),
            byte_count * 8 <= old(self)@.bits_left() ==> (r matches Ok(v) && v@ == byte_seq_at(
                old(self)@.data,
                old(self)@.pos,
                byte_count as nat,
                E::spec_is_le(),
            ) && final(self)@ == old(self)@.with_pos(old(self)@.pos + byte_count * 8)),
            byte_count * 8 > old(self)@.bits_left() ==> r == Err::<Vec<u8>, BitError>(
                BitError::NotEnoughData {
                    requested: (byte_count * 8) as usize,
                    bits_left: old(self)@.bits_left() as usize,
                },
            ) && final(self)@ == old(self)@,
    {
        let count = byte_count * 8;
        let result = self.buffer.read_bytes(self.pos, byte_count);
        if result.is_ok() {
            self.pos = self.pos + count;
        }
        result
    }

    /// Reads `byte_count` bytes at the cursor without bounds tests; the
    /// caller owes the proof that `byte_count * 8` bits remain.
    pub fn read_bytes_unchecked(&mut self, byte_count: usize) -> (r: Vec<u8>)
        requires
            old(self)@.wf(),
            byte_count * 8 <= old(self)@.bits_left(),
        ensures
            final(self)@.wf(),
            r@ == byte_seq_at(
                old(self)@.data,
                old(self)@.pos,
                byte_count as nat,
                E::spec_is_le(),
            ),
            final(self)@ == old(self)@.with_pos(old(self)@.pos + byte_count * 8),
    {
        let count = byte_count * 8;
        let result = self.buffer.read_bytes_unchecked(self.pos, byte_count);
        self.pos = self.pos + count;
        result
    }

    /// Carves a sub-stream spanning exactly the next `count` bits and
    /// advances this stream's cursor past them. The sub-stream starts at its
    /// own origin with `bit_len` equal to `count`, independent of how much
    /// physical storage lies beyond. On failure neither happens.
    pub fn read_bits(&mut self, count: usize) -> (r: Result<Self, BitError>)
        requires
            old(self)@.wf(),
        ensures
            final(self)@.wf(),
            count <= old(self)@.bits_left() ==> (r matches Ok(sub) && sub@.wf() && sub@
                == spec_sub_stream(old(self)@, count as int) && final(self)@ == old(
                self,
            )@.with_pos(old(self)@.pos + count)),
            count > old(self)@.bits_left() ==> r == Err::<Self, BitError>(
                BitError::NotEnoughData {
                    requested: count,
                    bits_left: old(self)@.bits_left() as usize,
                },
            ) && final(self)@ == old(self)@,
    {
        let left = self.bits_left();
        if count > left {
            return Err(BitError::NotEnoughData { requested: count, bits_left: left });
        }
        let sub_buffer = match self.buffer.get_sub_buffer(self.pos + count) {
            Ok(b) => b,
            Err(e) => {
                return Err(e);
            },
        };
        let result = BitReadStream { buffer: sub_buffer, start_pos: self.pos, pos: self.pos };
        self.pos = self.pos + count;
        Ok(result)
    }

    /// Moves the cursor forward over `count` bits without decoding them.
    /// Fails, leaving the cursor in place, when fewer bits remain.
    pub fn skip_bits(&mut self, count: usize) -> (r: Result<(), BitError>)
        requires
            old(self)@.wf(),
        ensures
            final(self)@.wf(),
            count <= old(self)@.bits_left() ==> r == Ok::<(), BitError>(()) && final(self)@ == old(
                self,
            )@.with_pos(old(self)@.pos + count),
            count > old(self)@.bits_left() ==> r == Err::<(), BitError>(
                BitError::NotEnoughData {
                    requested: count,
                    bits_left: old(self)@.bits_left() as usize,
                },
            ) && final(self)@ == old(self)@,
    {
        if count <= self.bits_left() {
            self.pos = self.pos + count;
            Ok(())
        } else {
            Err(BitError::NotEnoughData { requested: count, bits_left: self.bits_left() })
        }
    }

    /// Moves the cursor to the next multiple of 8 bits relative to the
    /// stream's own origin and returns the number of bits skipped, 0 when
    /// already aligned. Fails when fewer bits remain than alignment needs.
    pub fn align(&mut self) -> (r: Result<usize, BitError>)
        requires
            old(self)@.wf(),
        ensures
            final(self)@.wf(),
            align_skip(old(self)@) <= old(self)@.bits_left() ==> r == Ok::<usize, BitError>(
                align_skip(old(self)@) as usize,
            ) && final(self)@ == old(self)@.with_pos(old(self)@.pos + align_skip(old(self)@)),
            align_skip(old(self)@) > old(self)@.bits_left() ==> r == Err::<usize, BitError>(
                BitError::NotEnoughData {
                    requested: align_skip(old(self)@) as usize,
                    bits_left: old(self)@.bits_left() as usize,
                },
            ) && final(self)@ == old(self)@,
    {
        let rel = self.pos - self.start_pos;
        let n = rel % 8;
        if n == 0 {
            Ok(0)
        } else {
            match self.skip_bits(8 - n) {
                Ok(()) => Ok(8 - n),
                Err(e) => Err(e),
            }
        }
    }

    /// Reads a UTF-8 string at the cursor. With `byte_len == Some(n)`,
    /// exactly `n` bytes are decoded, consumed whole, and the value is
    /// trimmed at the first NUL. With `byte_len == None`, bytes are scanned
    /// up to a NUL, and the terminator is consumed too. A scan that would
    /// consume past the logical window is cut to the longest fitting
    /// character boundary, and malformed UTF-8 advances the cursor by the
    /// declared or clamped length even though the call reports the error;
    /// `read_string_fixed` and `read_string_unsized` state both rules.
    pub fn read_string(&mut self, byte_len: Option<usize>) -> (r: Result<String, BitError>)
        requires
            old(self)@.wf(),
            byte_len matches Some(n) ==> n <= usize::MAX / 8,
        ensures
            final(self)@.wf(),
            old(self)@.pos <= final(self)@.pos,
            ({
                let p = match byte_len {
                    Some(n) => read_string_fixed(old(self)@, n as int, E::spec_is_le()),
                    None => read_string_unsized(old(self)@, E::spec_is_le()),
                };
                final(self)@ == p.0 && string_result_matches(r, p.1)
            }),
    {
        let ghost m = old(self)@;
        let ghost le = E::spec_is_le();
        let max_length = self.bits_left() / 8;
        proof {
            assert(8 * (m.bits_left() / 8) <= m.bits_left());
        }
        let result = self.buffer.read_string(self.pos, byte_len);
        match result {
            Ok(s) => {
                match byte_len {
                    Some(n) => {
                        self.pos = self.pos + n * 8;
                        Ok(s)
                    },
                    None => {
                        let ghost scanned = nul_span(m.data, m.pos, le);
                        proof {
                            decode_utf8_encode_utf8(scanned);
                            lemma_scan_len_bounded(m.data, m.pos, le);
                        }
                        let byte_count = s.as_str().len();
                        if byte_count + 1 <= max_length {
                            self.pos = self.pos + (byte_count + 1) * 8;
                            Ok(s)
                        } else {
                            let fit = fit_prefix(s.as_str().as_bytes(), max_length);
                            proof {
                                lemma_fit_boundary(scanned, max_length as int);
                            }
                            let tv = take_prefix(s.as_str().as_bytes(), fit);
                            self.pos = self.pos + 8 * fit;
                            Ok(string_from_utf8_bytes(tv))
                        }
                    },
                }
            },
            Err(e) => {
                match e {
                    BitError::Utf8Error { valid_up_to } => {
                        match byte_len {
                            Some(n) => {
                                self.pos = self.pos + n * 8;
                            },
                            None => {
                                proof {
                                    lemma_scan_len_bounded(m.data, m.pos, le);
                                    let scanned = nul_span(m.data, m.pos, le);
                                    crate::text::lemma_utf8_valid_prefix(scanned);
                                }
                                let adv = if valid_up_to + 1 <= max_length / 8 {
                                    (valid_up_to + 1) * 8
                                } else {
                                    max_length
                                };
                                self.pos = self.pos + adv;
                            },
                        }
                        Err(BitError::Utf8Error { valid_up_to })
                    },
                    other => Err(other),
                }
            },
        }
    }

    /// Decodes one value of the requested type at the cursor; `T::read_ens`
    /// states what is consumed and returned.
    pub fn read<T: Read<E>>(&mut self) -> (r: Result<T, BitError>)
        requires
            old(self)@.wf(),
        ensures
            final(self)@.wf(),
            final(self)@.data == old(self)@.data,
            final(self)@.start == old(self)@.start,
            final(self)@.end == old(self)@.end,
            old(self)@.pos <= final(self)@.pos,
            T::read_ens(old(self)@, final(self)@, r),
    {
        T::read(self)
    }

    /// Decodes one value of the requested type given an explicit size; the
    /// meaning of `size` depends on the type, and `T::read_sized_ens`
    /// states what is consumed and returned.
    pub fn read_sized<T: ReadSized<E>>(&mut self, size: usize) -> (r: Result<T, BitError>)
        requires
            old(self)@.wf(),
            T::size_pre(size as int),
        ensures
            final(self)@.wf(),
            final(self)@.data == old(self)@.data,
            final(self)@.start == old(self)@.start,
            final(self)@.end == old(self)@.end,
            old(self)@.pos <= final(self)@.pos,
            T::read_sized_ens(old(self)@, final(self)@, size as int, r),
    {
        T::read(self, size)
    }

    /// Reads `count` bits as an integer of the requested type, sign
    /// extending signed targets; a count over the type's width is
    /// `TooManyBits`.
    pub fn read_int<T: ReadSized<E>>(&mut self, count: usize) -> (r: Result<T, BitError>)
        requires
            old(self)@.wf(),
            T::size_pre(count as int),
        ensures
            final(self)@.wf(),
            final(self)@.data == old(self)@.data,
            final(self)@.start == old(self)@.start,
            final(self)@.end == old(self)@.end,
            old(self)@.pos <= final(self)@.pos,
            T::read_sized_ens(old(self)@, final(self)@, count as int, r),
    {
        T::read(self, count)
    }

    /// Places the cursor at position `pos`, measured from the stream's own
    /// origin. Fails, leaving the cursor in place, when `pos` passes the
    /// stream's logical length.
    pub fn set_pos(&mut self, pos: usize) -> (r: Result<(), BitError>)
        requires
            old(self)@.wf(),
        ensures
            final(self)@.wf(),
            pos <= old(self)@.bit_len() ==> r == Ok::<(), BitError>(()) && final(self)@ == old(
                self,
            )@.with_pos(old(self)@.start + pos),
            pos > old(self)@.bit_len() ==> r == Err::<(), BitError>(
                BitError::IndexOutOfBounds { pos, size: old(self)@.bit_len() as usize },
            ) && final(self)@ == old(self)@,
    {
        if pos > self.bit_len() {
            return Err(BitError::IndexOutOfBounds { pos, size: self.bit_len() });
        }
        self.pos = pos + self.start_pos;
        Ok(())
    }
}

impl<E: Endianness> Clone for BitReadStream<E> {
    /// Duplicates the stream with the window origin reset to the current
    /// cursor: the clone starts fresh at relative position zero with the
    /// same bits remaining, and cannot rewind into bits already consumed.
    fn clone(&self) -> (r: Self)
        ensures
            r@ == spec_clone(self@),
    {
        BitReadStream { buffer: self.buffer.clone(), start_pos: self.pos, pos: self.pos }
    }
}

} // verus!
