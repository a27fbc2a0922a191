//! The two capability contracts every decodable type implements: reading a
//! value whose size is fixed by its type, and reading a value given an
//! explicit size. Each implementation pins down, in its `read_ens` spec
//! function, exactly what is consumed and returned.

use crate::bits::{
    bit_at, lemma_bits_value_bound, lemma_bits_value_fits, lemma_signed_value_fits,
};
use crate::endianness::Endianness;
use crate::error::BitError;
use crate::readstream::{
    read_string_fixed, read_string_unsized, sint_outcome, string_result_matches, uint_outcome,
    BitReadStream, StreamModel,
};
use vstd::arithmetic::power2::{lemma2_to64, lemma2_to64_rest};
use vstd::prelude::*;

verus! {

/// Trait for types that can be read from a stream without a size parameter:
/// fixed-width integers, booleans, null-terminated strings, and optional
/// values gated by a leading boolean flag.
pub trait Read<E: Endianness>: Sized {
    /// What `read` leaves behind and returns, stated over the stream's
    /// models before and after the call.
    spec fn read_ens(pre: StreamModel, post: StreamModel, r: Result<Self, BitError>) -> bool;

    /// Decodes one value of `Self` at the cursor. The stream keeps its bytes
    /// and window, the cursor only moves forward, and `Self::read_ens`
    /// states the consumed bits and the value.
    fn read(stream: &mut BitReadStream<E>) -> (r: Result<Self, BitError>)
        requires
            old(stream)@.wf(),
        ensures
            final(stream)@.wf(),
            final(stream)@.data == old(stream)@.data,
            final(stream)@.start == old(stream)@.start,
            final(stream)@.end == old(stream)@.end,
            old(stream)@.pos <= final(stream)@.pos,
            Self::read_ens(old(stream)@, final(stream)@, r),
    ;
}

/// Trait for types that can be read from a stream given an explicit size:
/// truncated integers, sized strings, and sequences of a declared element
/// count. The meaning of `size` depends on the type being read.
pub trait ReadSized<E: Endianness>: Sized {
    /// The sizes a read accepts without risking arithmetic past `usize`.
    spec fn size_pre(size: int) -> bool;

    /// What `read` leaves behind and returns, stated over the stream's
    /// models before and after the call.
    spec fn read_sized_ens(
        pre: StreamModel,
        post: StreamModel,
        size: int,
        r: Result<Self, BitError>,
    ) -> bool;

    /// Decodes one value of `Self` of the given size at the cursor. The
    /// stream keeps its bytes and window, the cursor only moves forward,
    /// and `Self::read_sized_ens` states the consumed bits and the value.
    fn read(stream: &mut BitReadStream<E>, size: usize) -> (r: Result<Self, BitError>)
        requires
            old(stream)@.wf(),
            Self::size_pre(size as int),
        ensures
            final(stream)@.wf(),
            final(stream)@.data == old(stream)@.data,
            final(stream)@.start == old(stream)@.start,
            final(stream)@.end == old(stream)@.end,
            old(stream)@.pos <= final(stream)@.pos,
            Self::read_sized_ens(old(stream)@, final(stream)@, size as int, r),
    ;
}

impl<E: Endianness> Read<E> for bool {
    open spec fn read_ens(pre: StreamModel, post: StreamModel, r: Result<bool, BitError>) -> bool {
        if pre.bits_left() >= 1 {
            r == Ok::<bool, BitError>(bit_at(pre.data, pre.pos, E::spec_is_le())) && post
                == pre.with_pos(pre.pos + 1)
        } else {
            r == Err::<bool, BitError>(
                BitError::NotEnoughData { requested: 1, bits_left: pre.bits_left() as usize },
            ) && post == pre
        }
    }

    fn read(stream: &mut BitReadStream<E>) -> (r: Result<bool, BitError>) {
        stream.read_bool()
    }
}

impl<E: Endianness> Read<E> for u8 {
    open spec fn read_ens(pre: StreamModel, post: StreamModel, r: Result<u8, BitError>) -> bool {
        match uint_outcome(pre, 8, 8, E::spec_is_le()) {
            Ok(v) => r matches Ok(x) && x as nat == v && post == pre.with_pos(pre.pos + 8),
            Err(e) => r == Err::<u8, BitError>(e) && post == pre,
        }
    }

    fn read(stream: &mut BitReadStream<E>) -> (r: Result<u8, BitError>) {
        match stream.read_unsigned(8, 8) {
            Ok(v) => {
                proof {
                    lemma_bits_value_fits(old(stream)@.data, old(stream)@.pos, 8, E::spec_is_le(), 8);
                    lemma2_to64();
                }
                Ok(v as u8)
            },
            Err(e) => Err(e),
        }
    }
}

impl<E: Endianness> Read<E> for u16 {
    open spec fn read_ens(pre: StreamModel, post: StreamModel, r: Result<u16, BitError>) -> bool {
        match uint_outcome(pre, 16, 16, E::spec_is_le()) {
            Ok(v) => r matches Ok(x) && x as nat == v && post == pre.with_pos(pre.pos + 16),
            Err(e) => r == Err::<u16, BitError>(e) && post == pre,
        }
    }

    fn read(stream: &mut BitReadStream<E>) -> (r: Result<u16, BitError>) {
        match stream.read_unsigned(16, 16) {
            Ok(v) => {
                proof {
                    lemma_bits_value_fits(
                        old(stream)@.data,
                        old(stream)@.pos,
                        16,
                        E::spec_is_le(),
                        16,
                    );
                    lemma2_to64();
                }
                Ok(v as u16)
            },
            Err(e) => Err(e),
        }
    }
}

impl<E: Endianness> Read<E> for u32 {
    open spec fn read_ens(pre: StreamModel, post: StreamModel, r: Result<u32, BitError>) -> bool {
        match uint_outcome(pre, 32, 32, E::spec_is_le()) {
            Ok(v) => r matches Ok(x) && x as nat == v && post == pre.with_pos(pre.pos + 32),
            Err(e) => r == Err::<u32, BitError>(e) && post == pre,
        }
    }

    fn read(stream: &mut BitReadStream<E>) -> (r: Result<u32, BitError>) {
        match stream.read_unsigned(32, 32) {
            Ok(v) => {
                proof {
                    lemma_bits_value_fits(
                        old(stream)@.data,
                        old(stream)@.pos,
                        32,
                        E::spec_is_le(),
                        32,
                    );
                    lemma2_to64();
                }
                Ok(v as u32)
            },
            Err(e) => Err(e),
        }
    }
}

impl<E: Endianness> Read<E> for u64 {
    open spec fn read_ens(pre: StreamModel, post: StreamModel, r: Result<u64, BitError>) -> bool {
        match uint_outcome(pre, 64, 64, E::spec_is_le()) {
            Ok(v) => r matches Ok(x) && x as nat == v && post == pre.with_pos(pre.pos + 64),
            Err(e) => r == Err::<u64, BitError>(e) && post == pre,
        }
    }

    fn read(stream: &mut BitReadStream<E>) -> (r: Result<u64, BitError>) {
        match stream.read_unsigned(64, 64) {
            Ok(v) => {
                proof {
                    lemma_bits_value_fits(
                        old(stream)@.data,
                        old(stream)@.pos,
                        64,
                        E::spec_is_le(),
                        64,
                    );
                    lemma2_to64();
                }
                Ok(v as u64)
            },
            Err(e) => Err(e),
        }
    }
}

impl<E: Endianness> Read<E> for u128 {
    open spec fn read_ens(pre: StreamModel, post: StreamModel, r: Result<u128, BitError>) -> bool {
        match uint_outcome(pre, 128, 128, E::spec_is_le()) {
            Ok(v) => r matches Ok(x) && x as nat == v && post == pre.with_pos(pre.pos + 128),
            Err(e) => r == Err::<u128, BitError>(e) && post == pre,
        }
    }

    fn read(stream: &mut BitReadStream<E>) -> (r: Result<u128, BitError>) {
        stream.read_unsigned(128, 128)
    }
}

impl<E: Endianness> Read<E> for i8 {
    open spec fn read_ens(pre: StreamModel, post: StreamModel, r: Result<i8, BitError>) -> bool {
        match sint_outcome(pre, 8, 8, E::spec_is_le()) {
            Ok(v) => r matches Ok(x) && x as int == v && post == pre.with_pos(pre.pos + 8),
            Err(e) => r == Err::<i8, BitError>(e) && post == pre,
        }
    }

    fn read(stream: &mut BitReadStream<E>) -> (r: Result<i8, BitError>) {
        match stream.read_signed(8, 8) {
            Ok(v) => {
                proof {
                    lemma_bits_value_bound(old(stream)@.data, old(stream)@.pos, 8, E::spec_is_le());
                    lemma_signed_value_fits(
                        crate::bits::bits_value(
                            old(stream)@.data,
                            old(stream)@.pos,
                            8,
                            E::spec_is_le(),
                        ),
                        8,
                        8,
                    );
                    lemma2_to64();
                }
                Ok(v as i8)
            },
            Err(e) => Err(e),
        }
    }
}

impl<E: Endianness> Read<E> for i16 {
    open spec fn read_ens(pre: StreamModel, post: StreamModel, r: Result<i16, BitError>) -> bool {
        match sint_outcome(pre, 16, 16, E::spec_is_le()) {
            Ok(v) => r matches Ok(x) && x as int == v && post == pre.with_pos(pre.pos + 16),
            Err(e) => r == Err::<i16, BitError>(e) && post == pre,
        }
    }

    fn read(stream: &mut BitReadStream<E>) -> (r: Result<i16, BitError>) {
        match stream.read_signed(16, 16) {
            Ok(v) => {
                proof {
                    lemma_bits_value_bound(
                        old(stream)@.data,
                        old(stream)@.pos,
                        16,
                        E::spec_is_le(),
                    );
                    lemma_signed_value_fits(
                        crate::bits::bits_value(
                            old(stream)@.data,
                            old(stream)@.pos,
                            16,
                            E::spec_is_le(),
                        ),
                        16,
                        16,
                    );
                    lemma2_to64();
                }
                Ok(v as i16)
            },
            Err(e) => Err(e),
        }
    }
}

impl<E: Endianness> Read<E> for i32 {
    open spec fn read_ens(pre: StreamModel, post: StreamModel, r: Result<i32, BitError>) -> bool {
        match sint_outcome(pre, 32, 32, E::spec_is_le()) {
            Ok(v) => r matches Ok(x) && x as int == v && post == pre.with_pos(pre.pos + 32),
            Err(e) => r == Err::<i32, BitError>(e) && post == pre,
        }
    }

    fn read(stream: &mut BitReadStream<E>) -> (r: Result<i32, BitError>) {
        match stream.read_signed(32, 32) {
            Ok(v) => {
                proof {
                    lemma_bits_value_bound(
                        old(stream)@.data,
                        old(stream)@.pos,
                        32,
                        E::spec_is_le(),
                    );
                    lemma_signed_value_fits(
                        crate::bits::bits_value(
                            old(stream)@.data,
                            old(stream)@.pos,
                            32,
                            E::spec_is_le(),
                        ),
                        32,
                        32,
                    );
                    lemma2_to64();
                }
                Ok(v as i32)
            },
            Err(e) => Err(e),
        }
    }
}

impl<E: Endianness> Read<E> for i64 {
    open spec fn read_ens(pre: StreamModel, post: StreamModel, r: Result<i64, BitError>) -> bool {
        match sint_outcome(pre, 64, 64, E::spec_is_le()) {
            Ok(v) => r matches Ok(x) && x as int == v && post == pre.with_pos(pre.pos + 64),
            Err(e) => r == Err::<i64, BitError>(e) && post == pre,
        }
    }

    fn read(stream: &mut BitReadStream<E>) -> (r: Result<i64, BitError>) {
        match stream.read_signed(64, 64) {
            Ok(v) => {
                proof {
                    lemma_bits_value_bound(
                        old(stream)@.data,
                        old(stream)@.pos,
                        64,
                        E::spec_is_le(),
                    );
                    lemma_signed_value_fits(
                        crate::bits::bits_value(
                            old(stream)@.data,
                            old(stream)@.pos,
                            64,
                            E::spec_is_le(),
                        ),
                        64,
                        64,
                    );
                    lemma2_to64_rest();
                }
                Ok(v as i64)
            },
            Err(e) => Err(e),
        }
    }
}

impl<E: Endianness> Read<E> for i128 {
    open spec fn read_ens(pre: StreamModel, post: StreamModel, r: Result<i128, BitError>) -> bool {
        match sint_outcome(pre, 128, 128, E::spec_is_le()) {
            Ok(v) => r matches Ok(x) && x as int == v && post == pre.with_pos(pre.pos + 128),
            Err(e) => r == Err::<i128, BitError>(e) && post == pre,
        }
    }

    fn read(stream: &mut BitReadStream<E>) -> (r: Result<i128, BitError>) {
        stream.read_signed(128, 128)
    }
}

impl<E: Endianness> Read<E> for String {
    open spec fn read_ens(pre: StreamModel, post: StreamModel, r: Result<String, BitError>) -> bool {
        let p = read_string_unsized(pre, E::spec_is_le());
        post == p.0 && string_result_matches(r, p.1)
    }

    fn read(stream: &mut BitReadStream<E>) -> (r: Result<String, BitError>) {
        stream.read_string(None)
    }
}

/// Reads a boolean flag; when it is set, reads the value, else yields
/// nothing.
impl<E: Endianness, T: Read<E>> Read<E> for Option<T> {
    open spec fn read_ens(pre: StreamModel, post: StreamModel, r: Result<
        Option<T>,
        BitError,
    >) -> bool {
        if pre.bits_left() < 1 {
            r == Err::<Option<T>, BitError>(
                BitError::NotEnoughData { requested: 1, bits_left: pre.bits_left() as usize },
            ) && post == pre
        } else {
            let flag = bit_at(pre.data, pre.pos, E::spec_is_le());
            let mid = pre.with_pos(pre.pos + 1);
            if !flag {
                r == Ok::<Option<T>, BitError>(None) && post == mid
            } else {
                match r {
                    Ok(Some(v)) => T::read_ens(mid, post, Ok(v)),
                    Ok(None) => false,
                    Err(e) => T::read_ens(mid, post, Err(e)),
                }
            }
        }
    }

    fn read(stream: &mut BitReadStream<E>) -> (r: Result<Option<T>, BitError>) {
        match stream.read_bool() {
            Ok(true) => match T::read(stream) {
                Ok(v) => Ok(Some(v)),
                Err(e) => Err(e),
            },
            Ok(false) => Ok(None),
            Err(e) => Err(e),
        }
    }
}

/// The chain of states a sequence of successful reads of `elems` threads a
/// stream through, from `pre` to `post`.
pub open spec fn reads_to<E: Endianness, T: Read<E>>(
    pre: StreamModel,
    post: StreamModel,
    elems: Seq<T>,
) -> bool
    decreases elems.len(),
{
    if elems.len() == 0 {
        post == pre
    } else {
        exists|mid: StreamModel|
            #[trigger] T::read_ens(pre, mid, Ok(elems[0])) && reads_to::<E, T>(
                mid,
                post,
                elems.drop_first(),
            )
    }
}

/// Extending a chain of reads by one more successful read extends the
/// element sequence it decodes.
pub proof fn lemma_reads_to_snoc<E: Endianness, T: Read<E>>(
    pre: StreamModel,
    mid: StreamModel,
    post: StreamModel,
    elems: Seq<T>,
    x: T,
)
    requires
        reads_to::<E, T>(pre, mid, elems),
        T::read_ens(mid, post, Ok(x)),
    ensures
        reads_to::<E, T>(pre, post, elems.push(x)),
    decreases elems.len(),
{
    let s = elems.push(x);
    if elems.len() == 0 {
        assert(mid == pre);
        assert(s[0] == x);
        assert(s.drop_first() =~= Seq::<T>::empty());
        assert(reads_to::<E, T>(post, post, s.drop_first()));
        assert(T::read_ens(pre, post, Ok(s[0])));
    } else {
        let m1 = choose|m1: StreamModel|
            #[trigger] T::read_ens(pre, m1, Ok(elems[0])) && reads_to::<E, T>(
                m1,
                mid,
                elems.drop_first(),
            );
        lemma_reads_to_snoc::<E, T>(m1, mid, post, elems.drop_first(), x);
        assert(s.drop_first() =~= elems.drop_first().push(x));
        assert(s[0] == elems[0]);
        assert(T::read_ens(pre, m1, Ok(s[0])) && reads_to::<E, T>(m1, post, s.drop_first()));
    }
}

impl<E: Endianness> ReadSized<E> for u8 {
    open spec fn size_pre(size: int) -> bool {
        true
    }

    open spec fn read_sized_ens(
        pre: StreamModel,
        post: StreamModel,
        size: int,
        r: Result<u8, BitError>,
    ) -> bool {
        match uint_outcome(pre, size, 8, E::spec_is_le()) {
            Ok(v) => r matches Ok(x) && x as nat == v && post == pre.with_pos(pre.pos + size),
            Err(e) => r == Err::<u8, BitError>(e) && post == pre,
        }
    }

    fn read(stream: &mut BitReadStream<E>, size: usize) -> (r: Result<u8, BitError>) {
        match stream.read_unsigned(size, 8) {
            Ok(v) => {
                proof {
                    lemma_bits_value_fits(
                        old(stream)@.data,
                        old(stream)@.pos,
                        size as nat,
                        E::spec_is_le(),
                        8,
                    );
                    lemma2_to64();
                }
                Ok(v as u8)
            },
            Err(e) => Err(e),
        }
    }
}

impl<E: Endianness> ReadSized<E> for u16 {
    open spec fn size_pre(size: int) -> bool {
        true
    }

    open spec fn read_sized_ens(
        pre: StreamModel,
        post: StreamModel,
        size: int,
        r: Result<u16, BitError>,
    ) -> bool {
        match uint_outcome(pre, size, 16, E::spec_is_le()) {
            Ok(v) => r matches Ok(x) && x as nat == v && post == pre.with_pos(pre.pos + size),
            Err(e) => r == Err::<u16, BitError>(e) && post == pre,
        }
    }

    fn read(stream: &mut BitReadStream<E>, size: usize) -> (r: Result<u16, BitError>) {
        match stream.read_unsigned(size, 16) {
            Ok(v) => {
                proof {
                    lemma_bits_value_fits(
                        old(stream)@.data,
                        old(stream)@.pos,
                        size as nat,
                        E::spec_is_le(),
                        16,
                    );
                    lemma2_to64();
                }
                Ok(v as u16)
            },
            Err(e) => Err(e),
        }
    }
}

impl<E: Endianness> ReadSized<E> for u32 {
    open spec fn size_pre(size: int) -> bool {
        true
    }

    open spec fn read_sized_ens(
        pre: StreamModel,
        post: StreamModel,
        size: int,
        r: Result<u32, BitError>,
    ) -> bool {
        match uint_outcome(pre, size, 32, E::spec_is_le()) {
            Ok(v) => r matches Ok(x) && x as nat == v && post == pre.with_pos(pre.pos + size),
            Err(e) => r == Err::<u32, BitError>(e) && post == pre,
        }
    }

    fn read(stream: &mut BitReadStream<E>, size: usize) -> (r: Result<u32, BitError>) {
        match stream.read_unsigned(size, 32) {
            Ok(v) => {
                proof {
                    lemma_bits_value_fits(
                        old(stream)@.data,
                        old(stream)@.pos,
                        size as nat,
                        E::spec_is_le(),
                        32,
                    );
                    lemma2_to64();
                }
                Ok(v as u32)
            },
            Err(e) => Err(e),
        }
    }
}

impl<E: Endianness> ReadSized<E> for u64 {
    open spec fn size_pre(size: int) -> bool {
        true
    }

    open spec fn read_sized_ens(
        pre: StreamModel,
        post: StreamModel,
        size: int,
        r: Result<u64, BitError>,
    ) -> bool {
        match uint_outcome(pre, size, 64, E::spec_is_le()) {
            Ok(v) => r matches Ok(x) && x as nat == v && post == pre.with_pos(pre.pos + size),
            Err(e) => r == Err::<u64, BitError>(e) && post == pre,
        }
    }

    fn read(stream: &mut BitReadStream<E>, size: usize) -> (r: Result<u64, BitError>) {
        match stream.read_unsigned(size, 64) {
            Ok(v) => {
                proof {
                    lemma_bits_value_fits(
                        old(stream)@.data,
                        old(stream)@.pos,
                        size as nat,
                        E::spec_is_le(),
                        64,
                    );
                    lemma2_to64();
                }
                Ok(v as u64)
            },
            Err(e) => Err(e),
        }
    }
}

impl<E: Endianness> ReadSized<E> for u128 {
    open spec fn size_pre(size: int) -> bool {
        true
    }

    open spec fn read_sized_ens(
        pre: StreamModel,
        post: StreamModel,
        size: int,
        r: Result<u128, BitError>,
    ) -> bool {
        match uint_outcome(pre, size, 128, E::spec_is_le()) {
            Ok(v) => r matches Ok(x) && x as nat == v && post == pre.with_pos(pre.pos + size),
            Err(e) => r == Err::<u128, BitError>(e) && post == pre,
        }
    }

    fn read(stream: &mut BitReadStream<E>, size: usize) -> (r: Result<u128, BitError>) {
        stream.read_unsigned(size, 128)
    }
}

impl<E: Endianness> ReadSized<E> for i8 {
    open spec fn size_pre(size: int) -> bool {
        true
    }

    open spec fn read_sized_ens(
        pre: StreamModel,
        post: StreamModel,
        size: int,
        r: Result<i8, BitError>,
    ) -> bool {
        match sint_outcome(pre, size, 8, E::spec_is_le()) {
            Ok(v) => r matches Ok(x) && x as int == v && post == pre.with_pos(pre.pos + size),
            Err(e) => r == Err::<i8, BitError>(e) && post == pre,
        }
    }

    fn read(stream: &mut BitReadStream<E>, size: usize) -> (r: Result<i8, BitError>) {
        match stream.read_signed(size, 8) {
            Ok(v) => {
                proof {
                    lemma_bits_value_bound(
                        old(stream)@.data,
                        old(stream)@.pos,
                        size as nat,
                        E::spec_is_le(),
                    );
                    lemma_signed_value_fits(
                        crate::bits::bits_value(
                            old(stream)@.data,
                            old(stream)@.pos,
                            size as nat,
                            E::spec_is_le(),
                        ),
                        size as nat,
                        8,
                    );
                    lemma2_to64();
                }
                Ok(v as i8)
            },
            Err(e) => Err(e),
        }
    }
}

impl<E: Endianness> ReadSized<E> for i16 {
    open spec fn size_pre(size: int) -> bool {
        true
    }

    open spec fn read_sized_ens(
        pre: StreamModel,
        post: StreamModel,
        size: int,
        r: Result<i16, BitError>,
    ) -> bool {
        match sint_outcome(pre, size, 16, E::spec_is_le()) {
            Ok(v) => r matches Ok(x) && x as int == v && post == pre.with_pos(pre.pos + size),
            Err(e) => r == Err::<i16, BitError>(e) && post == pre,
        }
    }

    fn read(stream: &mut BitReadStream<E>, size: usize) -> (r: Result<i16, BitError>) {
        match stream.read_signed(size, 16) {
            Ok(v) => {
                proof {
                    lemma_bits_value_bound(
                        old(stream)@.data,
                        old(stream)@.pos,
                        size as nat,
                        E::spec_is_le(),
                    );
                    lemma_signed_value_fits(
                        crate::bits::bits_value(
                            old(stream)@.data,
                            old(stream)@.pos,
                            size as nat,
                            E::spec_is_le(),
                        ),
                        size as nat,
                        16,
                    );
                    lemma2_to64();
                }
                Ok(v as i16)
            },
            Err(e) => Err(e),
        }
    }
}

impl<E: Endianness> ReadSized<E> for i32 {
    open spec fn size_pre(size: int) -> bool {
        true
    }

    open spec fn read_sized_ens(
        pre: StreamModel,
        post: StreamModel,
        size: int,
        r: Result<i32, BitError>,
    ) -> bool {
        match sint_outcome(pre, size, 32, E::spec_is_le()) {
            Ok(v) => r matches Ok(x) && x as int == v && post == pre.with_pos(pre.pos + size),
            Err(e) => r == Err::<i32, BitError>(e) && post == pre,
        }
    }

    fn read(stream: &mut BitReadStream<E>, size: usize) -> (r: Result<i32, BitError>) {
        match stream.read_signed(size, 32) {
            Ok(v) => {
                proof {
                    lemma_bits_value_bound(
                        old(stream)@.data,
                        old(stream)@.pos,
                        size as nat,
                        E::spec_is_le(),
                    );
                    lemma_signed_value_fits(
                        crate::bits::bits_value(
                            old(stream)@.data,
                            old(stream)@.pos,
                            size as nat,
                            E::spec_is_le(),
                        ),
                        size as nat,
                        32,
                    );
                    lemma2_to64();
                }
                Ok(v as i32)
            },
            Err(e) => Err(e),
        }
    }
}

impl<E: Endianness> ReadSized<E> for i64 {
    open spec fn size_pre(size: int) -> bool {
        true
    }

    open spec fn read_sized_ens(
        pre: StreamModel,
        post: StreamModel,
        size: int,
        r: Result<i64, BitError>,
    ) -> bool {
        match sint_outcome(pre, size, 64, E::spec_is_le()) {
            Ok(v) => r matches Ok(x) && x as int == v && post == pre.with_pos(pre.pos + size),
            Err(e) => r == Err::<i64, BitError>(e) && post == pre,
        }
    }

    fn read(stream: &mut BitReadStream<E>, size: usize) -> (r: Result<i64, BitError>) {
        match stream.read_signed(size, 64) {
            Ok(v) => {
                proof {
                    lemma_bits_value_bound(
                        old(stream)@.data,
                        old(stream)@.pos,
                        size as nat,
                        E::spec_is_le(),
                    );
                    lemma_signed_value_fits(
                        crate::bits::bits_value(
                            old(stream)@.data,
                            old(stream)@.pos,
                            size as nat,
                            E::spec_is_le(),
                        ),
                        size as nat,
                        64,
                    );
                    lemma2_to64_rest();
                }
                Ok(v as i64)
            },
            Err(e) => Err(e),
        }
    }
}

impl<E: Endianness> ReadSized<E> for i128 {
    open spec fn size_pre(size: int) -> bool {
        true
    }

    open spec fn read_sized_ens(
        pre: StreamModel,
        post: StreamModel,
        size: int,
        r: Result<i128, BitError>,
    ) -> bool {
        match sint_outcome(pre, size, 128, E::spec_is_le()) {
            Ok(v) => r matches Ok(x) && x as int == v && post == pre.with_pos(pre.pos + size),
            Err(e) => r == Err::<i128, BitError>(e) && post == pre,
        }
    }

    fn read(stream: &mut BitReadStream<E>, size: usize) -> (r: Result<i128, BitError>) {
        stream.read_signed(size, 128)
    }
}

impl<E: Endianness> ReadSized<E> for String {
    open spec fn size_pre(size: int) -> bool {
        size <= usize::MAX / 8
    }

    open spec fn read_sized_ens(
        pre: StreamModel,
        post: StreamModel,
        size: int,
        r: Result<String, BitError>,
    ) -> bool {
        let p = read_string_fixed(pre, size, E::spec_is_le());
        post == p.0 && string_result_matches(r, p.1)
    }

    fn read(stream: &mut BitReadStream<E>, size: usize) -> (r: Result<String, BitError>) {
        stream.read_string(Some(size))
    }
}

/// Reads `size` values one after the other.
impl<E: Endianness, T: Read<E>> ReadSized<E> for Vec<T> {
    open spec fn size_pre(size: int) -> bool {
        true
    }

    open spec fn read_sized_ens(
        pre: StreamModel,
        post: StreamModel,
        size: int,
        r: Result<Vec<T>, BitError>,
    ) -> bool {
        match r {
            Ok(v) => v@.len() == size && reads_to::<E, T>(pre, post, v@),
            Err(e) => exists|k: Seq<T>, mid: StreamModel|
                #![trigger reads_to::<E, T>(pre, mid, k), T::read_ens(mid, post, Err(e))]
                k.len() < size && reads_to::<E, T>(pre, mid, k) && T::read_ens(mid, post, Err(e)),
        }
    }

    fn read(stream: &mut BitReadStream<E>, size: usize) -> (r: Result<Vec<T>, BitError>) {
        let ghost pre = stream@;
        let mut vec: Vec<T> = Vec::with_capacity(size);
        let mut i: usize = 0;
        proof {
            assert(reads_to::<E, T>(pre, stream@, vec@));
        }
        while i < size
            invariant
                pre == old(stream)@,
                i <= size,
                vec@.len() == i,
                stream@.wf(),
                stream@.data == pre.data,
                stream@.start == pre.start,
                stream@.end == pre.end,
                pre.pos <= stream@.pos,
                reads_to::<E, T>(pre, stream@, vec@),
            decreases size - i,
        {
            let ghost mid = stream@;
            match T::read(stream) {
                Ok(x) => {
                    proof {
                        lemma_reads_to_snoc::<E, T>(pre, mid, stream@, vec@, x);
                    }
                    vec.push(x);
                },
                Err(e) => {
                    proof {
                        assert(vec@.len() < size);
                        assert(reads_to::<E, T>(pre, mid, vec@) && T::read_ens(
                            mid,
                            stream@,
                            Err(e),
                        ));
                    }
                    return Err(e);
                },
            }
            i = i + 1;
        }
        Ok(vec)
    }
}

} // verus!
