//! Verified UTF-8 scanning: terminator search, validity with the longest
//! valid prefix, and the longest character-boundary prefix that fits a byte
//! budget. The specifications are stated against `vstd::utf8`.

use vstd::prelude::*;
use vstd::utf8::{
    decode_utf8, is_char_boundary, is_char_boundary_iff_is_leading_byte,
    is_char_boundary_start_end_of_seq, length_of_first_scalar, pop_first_scalar, valid_first_scalar,
    valid_utf8, valid_utf8_split,
};

verus! {

/// Index of the first NUL byte, or the sequence's length when none occurs.
pub open spec fn len_before_nul(bytes: Seq<u8>) -> int
    decreases bytes.len(),
{
    if bytes.len() == 0 {
        0
    } else if bytes[0] == 0 {
        0
    } else {
        1 + len_before_nul(bytes.drop_first())
    }
}

/// `len_before_nul` marks the first NUL: nothing before it is NUL, and the
/// byte at it, when inside the sequence, is NUL.
pub proof fn lemma_len_before_nul(bytes: Seq<u8>)
    ensures
        0 <= len_before_nul(bytes) <= bytes.len(),
        forall|k: int| 0 <= k < len_before_nul(bytes) ==> bytes[k] != 0,
        len_before_nul(bytes) < bytes.len() ==> bytes[len_before_nul(bytes)] == 0,
    decreases bytes.len(),
{
    if bytes.len() == 0 {
    } else if bytes[0] == 0 {
    } else {
        let rest = bytes.drop_first();
        lemma_len_before_nul(rest);
        assert forall|k: int| 0 <= k < len_before_nul(bytes) implies bytes[k] != 0 by {
            if k > 0 {
                assert(rest[k - 1] == bytes[k]);
            }
        }
        if len_before_nul(bytes) < bytes.len() {
            assert(rest[len_before_nul(rest)] == bytes[len_before_nul(bytes)]);
        }
    }
}

/// Any index with the first-NUL characterization is `len_before_nul`.
pub proof fn lemma_len_before_nul_unique(bytes: Seq<u8>, j: int)
    requires
        0 <= j <= bytes.len(),
        forall|k: int| 0 <= k < j ==> bytes[k] != 0,
        j < bytes.len() ==> bytes[j] == 0,
    ensures
        j == len_before_nul(bytes),
    decreases bytes.len(),
{
    if bytes.len() == 0 {
    } else if bytes[0] == 0 {
    } else {
        let rest = bytes.drop_first();
        assert(j >= 1) by {
            assert(bytes[0] != 0);
        }
        assert forall|k: int| 0 <= k < j - 1 implies rest[k] != 0 by {
            assert(rest[k] == bytes[k + 1]);
        }
        if j - 1 < rest.len() {
            assert(rest[j - 1] == bytes[j]);
        }
        lemma_len_before_nul_unique(rest, j - 1);
    }
}

/// Byte length of the longest prefix that is a concatenation of complete,
/// valid scalar encodings.
pub open spec fn utf8_valid_prefix_len(bytes: Seq<u8>) -> int
    decreases bytes.len(),
{
    if bytes.len() == 0 {
        0
    } else if !valid_first_scalar(bytes) || length_of_first_scalar(bytes) > bytes.len() {
        0
    } else {
        length_of_first_scalar(bytes) + utf8_valid_prefix_len(pop_first_scalar(bytes))
    }
}

/// The longest valid prefix is valid UTF-8, and it spans the whole sequence
/// exactly when the sequence is valid UTF-8.
pub proof fn lemma_utf8_valid_prefix(bytes: Seq<u8>)
    ensures
        0 <= utf8_valid_prefix_len(bytes) <= bytes.len(),
        valid_utf8(bytes.subrange(0, utf8_valid_prefix_len(bytes))),
        (utf8_valid_prefix_len(bytes) == bytes.len()) == valid_utf8(bytes),
    decreases bytes.len(),
{
    if bytes.len() == 0 {
        assert(bytes.subrange(0, 0) =~= bytes);
    } else if !valid_first_scalar(bytes) || length_of_first_scalar(bytes) > bytes.len() {
        assert(valid_utf8(bytes.subrange(0, 0))) by {
            assert(bytes.subrange(0, 0).len() == 0);
        }
        assert(!valid_utf8(bytes));
    } else {
        let k = length_of_first_scalar(bytes);
        let rest = pop_first_scalar(bytes);
        lemma_utf8_valid_prefix(rest);
        let m = utf8_valid_prefix_len(rest);
        let p = bytes.subrange(0, k + m);
        assert(valid_first_scalar(p)) by {
            lemma_first_scalar_same_prefix(bytes, p);
        }
        assert(pop_first_scalar(p) =~= rest.subrange(0, m));
        assert(valid_utf8(p));
        if k + m == bytes.len() {
            assert(m == rest.len());
            assert(valid_utf8(rest));
            assert(valid_utf8(bytes));
        } else {
            assert(m < rest.len());
            assert(!valid_utf8(rest));
            if valid_utf8(bytes) {
                assert(valid_utf8(pop_first_scalar(bytes)));
                assert(false);
            }
        }
    }
}

/// A scalar's validity and length at the head of a sequence depend only on
/// the bytes the scalar spans: they carry over to any prefix that still
/// contains them.
proof fn lemma_first_scalar_same_prefix(bytes: Seq<u8>, p: Seq<u8>)
    requires
        valid_first_scalar(bytes),
        length_of_first_scalar(bytes) <= p.len() <= bytes.len(),
        p =~= bytes.subrange(0, p.len() as int),
    ensures
        valid_first_scalar(p),
        length_of_first_scalar(p) == length_of_first_scalar(bytes),
{
    assert(p[0] == bytes[0]);
    if p.len() >= 2 {
        assert(p[1] == bytes[1]);
    }
    if p.len() >= 3 {
        assert(p[2] == bytes[2]);
    }
    if p.len() >= 4 {
        assert(p[3] == bytes[3]);
    }
}

/// Byte length of the longest character-boundary prefix that is at most
/// `max` bytes long.
pub open spec fn fit_boundary_len(bytes: Seq<u8>, max: int) -> int
    recommends
        valid_utf8(bytes),
    decreases bytes.len(),
{
    if bytes.len() == 0 {
        0
    } else {
        let k = length_of_first_scalar(bytes);
        if k > bytes.len() || k > max {
            0
        } else {
            k + fit_boundary_len(pop_first_scalar(bytes), max - k)
        }
    }
}

/// The fitted prefix length lies within the budget, falls on a character
/// boundary, and cuts the sequence into valid halves.
pub proof fn lemma_fit_boundary(bytes: Seq<u8>, max: int)
    requires
        valid_utf8(bytes),
    ensures
        0 <= fit_boundary_len(bytes, max) <= bytes.len(),
        max >= 0 ==> fit_boundary_len(bytes, max) <= max,
        is_char_boundary(bytes, fit_boundary_len(bytes, max)),
        valid_utf8(bytes.subrange(0, fit_boundary_len(bytes, max))),
    decreases bytes.len(),
{
    if bytes.len() == 0 {
        assert(is_char_boundary(bytes, 0));
        assert(bytes.subrange(0, 0) =~= bytes);
    } else {
        let k = length_of_first_scalar(bytes);
        assert(valid_first_scalar(bytes));
        if k > bytes.len() || k > max {
            assert(is_char_boundary(bytes, 0));
            assert(valid_utf8(bytes.subrange(0, 0))) by {
                assert(bytes.subrange(0, 0).len() == 0);
            }
        } else {
            let rest = pop_first_scalar(bytes);
            assert(valid_utf8(rest));
            lemma_fit_boundary(rest, max - k);
            let m = fit_boundary_len(rest, max - k);
            assert(is_char_boundary(bytes, k + m));
            valid_utf8_split(bytes, k + m);
        }
    }
}

/// A valid sequence's first NUL falls on a character boundary, so the prefix
/// before it is itself valid UTF-8.
pub proof fn lemma_nul_is_boundary(bytes: Seq<u8>)
    requires
        valid_utf8(bytes),
    ensures
        is_char_boundary(bytes, len_before_nul(bytes)),
        valid_utf8(bytes.subrange(0, len_before_nul(bytes))),
{
    let j = len_before_nul(bytes);
    lemma_len_before_nul(bytes);
    if j < bytes.len() {
        is_char_boundary_iff_is_leading_byte(bytes, j);
    } else {
        is_char_boundary_start_end_of_seq(bytes);
    }
    valid_utf8_split(bytes, j);
}

/// Examines the scalar encoding that starts at index `i`: its byte length
/// when well formed there, nothing otherwise.
pub fn check_scalar_at(v: &[u8], i: usize) -> (r: Option<usize>)
    requires
        i < v@.len(),
    ensures
        match r {
            Some(k) => valid_first_scalar(v@.skip(i as int)) && k == length_of_first_scalar(
                v@.skip(i as int),
            ) && 1 <= k <= v@.len() - i,
            None => !valid_first_scalar(v@.skip(i as int)),
        },
{
    let ghost s = v@.skip(i as int);
    proof {
        assert(s[0] == v@[i as int]);
    }
    let len = v.len();
    let b0 = v[i];
    if b0 < 0x80 {
        proof {
            assert((b0 & 0x7F) <= 0x7F) by (bit_vector);
        }
        Some(1)
    } else if b0 < 0xC0 {
        None
    } else if b0 < 0xE0 {
        if len - i <= 1 {
            return None;
        }
        let b1 = v[i + 1];
        proof {
            assert(s[1] == v@[i + 1]);
        }
        if !(0x80 <= b1 && b1 < 0xC0) {
            return None;
        }
        let c: u32 = (((b0 & 0x1F) as u32) << 6u32) | ((b1 & 0x3F) as u32);
        proof {
            assert((((b0 & 0x1F) as u32) << 6u32) | ((b1 & 0x3F) as u32) <= 0x7FF)
                by (bit_vector);
        }
        if c >= 0x80 {
            Some(2)
        } else {
            None
        }
    } else if b0 < 0xF0 {
        if len - i <= 2 {
            return None;
        }
        let b1 = v[i + 1];
        let b2 = v[i + 2];
        proof {
            assert(s[1] == v@[i + 1]);
            assert(s[2] == v@[i + 2]);
        }
        if !(0x80 <= b1 && b1 < 0xC0) || !(0x80 <= b2 && b2 < 0xC0) {
            return None;
        }
        let c: u32 = (((b0 & 0x0F) as u32) << 12u32) | (((b1 & 0x3F) as u32) << 6u32) | ((b2
            & 0x3F) as u32);
        if c >= 0x800 && !(0xD800 <= c && c <= 0xDFFF) {
            Some(3)
        } else {
            None
        }
    } else if b0 < 0xF8 {
        if len - i <= 3 {
            return None;
        }
        let b1 = v[i + 1];
        let b2 = v[i + 2];
        let b3 = v[i + 3];
        proof {
            assert(s[1] == v@[i + 1]);
            assert(s[2] == v@[i + 2]);
            assert(s[3] == v@[i + 3]);
        }
        if !(0x80 <= b1 && b1 < 0xC0) || !(0x80 <= b2 && b2 < 0xC0) || !(0x80 <= b3 && b3 < 0xC0) {
            return None;
        }
        let c: u32 = (((b0 & 0x07) as u32) << 18u32) | (((b1 & 0x3F) as u32) << 12u32) | (((b2
            & 0x3F) as u32) << 6u32) | ((b3 & 0x3F) as u32);
        if 0x10000 <= c && c <= 0x10FFFF {
            Some(4)
        } else {
            None
        }
    } else {
        None
    }
}

/// Measures the longest valid prefix; the result spans the whole vector
/// exactly when the bytes are valid UTF-8.
pub fn utf8_prefix(v: &[u8]) -> (r: usize)
    ensures
        r == utf8_valid_prefix_len(v@),
        r <= v@.len(),
        (r == v@.len()) == valid_utf8(v@),
{
    proof {
        lemma_utf8_valid_prefix(v@);
        assert(v@.skip(0) =~= v@);
    }
    let len = v.len();
    let mut i: usize = 0;
    while i < len
        invariant
            i <= len == v@.len(),
            utf8_valid_prefix_len(v@) == i + utf8_valid_prefix_len(v@.skip(i as int)),
        decreases len - i,
    {
        match check_scalar_at(v, i) {
            None => {
                assert(utf8_valid_prefix_len(v@.skip(i as int)) == 0);
                proof {
                    lemma_utf8_valid_prefix(v@);
                }
                return i;
            },
            Some(k) => {
                proof {
                    let s = v@.skip(i as int);
                    assert(pop_first_scalar(s) =~= v@.skip(i as int + k));
                    assert(utf8_valid_prefix_len(s) == k + utf8_valid_prefix_len(
                        v@.skip(i as int + k),
                    ));
                }
                i = i + k;
            },
        }
    }
    proof {
        assert(v@.skip(len as int).len() == 0);
        lemma_utf8_valid_prefix(v@);
    }
    len
}

/// Measures the longest character-boundary prefix of valid UTF-8 bytes that
/// is at most `max` bytes long.
pub fn fit_prefix(v: &[u8], max: usize) -> (r: usize)
    requires
        valid_utf8(v@),
    ensures
        r == fit_boundary_len(v@, max as int),
{
    proof {
        assert(v@.skip(0) =~= v@);
        is_char_boundary_start_end_of_seq(v@);
    }
    let len = v.len();
    let mut i: usize = 0;
    while i < len
        invariant
            i <= len == v@.len(),
            i <= max,
            valid_utf8(v@),
            valid_utf8(v@.skip(i as int)),
            is_char_boundary(v@, i as int),
            fit_boundary_len(v@, max as int) == i + fit_boundary_len(
                v@.skip(i as int),
                max - i,
            ),
        decreases len - i,
    {
        // a valid suffix always begins with a well-formed scalar, so the
        // examination cannot come back empty
        let k = match check_scalar_at(v, i) {
            Some(k) => k,
            None => {
                proof {
                    assert(v@.skip(i as int).len() > 0);
                    assert(valid_first_scalar(v@.skip(i as int)));
                }
                return i;
            },
        };
        if i + k > max {
            assert(fit_boundary_len(v@.skip(i as int), max - i) == 0);
            return i;
        }
        proof {
            let s = v@.skip(i as int);
            assert(pop_first_scalar(s) =~= v@.skip(i as int + k));
            assert(fit_boundary_len(s, max - i) == k + fit_boundary_len(
                v@.skip(i as int + k),
                max - i - k,
            ));
            let tail = pop_first_scalar(s);
            assert(valid_utf8(tail));
            is_char_boundary_start_end_of_seq(tail);
            assert(is_char_boundary(s, k as int));
            valid_utf8_split(s, k as int);
            assert(s.subrange(k as int, s.len() as int) =~= v@.skip(i as int + k));
            lemma_boundary_step(v@, i as int, k as int);
        }
        i = i + k;
    }
    proof {
        assert(v@.skip(len as int).len() == 0);
    }
    len
}

/// Walking one whole scalar forward from a character boundary lands on a
/// character boundary again.
proof fn lemma_boundary_step(bytes: Seq<u8>, i: int, k: int)
    requires
        valid_utf8(bytes),
        is_char_boundary(bytes, i),
        0 <= i,
        valid_first_scalar(bytes.skip(i)),
        k == length_of_first_scalar(bytes.skip(i)),
        i + k <= bytes.len(),
    ensures
        is_char_boundary(bytes, i + k),
    decreases bytes.len(),
{
    if i == 0 {
        assert(bytes.skip(0) =~= bytes);
        assert(is_char_boundary(bytes, k)) by {
            let rest = pop_first_scalar(bytes);
            assert(valid_utf8(rest));
            is_char_boundary_start_end_of_seq(rest);
            assert(is_char_boundary(rest, 0));
        }
    } else {
        let l = length_of_first_scalar(bytes);
        let rest = pop_first_scalar(bytes);
        assert(valid_utf8(rest));
        assert(is_char_boundary(rest, i - l));
        assert(i - l >= 0) by {
            if i - l < 0 {
                assert(!is_char_boundary(rest, i - l));
            }
        }
        assert(rest.skip(i - l) =~= bytes.skip(i));
        lemma_boundary_step(rest, i - l, k);
    }
}

/// Finds the index of the first NUL byte, or the length when none occurs.
pub fn find_nul(v: &[u8]) -> (r: usize)
    ensures
        r == len_before_nul(v@),
{
    let len = v.len();
    let mut i: usize = 0;
    while i < len
        invariant
            i <= len == v@.len(),
            forall|k: int| 0 <= k < i ==> v@[k] != 0,
        decreases len - i,
    {
        if v[i] == 0 {
            proof {
                lemma_len_before_nul_unique(v@, i as int);
            }
            return i;
        }
        i = i + 1;
    }
    proof {
        lemma_len_before_nul_unique(v@, len as int);
    }
    len
}

/// Relies on String::from_utf8: bytes that are a valid UTF-8 encoding become
/// the string of exactly the characters they encode.
#[verifier::external_body]
pub(crate) fn string_from_utf8_bytes(bytes: Vec<u8>) -> (s: String)
    requires
        valid_utf8(bytes@),
    ensures
        s@ == decode_utf8(bytes@),
{
    String::from_utf8(bytes).unwrap_or_default()
}

/// Copies the first `n` bytes of a vector.
pub fn take_prefix(v: &[u8], n: usize) -> (r: Vec<u8>)
    requires
        n <= v@.len(),
    ensures
        r@ == v@.subrange(0, n as int),
{
    let mut r: Vec<u8> = Vec::new();
    let mut i: usize = 0;
    while i < n
        invariant
            i <= n <= v@.len(),
            r@ == v@.subrange(0, i as int),
        decreases n - i,
    {
        r.push(v[i]);
        proof {
            assert(r@ =~= v@.subrange(0, i + 1));
        }
        i = i + 1;
    }
    r
}

} // verus!
