use bitstream_reader::{BigEndian, BitError, BitReadBuffer, BitReadStream, LittleEndian};

const DOC_BYTES: [u8; 8] = [
    0b1011_0101,
    0b0110_1010,
    0b1010_1100,
    0b1001_1001,
    0b1001_1001,
    0b1001_1001,
    0b1001_1001,
    0b1110_0111,
];

fn le_stream() -> BitReadStream<LittleEndian> {
    BitReadStream::new(BitReadBuffer::new(DOC_BYTES.to_vec(), LittleEndian))
}

fn be_stream() -> BitReadStream<BigEndian> {
    BitReadStream::new(BitReadBuffer::new(DOC_BYTES.to_vec(), BigEndian))
}

/// The value `count` bits starting at bit offset `pos` denote, computed
/// bit by bit from the raw bytes.
fn expected(data: &[u8], pos: usize, count: usize, le: bool) -> u128 {
    let mut v: u128 = 0;
    for i in 0..count {
        let p = pos + i;
        let bit = if le {
            (data[p / 8] >> (p % 8)) & 1
        } else {
            (data[p / 8] >> (7 - p % 8)) & 1
        };
        if le {
            v |= (bit as u128) << i;
        } else {
            v = (v << 1) | bit as u128;
        }
    }
    v
}

#[test]
fn little_endian_three_bit_pairs() {
    let mut stream = le_stream();
    assert_eq!(stream.read_int::<u16>(3).unwrap(), 0b101);
    assert_eq!(stream.read_int::<u16>(3).unwrap(), 0b110);
    assert_eq!(stream.pos(), 6);
}

#[test]
fn big_endian_three_bit_pairs() {
    let mut stream = be_stream();
    assert_eq!(stream.read_int::<u16>(3).unwrap(), 0b101);
    assert_eq!(stream.read_int::<u16>(3).unwrap(), 0b101);
    assert_eq!(stream.pos(), 6);
}

#[test]
fn full_width_aligned_reads() {
    let mut stream = le_stream();
    let first: u8 = stream.read().unwrap();
    assert_eq!(first, 0b1011_0101);
    let flag: bool = stream.read().unwrap();
    assert_eq!(flag, false);

    let mut stream = be_stream();
    let first: u8 = stream.read().unwrap();
    assert_eq!(first, 0b1011_0101);
}

#[test]
fn seven_bit_truncated_read() {
    let mut stream = le_stream();
    let v: u8 = stream.read_sized(7).unwrap();
    assert_eq!(v, 0b011_0101);
}

#[test]
fn sized_vector_of_u16() {
    let mut stream = le_stream();
    let data: Vec<u16> = stream.read_sized(3).unwrap();
    assert_eq!(
        data,
        vec![0b0110_1010_1011_0101, 0b1001_1001_1010_1100, 0b1001_1001_1001_1001]
    );
}

#[test]
fn signed_three_bit_read_sign_extends() {
    // low three bits of the first byte are 0b101: -3 in two's complement
    let mut stream = le_stream();
    let v: i8 = stream.read_sized(3).unwrap();
    assert_eq!(v, -3);
}

#[test]
fn signed_full_byte_reads() {
    let mut le = BitReadStream::new(BitReadBuffer::new(vec![0xFF, 0x80], LittleEndian));
    assert_eq!(le.read_int::<i8>(8).unwrap(), -1);
    let mut be = BitReadStream::new(BitReadBuffer::new(vec![0xFF, 0x80], BigEndian));
    assert_eq!(be.read_int::<i8>(8).unwrap(), -1);
    assert_eq!(be.read_int::<i8>(8).unwrap(), -128);
}

#[test]
fn round_trip_every_offset_and_count_little_endian() {
    for pos in 0..64usize {
        for count in 0..=16usize.min(64 - pos) {
            let mut stream = le_stream();
            stream.set_pos(pos).unwrap();
            let got: u16 = stream.read_sized(count).unwrap();
            assert_eq!(got as u128, expected(&DOC_BYTES, pos, count, true));
            assert_eq!(stream.pos(), pos + count);
        }
    }
}

#[test]
fn round_trip_every_offset_and_count_big_endian() {
    for pos in 0..64usize {
        for count in 0..=16usize.min(64 - pos) {
            let mut stream = be_stream();
            stream.set_pos(pos).unwrap();
            let got: u16 = stream.read_sized(count).unwrap();
            assert_eq!(got as u128, expected(&DOC_BYTES, pos, count, false));
            assert_eq!(stream.pos(), pos + count);
        }
    }
}

#[test]
fn checked_and_unchecked_reads_agree() {
    for pos in 0..64usize {
        for count in 0..=64usize.min(64 - pos) {
            let mut checked = le_stream();
            checked.set_pos(pos).unwrap();
            let a = checked.read_unsigned(count, 128).unwrap();
            let mut unchecked = le_stream();
            unchecked.set_pos(pos).unwrap();
            let b = unchecked.read_unsigned_unchecked(count);
            assert_eq!(a, b);
            assert_eq!(checked.pos(), unchecked.pos());

            let mut checked = be_stream();
            checked.set_pos(pos).unwrap();
            let a = checked.read_signed(count, 128).unwrap();
            let mut unchecked = be_stream();
            unchecked.set_pos(pos).unwrap();
            let b = unchecked.read_signed_unchecked(count);
            assert_eq!(a, b);
        }
    }
}

#[test]
fn wide_reads_cover_u128() {
    let bytes: Vec<u8> = (1..=16).collect();
    let mut le = BitReadStream::new(BitReadBuffer::new(bytes.clone(), LittleEndian));
    let v: u128 = le.read().unwrap();
    assert_eq!(v, u128::from_le_bytes(<[u8; 16]>::try_from(&bytes[..]).unwrap()));
    let mut be = BitReadStream::new(BitReadBuffer::new(bytes.clone(), BigEndian));
    let v: u128 = be.read().unwrap();
    assert_eq!(v, u128::from_be_bytes(<[u8; 16]>::try_from(&bytes[..]).unwrap()));
    let mut be = BitReadStream::new(BitReadBuffer::new(bytes, BigEndian));
    let v: i128 = be.read().unwrap();
    assert!(v > 0);
}

#[test]
fn zero_bit_read_yields_zero_and_stays() {
    let mut stream = le_stream();
    let v: u8 = stream.read_sized(0).unwrap();
    assert_eq!(v, 0);
    assert_eq!(stream.pos(), 0);
}

#[test]
fn float_bit_patterns() {
    let mut le = BitReadStream::new(
        BitReadBuffer::new(vec![0x00, 0x00, 0xC0, 0x3F], LittleEndian),
    );
    assert_eq!(f32::from_bits(le.read_float32_bits().unwrap()), 1.5f32);
    assert_eq!(le.pos(), 32);

    let mut be = BitReadStream::new(BitReadBuffer::new(vec![0x3F, 0xC0, 0x00, 0x00], BigEndian));
    assert_eq!(f32::from_bits(be.read_float32_bits().unwrap()), 1.5f32);

    let mut le = BitReadStream::new(
        BitReadBuffer::new(1.5f64.to_le_bytes().to_vec(), LittleEndian),
    );
    assert_eq!(f64::from_bits(le.read_float64_bits().unwrap()), 1.5f64);
    assert_eq!(le.pos(), 64);
}

#[test]
fn float_bits_unchecked_mirror_the_checked_path() {
    let mut checked = BitReadStream::new(
        BitReadBuffer::new(vec![0x11, 0x22, 0x33, 0x44, 0x55, 0x66, 0x77, 0x88], LittleEndian),
    );
    let mut unchecked = checked.clone();
    assert_eq!(
        checked.read_float32_bits().unwrap(),
        unchecked.read_float32_bits_unchecked()
    );
    assert_eq!(checked.pos(), unchecked.pos());
    let mut checked = BitReadStream::new(
        BitReadBuffer::new(vec![0x11, 0x22, 0x33, 0x44, 0x55, 0x66, 0x77, 0x88], BigEndian),
    );
    let mut unchecked = checked.clone();
    assert_eq!(
        checked.read_float64_bits().unwrap(),
        unchecked.read_float64_bits_unchecked()
    );
}

#[test]
fn vector_read_fails_after_partial_progress() {
    let mut stream = BitReadStream::new(
        BitReadBuffer::new(vec![0xAA, 0xBB, 0xCC], LittleEndian),
    );
    let r: Result<Vec<u16>, BitError> = stream.read_sized(2);
    assert_eq!(
        r,
        Err(BitError::NotEnoughData { requested: 16, bits_left: 8 })
    );
    // the first element was consumed before the failure
    assert_eq!(stream.pos(), 16);
}

#[test]
fn optional_value_gated_by_flag() {
    // little-endian: the first bit read is the low bit of the first byte
    let mut stream = BitReadStream::new(BitReadBuffer::new(vec![0b0000_0011, 0], LittleEndian));
    let v: Option<u8> = stream.read().unwrap();
    assert_eq!(v, Some(1));
    assert_eq!(stream.pos(), 9);

    let mut stream = BitReadStream::new(BitReadBuffer::new(vec![0b0000_0000], LittleEndian));
    let v: Option<u8> = stream.read().unwrap();
    assert_eq!(v, None);
    assert_eq!(stream.pos(), 1);
}
