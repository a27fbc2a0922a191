use bitstream_reader::{BigEndian, BitError, BitReadBuffer, BitReadStream, LittleEndian};

const DOC_BYTES: [u8; 8] = [
    0b1011_0101,
    0b0110_1010,
    0b1010_1100,
    0b1001_1001,
    0b1001_1001,
    0b1001_1001,
    0b1001_1001,
    0b1110_0111,
];

fn le_stream() -> BitReadStream<LittleEndian> {
    BitReadStream::new(BitReadBuffer::new(DOC_BYTES.to_vec(), LittleEndian))
}

#[test]
fn cursor_advances_only_on_success() {
    let mut stream = le_stream();
    assert_eq!(stream.pos(), 0);
    assert!(stream.read_bool().is_ok());
    assert_eq!(stream.pos(), 1);
    assert!(stream.read_int::<u8>(3).is_ok());
    assert_eq!(stream.pos(), 4);
    // a failed read leaves the cursor in place
    assert!(stream.read_int::<u8>(9).is_err());
    assert_eq!(stream.pos(), 4);
    stream.set_pos(60).unwrap();
    assert!(stream.read_int::<u16>(10).is_err());
    assert_eq!(stream.pos(), 60);
}

#[test]
fn not_enough_data_reports_request_and_remainder() {
    let mut stream = BitReadStream::new(BitReadBuffer::new(vec![0xAB], LittleEndian));
    stream.set_pos(4).unwrap();
    assert_eq!(
        stream.check_read(10),
        Err(BitError::NotEnoughData { requested: 10, bits_left: 4 })
    );
    assert_eq!(
        stream.read_int::<u16>(10),
        Err(BitError::NotEnoughData { requested: 10, bits_left: 4 })
    );
    assert_eq!(stream.pos(), 4);
}

#[test]
fn too_many_bits_for_target_type() {
    let mut stream = le_stream();
    assert_eq!(stream.read_int::<u8>(9), Err(BitError::TooManyBits));
    assert_eq!(stream.pos(), 0);
    assert_eq!(stream.read_int::<i16>(17), Err(BitError::TooManyBits));
}

#[test]
fn bounds_error_takes_precedence_over_width() {
    // requesting more bits than remain and more than the type holds reports
    // the window first
    let mut stream = BitReadStream::new(BitReadBuffer::new(vec![0xAB], LittleEndian));
    assert_eq!(
        stream.read_int::<u8>(20),
        Err(BitError::NotEnoughData { requested: 20, bits_left: 8 })
    );
}

#[test]
fn skip_and_align() {
    let mut stream = le_stream();
    assert_eq!(stream.align().unwrap(), 0);
    assert_eq!(stream.pos(), 0);
    stream.skip_bits(3).unwrap();
    assert_eq!(stream.pos(), 3);
    assert_eq!(stream.align().unwrap(), 5);
    assert_eq!(stream.pos(), 8);
    assert_eq!(stream.read_int::<u8>(4).unwrap(), 0b1010);
}

#[test]
fn alignment_is_relative_to_the_window_origin() {
    let mut parent = le_stream();
    parent.skip_bits(3).unwrap();
    let mut sub = parent.read_bits(40).unwrap();
    // the sub-stream starts at absolute bit 3; its own origin counts as zero
    sub.skip_bits(3).unwrap();
    assert_eq!(sub.align().unwrap(), 5);
    assert_eq!(sub.pos(), 8);
}

#[test]
fn set_pos_bounds() {
    let mut stream = le_stream();
    stream.set_pos(3).unwrap();
    assert_eq!(stream.pos(), 3);
    assert_eq!(stream.read_int::<u8>(3).unwrap(), 0b110);
    assert_eq!(
        stream.set_pos(65),
        Err(BitError::IndexOutOfBounds { pos: 65, size: 64 })
    );
    assert_eq!(stream.pos(), 6);
    stream.set_pos(64).unwrap();
    assert_eq!(stream.bits_left(), 0);
}

#[test]
fn skip_past_end_fails() {
    let mut stream = le_stream();
    stream.skip_bits(60).unwrap();
    assert_eq!(
        stream.skip_bits(5),
        Err(BitError::NotEnoughData { requested: 5, bits_left: 4 })
    );
    assert_eq!(stream.pos(), 60);
}

#[test]
fn sub_stream_isolation() {
    let mut stream = le_stream();
    let mut bits = stream.read_bits(3).unwrap();
    assert_eq!(stream.pos(), 3);
    assert_eq!(bits.pos(), 0);
    assert_eq!(bits.bit_len(), 3);
    assert_eq!(bits.bits_left(), 3);
    assert_eq!(stream.read_int::<u8>(3).unwrap(), 0b110);
    assert_eq!(bits.read_int::<u8>(3).unwrap(), 0b101);
    // the parent's storage continues, but the sub-stream's window is spent
    assert!(bits.read_int::<u8>(1).is_err());
}

#[test]
fn sub_stream_failure_leaves_parent_unmoved() {
    let mut stream = le_stream();
    stream.skip_bits(60).unwrap();
    assert_eq!(
        stream.read_bits(10).err().unwrap(),
        BitError::NotEnoughData { requested: 10, bits_left: 4 }
    );
    assert_eq!(stream.pos(), 60);
}

#[test]
fn clone_resets_origin() {
    let mut stream = le_stream();
    stream.skip_bits(5).unwrap();
    let mut copy = stream.clone();
    assert_eq!(copy.pos(), 0);
    assert_eq!(copy.bits_left(), stream.bits_left());
    // both read the same upcoming bits
    assert_eq!(copy.read_int::<u16>(11).unwrap(), stream.read_int::<u16>(11).unwrap());
    // the clone cannot seek back into bits consumed before the clone point
    assert_eq!(copy.bit_len(), 59);
}

#[test]
fn read_bytes_and_unchecked_agree() {
    let mut stream = le_stream();
    assert_eq!(
        stream.read_bytes(3).unwrap(),
        vec![0b1011_0101, 0b0110_1010, 0b1010_1100]
    );
    assert_eq!(stream.pos(), 24);

    let mut other = le_stream();
    assert_eq!(other.read_bytes_unchecked(3), vec![0b1011_0101, 0b0110_1010, 0b1010_1100]);

    // unaligned byte reads re-assemble each byte bitwise
    let mut stream = BitReadStream::new(BitReadBuffer::new(vec![0xFF, 0x00], BigEndian));
    stream.skip_bits(4).unwrap();
    assert_eq!(stream.read_bytes(1).unwrap(), vec![0xF0]);
}

#[test]
fn buffer_primitives() {
    let buffer = BitReadBuffer::new(DOC_BYTES.to_vec(), LittleEndian);
    assert_eq!(buffer.bit_len(), 64);
    assert_eq!(buffer.read_bool(0).unwrap(), true);
    assert_eq!(buffer.read_bool(1).unwrap(), false);
    assert_eq!(buffer.read_uint(0, 3).unwrap(), 0b101);
    assert_eq!(buffer.read_uint_unchecked(0, 3), 0b101);
    assert_eq!(buffer.read_sint(0, 3).unwrap(), -3);
    assert_eq!(buffer.read_sint_unchecked(0, 3), -3);
    assert_eq!(
        buffer.read_bool(64),
        Err(BitError::NotEnoughData { requested: 1, bits_left: 0 })
    );
    assert_eq!(
        buffer.read_uint(0, 129),
        Err(BitError::NotEnoughData { requested: 129, bits_left: 64 })
    );
    let wide = BitReadBuffer::new(vec![0u8; 17], LittleEndian);
    assert_eq!(wide.read_uint(0, 129), Err(BitError::TooManyBits));
    // the buffer has no cursor: the same offset reads the same bits again
    assert_eq!(buffer.read_uint(8, 8).unwrap(), 0b0110_1010);
    assert_eq!(buffer.read_uint(8, 8).unwrap(), 0b0110_1010);
}

#[test]
fn buffer_float_patterns() {
    let buffer = BitReadBuffer::new(vec![0x00, 0x00, 0xC0, 0x3F], LittleEndian);
    assert_eq!(f32::from_bits(buffer.read_float32_bits(0).unwrap()), 1.5f32);
    assert_eq!(
        buffer.read_float32_bits(0).unwrap(),
        buffer.read_float32_bits_unchecked(0)
    );
    assert_eq!(
        buffer.read_float32_bits(1),
        Err(BitError::NotEnoughData { requested: 32, bits_left: 31 })
    );
    let buffer = BitReadBuffer::new(1.5f64.to_be_bytes().to_vec(), BigEndian);
    assert_eq!(f64::from_bits(buffer.read_float64_bits(0).unwrap()), 1.5f64);
    assert_eq!(
        buffer.read_float64_bits(0).unwrap(),
        buffer.read_float64_bits_unchecked(0)
    );
}

#[test]
fn sub_buffer_window() {
    let buffer = BitReadBuffer::new(DOC_BYTES.to_vec(), LittleEndian);
    let sub = buffer.get_sub_buffer(16).unwrap();
    assert_eq!(sub.bit_len(), 16);
    assert!(sub.read_uint(8, 16).is_err());
    assert_eq!(sub.read_uint(8, 8).unwrap(), 0b0110_1010);
    assert_eq!(
        buffer.get_sub_buffer(65).err().unwrap(),
        BitError::NotEnoughData { requested: 65, bits_left: 64 }
    );
}

#[test]
fn empty_stream_reports_nothing_left() {
    let mut stream = BitReadStream::new(BitReadBuffer::new(Vec::new(), LittleEndian));
    assert_eq!(stream.bit_len(), 0);
    assert_eq!(stream.bits_left(), 0);
    assert_eq!(
        stream.read_bool(),
        Err(BitError::NotEnoughData { requested: 1, bits_left: 0 })
    );
}
