use bitstream_reader::{BitError, BitReadBuffer, BitReadStream, LittleEndian};

const HELLO: [u8; 16] = [
    0x48, 0x65, 0x6c, 0x6c, 0x6f, 0x20, 0x77, 0x6f, 0x72, 0x6c, 0x64, 0x00, 0, 0, 0, 0,
];

fn hello_stream() -> BitReadStream<LittleEndian> {
    BitReadStream::new(BitReadBuffer::new(HELLO.to_vec(), LittleEndian))
}

#[test]
fn fixed_length_string() {
    let mut stream = hello_stream();
    assert_eq!(stream.read_string(Some(11)).unwrap(), "Hello world".to_owned());
    assert_eq!(stream.pos(), 11 * 8);
}

#[test]
fn fixed_length_string_with_null_padding() {
    let mut stream = hello_stream();
    assert_eq!(stream.read_string(Some(16)).unwrap(), "Hello world".to_owned());
    assert_eq!(stream.pos(), 16 * 8);
}

#[test]
fn null_terminated_string_consumes_terminator() {
    let mut stream = hello_stream();
    assert_eq!(stream.read_string(None).unwrap(), "Hello world".to_owned());
    assert_eq!(stream.pos(), 12 * 8);
}

#[test]
fn string_via_the_capability_traits() {
    let mut stream = hello_stream();
    let s: String = stream.read().unwrap();
    assert_eq!(s, "Hello world");
    let mut stream = hello_stream();
    let s: String = stream.read_sized(5).unwrap();
    assert_eq!(s, "Hello");
    assert_eq!(stream.pos(), 40);
}

#[test]
fn interior_null_trims_value_but_consumes_all_bytes() {
    let bytes = vec![0x41, 0x00, 0x42, 0x43];
    let mut stream = BitReadStream::new(BitReadBuffer::new(bytes, LittleEndian));
    assert_eq!(stream.read_string(Some(4)).unwrap(), "A".to_owned());
    assert_eq!(stream.pos(), 32);
}

#[test]
fn unbounded_scan_is_clamped_to_the_window() {
    // the sub-stream sees 3 bytes; the physical storage behind it goes on
    let mut parent = hello_stream();
    let mut sub = parent.read_bits(24).unwrap();
    assert_eq!(sub.read_string(None).unwrap(), "Hel".to_owned());
    assert_eq!(sub.pos(), 24);
    // the parent was advanced by carving the window, not by the scan
    assert_eq!(parent.pos(), 24);
}

#[test]
fn clamping_never_splits_a_codepoint() {
    // 'a' (1 byte), 'e' with acute accent (2 bytes), 'b', then a terminator
    let bytes = vec![0x61, 0xC3, 0xA9, 0x62, 0x00];
    let mut parent = BitReadStream::new(BitReadBuffer::new(bytes, LittleEndian));
    let mut sub = parent.read_bits(16).unwrap();
    // two bytes remain, but the second character needs both of them plus one
    assert_eq!(sub.read_string(None).unwrap(), "a".to_owned());
    assert_eq!(sub.pos(), 8);
}

#[test]
fn two_byte_codepoint_fits_exactly() {
    let bytes = vec![0x61, 0xC3, 0xA9, 0x62, 0x00];
    let mut parent = BitReadStream::new(BitReadBuffer::new(bytes, LittleEndian));
    let mut sub = parent.read_bits(24).unwrap();
    assert_eq!(sub.read_string(None).unwrap(), "a\u{e9}".to_owned());
    assert_eq!(sub.pos(), 24);
}

#[test]
fn malformed_fixed_string_still_advances() {
    let bytes = vec![0x41, 0xFF, 0x42, 0x00];
    let mut stream = BitReadStream::new(BitReadBuffer::new(bytes, LittleEndian));
    assert_eq!(
        stream.read_string(Some(3)),
        Err(BitError::Utf8Error { valid_up_to: 1 })
    );
    assert_eq!(stream.pos(), 24);
}

#[test]
fn malformed_unbounded_string_advances_clamped() {
    let bytes = vec![0x41, 0xFF, 0x42, 0x00];
    let mut stream = BitReadStream::new(BitReadBuffer::new(bytes, LittleEndian));
    assert_eq!(
        stream.read_string(None),
        Err(BitError::Utf8Error { valid_up_to: 1 })
    );
    // the recovery advance is the declared formula's clamp: whole bytes left
    assert_eq!(stream.pos(), 4);
}

#[test]
fn fixed_string_past_the_window_fails_without_moving() {
    let mut stream = BitReadStream::new(BitReadBuffer::new(vec![0x41, 0x42], LittleEndian));
    assert_eq!(
        stream.read_string(Some(3)),
        Err(BitError::NotEnoughData { requested: 24, bits_left: 16 })
    );
    assert_eq!(stream.pos(), 0);
}

#[test]
fn empty_stream_reads_empty_string() {
    let mut stream = BitReadStream::new(BitReadBuffer::new(Vec::new(), LittleEndian));
    assert_eq!(stream.read_string(None).unwrap(), String::new());
    assert_eq!(stream.pos(), 0);
}

#[test]
fn unterminated_string_is_cut_at_the_window() {
    // no terminator anywhere: the scan hits the physical end, and the value
    // is clamped to the stream's own window
    let bytes = vec![0x48, 0x69, 0x21];
    let mut stream = BitReadStream::new(BitReadBuffer::new(bytes, LittleEndian));
    assert_eq!(stream.read_string(None).unwrap(), "Hi!".to_owned());
    assert_eq!(stream.pos(), 24);
}
