use chess_relay::frame::{decode, encode, DecodeError, EncodeError, DELIMITER, FRAME_SIZE};

#[test]
fn roundtrip_simple_command() {
    let frame = encode("move:e2e4").unwrap();
    assert_eq!(frame.len(), FRAME_SIZE);
    assert_eq!(decode(&frame).unwrap(), "move:e2e4");
}

#[test]
fn roundtrip_empty_text() {
    let frame = encode("").unwrap();
    assert_eq!(frame, vec![0u8; FRAME_SIZE]);
    assert_eq!(decode(&frame).unwrap(), "");
}

#[test]
fn roundtrip_multibyte_text() {
    let text = "drag: e2\u{2192}e4 \u{265e}";
    assert!(text.len() < FRAME_SIZE);
    let frame = encode(text).unwrap();
    assert_eq!(decode(&frame).unwrap(), text);
}

#[test]
fn roundtrip_exactly_frame_sized_text() {
    let text = "move:aaaaaaaaaaaaaaaaaaaaaaaaaaa";
    assert_eq!(text.len(), FRAME_SIZE);
    let frame = encode(text).unwrap();
    assert_eq!(decode(&frame).unwrap(), text);
}

#[test]
fn encode_rejects_oversized_text() {
    let text = "x".repeat(FRAME_SIZE + 1);
    assert_eq!(encode(&text), Err(EncodeError::TooLong));
}

#[test]
fn encode_pads_with_zero_bytes() {
    let frame = encode("hi").unwrap();
    assert_eq!(&frame[..2], b"hi");
    assert!(frame[2..].iter().all(|&b| b == 0));
}

#[test]
fn decode_stops_at_zero_byte() {
    let mut frame = vec![0u8; FRAME_SIZE];
    frame[..3].copy_from_slice(b"abc");
    frame[4] = b'z';
    assert_eq!(decode(&frame).unwrap(), "abc");
}

#[test]
fn decode_stops_at_delimiter() {
    let mut frame = vec![0u8; FRAME_SIZE];
    frame[..7].copy_from_slice(b"abc;def");
    assert_eq!(decode(&frame).unwrap(), "abc");
}

#[test]
fn delimiter_wins_over_later_junk() {
    let mut frame = encode("turn:now").unwrap();
    frame[4] = DELIMITER;
    for b in frame.iter_mut().skip(5) {
        *b = 0xFF;
    }
    assert_eq!(decode(&frame).unwrap(), "turn");
}

#[test]
fn decode_rejects_malformed_utf8() {
    let mut frame = vec![0u8; FRAME_SIZE];
    frame[0] = 0xC3;
    frame[1] = 0x28;
    assert_eq!(decode(&frame), Err(DecodeError::MalformedUtf8));
}

#[test]
fn decode_is_total_on_arbitrary_bytes() {
    for fill in [0x01u8, 0x3A, 0x7F, 0x80, 0xC0, 0xFF] {
        let frame = vec![fill; FRAME_SIZE];
        let _ = decode(&frame);
    }
    let _ = decode(&[]);
    let _ = decode(&[b'a']);
}

#[test]
fn decode_takes_whole_buffer_without_terminator() {
    let frame = vec![b'a'; FRAME_SIZE];
    assert_eq!(decode(&frame).unwrap(), "a".repeat(FRAME_SIZE));
}
