use fastwebsockets::frame::{parse_head, Frame, Payload};
use fastwebsockets::{is_control, parse_header, HeaderParse, OpCode, WebSocketError};

#[test]
fn parse_header_short_and_extended_lengths() {
    // Unmasked short text frame [0x81, 0x05, "hello"]
    let buf = [0x81, 0x05, b'h', b'e', b'l', b'l', b'o'];
    match parse_header(&buf).unwrap() {
        HeaderParse::Complete(h) => {
            assert!(h.fin);
            assert_eq!(h.opcode, OpCode::Text);
            assert_eq!(h.mask, None);
            assert_eq!(h.header_len, 2);
            assert_eq!(h.payload_len, 5);
            assert_eq!(h.total_len(), 7);
        }
        other => panic!("expected Complete, got {:?}", other),
    }
    // Need-more: 1 byte only.
    match parse_header(&buf[..1]).unwrap() {
        HeaderParse::Incomplete { at_least } => assert_eq!(at_least, 2),
        other => panic!("expected Incomplete, got {:?}", other),
    }
    // Masked extended (ext-126) 16-KiB frame header.
    let mut buf2 = vec![0x82, 0xfe, 0x40, 0x00, 0x01, 0x02, 0x03, 0x04];
    buf2.extend(std::iter::repeat(0xAB).take(16384));
    match parse_header(&buf2).unwrap() {
        HeaderParse::Complete(h) => {
            assert!(h.fin);
            assert_eq!(h.opcode, OpCode::Binary);
            assert_eq!(h.mask, Some([0x01, 0x02, 0x03, 0x04]));
            assert_eq!(h.header_len, 8);
            assert_eq!(h.payload_len, 16384);
            assert_eq!(h.total_len(), 16392);
        }
        other => panic!("expected Complete, got {:?}", other),
    }
    // Need-more progression: short of length bytes, then short of mask.
    match parse_header(&buf2[..2]).unwrap() {
        HeaderParse::Incomplete { at_least } => assert_eq!(at_least, 4),
        other => panic!("expected Incomplete len, got {:?}", other),
    }
    match parse_header(&buf2[..4]).unwrap() {
        HeaderParse::Incomplete { at_least } => assert_eq!(at_least, 8),
        other => panic!("expected Incomplete mask, got {:?}", other),
    }
    // Protocol error: RSV1 set on a non-extension frame.
    let bad = [0xc1, 0x00];
    assert!(matches!(parse_header(&bad), Err(WebSocketError::ReservedBitsNotZero)));
    // Protocol error: fragmented control frame (Close, no FIN).
    let bad2 = [0x08, 0x00];
    assert!(matches!(parse_header(&bad2), Err(WebSocketError::ControlFrameFragmented)));
}

#[test]
fn parse_header_errors() {
    assert!(matches!(parse_header(&[0x83, 0x00]), Err(WebSocketError::InvalidValue)));
    assert!(matches!(parse_header(&[0x89, 0x7e, 0x00, 0x7e]), Err(WebSocketError::PingFrameTooLarge)));
    let big = [0x82, 0x7f, 0, 0, 0, 1, 0, 0, 0, 0];
    match parse_head(&big).unwrap() {
        HeaderParse::Complete(h) => assert_eq!(h.payload_len, 1usize << 32),
        other => panic!("expected Complete, got {:?}", other),
    }
    match parse_header(&big).unwrap() {
        HeaderParse::Incomplete { at_least } => assert_eq!(at_least, 10 + (1usize << 32)),
        other => panic!("expected Incomplete, got {:?}", other),
    }
}

#[test]
fn control_opcodes() {
    assert!(is_control(OpCode::Close));
    assert!(is_control(OpCode::Ping));
    assert!(is_control(OpCode::Pong));
    assert!(!is_control(OpCode::Text));
    assert!(!is_control(OpCode::Binary));
    assert!(!is_control(OpCode::Continuation));
    assert_eq!(OpCode::try_from(0xA).unwrap(), OpCode::Pong);
    assert!(OpCode::try_from(0x3).is_err());
}

fn round_trip(fin: bool, opcode: OpCode, mask: Option<[u8; 4]>, len: usize) {
    let mut frame = Frame::new(fin, opcode, mask, Payload::Owned(vec![7u8; len]));
    let mut head = [0u8; 14];
    let n = frame.fmt_head(&mut head);
    let mut wire = head[..n].to_vec();
    wire.extend_from_slice(b"trailing");
    match parse_head(&wire).unwrap() {
        HeaderParse::Complete(h) => {
            assert_eq!(h.fin, fin);
            assert_eq!(h.opcode, opcode);
            assert_eq!(h.mask, mask);
            assert_eq!(h.header_len, n);
            assert_eq!(h.payload_len, len);
        }
        other => panic!("expected Complete, got {:?}", other),
    }
}

#[test]
fn formatted_headers_parse_back() {
    for len in [0usize, 125, 126, 65535, 65536] {
        round_trip(true, OpCode::Binary, None, len);
        round_trip(false, OpCode::Text, Some([1, 2, 3, 4]), len);
    }
    round_trip(true, OpCode::Ping, Some([9, 9, 9, 9]), 125);
}

#[test]
fn write_produces_header_then_payload() {
    let mut frame = Frame::text(Payload::Borrowed(b"hey"));
    let mut buf = Vec::new();
    let out = frame.write(&mut buf).to_vec();
    assert_eq!(out, vec![0x81, 3, b'h', b'e', b'y']);
    assert!(buf.len() >= 3 + 16);
}

#[test]
fn close_frame_payload() {
    let f = Frame::close(1000, b"bye");
    assert!(f.fin);
    assert_eq!(f.opcode, OpCode::Close);
    assert_eq!(f.payload.as_slice(), &[0x03, 0xE8, b'b', b'y', b'e']);
}

#[test]
fn mask_then_unmask_restores_payload() {
    let mut f = Frame::binary(Payload::Owned(b"payload".to_vec()));
    f.mask();
    let key = f.mask.unwrap();
    let expected: Vec<u8> = b"payload".iter().enumerate().map(|(i, b)| b ^ key[i % 4]).collect();
    assert_eq!(f.payload.as_slice(), &expected[..]);
    f.unmask();
    assert_eq!(f.mask, None);
    assert_eq!(f.payload.as_slice(), b"payload");
}

#[test]
fn borrowed_payload_is_copied_before_masking() {
    let data = [1u8, 2, 3];
    let mut f = Frame::new(true, OpCode::Binary, Some([1, 1, 1, 1]), Payload::Borrowed(&data));
    f.mask();
    assert!(matches!(f.payload, Payload::Owned(_)));
    assert_eq!(f.payload.as_slice(), &[0, 3, 2]);
    assert_eq!(data, [1, 2, 3]);
}

#[test]
fn utf8_check() {
    assert!(Frame::text(Payload::Borrowed("héllo".as_bytes())).is_utf8());
    assert!(!Frame::text(Payload::Borrowed(&[0xff, 0xfe])).is_utf8());
}

#[test]
fn payload_conversions_and_comparisons() {
    let owned = Payload::from(vec![1u8, 2, 3]);
    assert!(matches!(owned, Payload::Owned(_)));
    assert!(owned == &[1u8, 2, 3]);
    assert!(owned == &[1u8, 2, 3][..]);
    assert!(!(owned == &[1u8, 2][..]));
    let data = [4u8, 5];
    let borrowed = Payload::from(&data[..]);
    assert!(matches!(borrowed, Payload::Borrowed(_)));
    assert_eq!(Vec::from(borrowed), vec![4u8, 5]);
    assert_eq!(Vec::from(owned), vec![1u8, 2, 3]);
}

#[test]
fn parse_header_waits_for_the_payload() {
    match parse_header(&[0x82, 0x05, b'h']).unwrap() {
        HeaderParse::Incomplete { at_least } => assert_eq!(at_least, 7),
        other => panic!("expected Incomplete, got {:?}", other),
    }
    match parse_header(&[0x82, 0x01, b'h']).unwrap() {
        HeaderParse::Complete(h) => assert_eq!(h.total_len(), 3),
        other => panic!("expected Complete, got {:?}", other),
    }
}

#[test]
fn written_frame_parses_back_whole() {
    let mut frame = Frame::new(false, OpCode::Text, Some([1, 2, 3, 4]), Payload::Owned(b"abc".to_vec()));
    let mut buf = Vec::new();
    let wire = frame.write(&mut buf).to_vec();
    match parse_header(&wire).unwrap() {
        HeaderParse::Complete(h) => {
            assert!(!h.fin);
            assert_eq!(h.opcode, OpCode::Text);
            assert_eq!(h.mask, Some([1, 2, 3, 4]));
            assert_eq!(h.payload_len, 3);
            assert_eq!(h.total_len(), wire.len());
            assert_eq!(&wire[h.header_len..], b"abc");
        }
        other => panic!("expected Complete, got {:?}", other),
    }
}
