use fastwebsockets::frame::{Frame, Payload};
use fastwebsockets::websocket::{settle_read, ReadHalf, ReadOutcome, Role, WebSocket, WritePath, WriteHalf};
use fastwebsockets::{HeaderParse, OpCode, WebSocketError};

#[test]
fn server_unmasks_and_hands_on_data() {
    let half = ReadHalf::after_handshake(Role::Server);
    let masked: Vec<u8> = b"hi".iter().enumerate().map(|(i, b)| b ^ [1, 2, 3, 4][i]).collect();
    let frame = Frame::new(true, OpCode::Binary, Some([1, 2, 3, 4]), Payload::Owned(masked));
    let (res, reply) = half.handle_frame(frame);
    let f = res.unwrap().unwrap();
    assert!(reply.is_none());
    assert_eq!(f.payload.as_slice(), b"hi");
    assert_eq!(f.mask, None);
}

#[test]
fn client_keeps_payload_as_is() {
    let half = ReadHalf::after_handshake(Role::Client);
    let frame = Frame::new(true, OpCode::Binary, Some([1, 2, 3, 4]), Payload::Owned(vec![0, 0]));
    let (res, _) = half.handle_frame(frame);
    let f = res.unwrap().unwrap();
    assert_eq!(f.payload.as_slice(), &[0, 0]);
    assert_eq!(f.mask, Some([1, 2, 3, 4]));
}

#[test]
fn ping_is_answered_with_pong() {
    let half = ReadHalf::after_handshake(Role::Client);
    let (res, reply) = half.handle_frame(Frame::ping(Payload::Borrowed(b"x")));
    assert!(res.unwrap().is_none());
    let pong = reply.unwrap();
    assert_eq!(pong.opcode, OpCode::Pong);
    assert_eq!(pong.payload.as_slice(), b"x");
}

#[test]
fn close_frames_are_checked() {
    let half = ReadHalf::after_handshake(Role::Client);
    let (res, reply) = half.handle_frame(Frame::close_raw(Payload::Borrowed(&[3])));
    assert!(matches!(res, Err(WebSocketError::InvalidCloseFrame)));
    assert!(reply.is_none());

    let (res, reply) = half.handle_frame(Frame::close(1000, &[0xff]));
    assert!(matches!(res, Err(WebSocketError::InvalidUTF8)));
    assert!(reply.is_none());

    let (res, reply) = half.handle_frame(Frame::close(1005, b"why"));
    assert!(matches!(res, Err(WebSocketError::InvalidCloseCode)));
    let reply = reply.unwrap();
    assert_eq!(reply.opcode, OpCode::Close);
    assert_eq!(reply.payload.as_slice(), &[0x03, 0xEA, b'w', b'h', b'y']);

    let (res, reply) = half.handle_frame(Frame::close(4000, b"ok"));
    assert_eq!(res.unwrap().unwrap().payload.as_slice(), &[0x0F, 0xA0, b'o', b'k']);
    assert_eq!(reply.unwrap().payload.as_slice(), &[0x0F, 0xA0, b'o', b'k']);

    let (res, reply) = half.handle_frame(Frame::close_raw(Payload::Borrowed(&[])));
    assert!(res.unwrap().is_some());
    assert_eq!(reply.unwrap().payload.as_slice(), b"");
}

#[test]
fn close_codes_allowed_and_refused() {
    let half = ReadHalf::after_handshake(Role::Client);
    for code in [1000u16, 1003, 1007, 1011, 1013, 3000, 4999] {
        let (res, _) = half.handle_frame(Frame::close(code, b""));
        assert!(res.is_ok(), "code {}", code);
    }
    for code in [0u16, 999, 1004, 1005, 1006, 1014, 1015, 2999, 5000] {
        let (res, _) = half.handle_frame(Frame::close(code, b""));
        assert!(matches!(res, Err(WebSocketError::InvalidCloseCode)), "code {}", code);
    }
}

#[test]
fn final_text_must_be_utf8() {
    let half = ReadHalf::after_handshake(Role::Client);
    let (res, _) = half.handle_frame(Frame::text(Payload::Borrowed(&[0xc3])));
    assert!(matches!(res, Err(WebSocketError::InvalidUTF8)));
    let partial = Frame::new(false, OpCode::Text, None, Payload::Borrowed(&[0xc3]));
    let (res, _) = half.handle_frame(partial);
    assert!(res.unwrap().is_some());
}

#[test]
fn next_header_refuses_oversized_frames() {
    let mut ws = WebSocket::after_handshake((), Role::Server);
    ws.set_max_message_size(5);
    let (_, read, _) = ws.parts_mut();
    assert!(matches!(read.next_header(&[0x82, 0x06]), Err(WebSocketError::FrameTooLarge)));
    assert!(matches!(read.next_header(&[0x82, 0x05]), Ok(HeaderParse::Complete(_))));
    assert!(matches!(read.next_header(&[0x82]), Ok(HeaderParse::Incomplete { at_least: 2 })));
}

#[test]
fn writes_after_close() {
    let mut half = WriteHalf::after_handshake(Role::Server);
    let mut text = Frame::text(Payload::Borrowed(b"a"));
    assert_eq!(half.begin_write(&mut text).unwrap(), WritePath::Buffered);
    let mut close = Frame::close(1000, b"");
    assert_eq!(half.begin_write(&mut close).unwrap(), WritePath::Buffered);
    let mut close2 = Frame::close(1000, b"");
    assert_eq!(half.begin_write(&mut close2).unwrap(), WritePath::Skip);
    let mut text2 = Frame::text(Payload::Borrowed(b"b"));
    assert!(matches!(half.begin_write(&mut text2), Err(WebSocketError::ConnectionClosed)));
}

#[test]
fn large_payloads_go_vectored_and_clients_mask() {
    let mut half = WriteHalf::after_handshake(Role::Client);
    let mut big = Frame::binary(Payload::Owned(vec![0u8; 2000]));
    assert_eq!(half.begin_write(&mut big).unwrap(), WritePath::Vectored);
    let key = big.mask.unwrap();
    assert_eq!(&big.payload.as_slice()[..4], &key);
    let mut small = Frame::binary(Payload::Owned(vec![0u8; 3]));
    half.begin_write(&mut small).unwrap();
    let wire = half.buffer_frame(&mut small).to_vec();
    assert_eq!(wire[0], 0x82);
    assert_eq!(wire[1], 0x83);
    assert_eq!(wire.len(), 2 + 4 + 3);
}

#[test]
fn initial_buffer_waits_in_read_half() {
    let mut ws = WebSocket::after_handshake_with_buffer((), Role::Server, &[0x82, 0x02, b'h', b'i']);
    assert!(!ws.is_closed());
    let (_, read, _) = ws.parts_mut();
    assert_eq!(&read.buffer_mut()[..], &[0x82, 0x02, b'h', b'i']);
}

#[test]
fn split_keeps_halves() {
    let ws = WebSocket::after_handshake((1u8, 2u8), Role::Client);
    let (mut r, mut w) = ws.split(|s| s);
    r.set_auto_pong(false);
    w.set_writev(false);
    assert!(!w.is_closed());
    assert_eq!(*r.parts_mut().0, 1);
    assert_eq!(*w.parts_mut().0, 2);
}

#[test]
fn client_frame_is_read_back_by_server() {
    for len in [0usize, 5, 125, 126, 300, 70000] {
        let payload: Vec<u8> = (0..len).map(|i| (i % 251) as u8).collect();
        let mut writer = WriteHalf::after_handshake(Role::Client);
        let reader = ReadHalf::after_handshake(Role::Server);
        let mut frame = Frame::binary(Payload::Owned(payload.clone()));
        writer.begin_write(&mut frame).unwrap();
        let mut wire = writer.buffer_frame(&mut frame).to_vec();
        wire.extend_from_slice(b"next");
        let header = match reader.next_header(&wire).unwrap() {
            HeaderParse::Complete(h) => h,
            HeaderParse::Incomplete { .. } => panic!("header incomplete"),
        };
        assert!(header.fin);
        assert_eq!(header.opcode, OpCode::Binary);
        assert_eq!(header.payload_len, len);
        assert_eq!(header.mask, frame.mask);
        let start = header.header_len;
        let body = wire[start..start + len].to_vec();
        let got = Frame::new(header.fin, header.opcode, header.mask, Payload::Owned(body));
        let (res, reply) = reader.handle_frame(got);
        assert!(reply.is_none());
        assert_eq!(res.unwrap().unwrap().payload.as_slice(), payload.as_slice());
    }
}

#[test]
fn server_frame_is_read_back_by_client() {
    let mut writer = WriteHalf::after_handshake(Role::Server);
    let reader = ReadHalf::after_handshake(Role::Client);
    let mut frame = Frame::text(Payload::Borrowed(b"hello"));
    writer.begin_write(&mut frame).unwrap();
    let wire = writer.buffer_frame(&mut frame).to_vec();
    let header = match reader.next_header(&wire).unwrap() {
        HeaderParse::Complete(h) => h,
        HeaderParse::Incomplete { .. } => panic!("header incomplete"),
    };
    assert_eq!(header.mask, None);
    assert_eq!(&wire[header.header_len..], b"hello");
}

#[test]
fn settled_reads_follow_the_write_half() {
    let half = ReadHalf::after_handshake(Role::Client);
    // An answered Close is delivered, and its reply written while open.
    let handled = half.handle_frame(Frame::close(1000, b""));
    let (reply, outcome) = settle_read(false, handled);
    assert_eq!(reply.unwrap().opcode, OpCode::Close);
    assert!(matches!(outcome, ReadOutcome::Deliver(f) if f.opcode == OpCode::Close));
    // Once closed, no reply is written and data frames fail the read.
    let handled = half.handle_frame(Frame::ping(Payload::Borrowed(b"p")));
    let (reply, outcome) = settle_read(true, handled);
    assert!(reply.is_none());
    assert!(matches!(outcome, ReadOutcome::Again));
    let handled = half.handle_frame(Frame::binary(Payload::Borrowed(b"d")));
    let (_, outcome) = settle_read(true, handled);
    assert!(matches!(outcome, ReadOutcome::Fail(WebSocketError::ConnectionClosed)));
    let handled = half.handle_frame(Frame::close(1000, b""));
    let (reply, outcome) = settle_read(true, handled);
    assert!(reply.is_none());
    assert!(matches!(outcome, ReadOutcome::Deliver(_)));
    // A refused frame fails the read with its error.
    let handled = half.handle_frame(Frame::text(Payload::Borrowed(&[0xff])));
    let (_, outcome) = settle_read(false, handled);
    assert!(matches!(outcome, ReadOutcome::Fail(WebSocketError::InvalidUTF8)));
}
