use fastwebsockets::{OpCode, ServerEngine, ServerResponse, WebSocketError};

fn frame_to(bytes: &[u8]) -> Vec<u8> {
    // Build a masked Binary frame for `bytes` with mask [1,2,3,4].
    let mask = [1u8, 2, 3, 4];
    let mut out = vec![0x82u8];
    if bytes.len() < 126 {
        out.push(0x80 | bytes.len() as u8);
    } else if bytes.len() < 65536 {
        out.push(0xfe);
        out.extend_from_slice(&(bytes.len() as u16).to_be_bytes());
    } else {
        out.push(0xff);
        out.extend_from_slice(&(bytes.len() as u64).to_be_bytes());
    }
    out.extend_from_slice(&mask);
    for (i, b) in bytes.iter().enumerate() {
        out.push(b ^ mask[i & 3]);
    }
    out
}

fn echo_handler(payload: Vec<u8>, _opcode: OpCode) -> (ServerResponse, Vec<u8>, Vec<u8>) {
    (ServerResponse::Echo, payload, Vec::new())
}

fn discard_handler(payload: Vec<u8>, _opcode: OpCode) -> (ServerResponse, Vec<u8>, Vec<u8>) {
    (ServerResponse::Discard, payload, Vec::new())
}

#[test]
fn echo_short_binary() {
    let mut engine = ServerEngine::new();
    let mut frame = frame_to(b"hello");
    let mut writes: Vec<Vec<u8>> = Vec::new();
    let consumed = engine.process(&frame, &mut writes, echo_handler).unwrap();
    assert_eq!(consumed, frame.len());
    assert_eq!(writes.concat(), vec![0x82, 5, b'h', b'e', b'l', b'l', b'o']);
    assert_eq!(writes.len(), 1);
}

#[test]
fn echo_extended_length() {
    let payload = vec![0xABu8; 16_384];
    let mut frame = frame_to(&payload);
    let mut engine = ServerEngine::new();
    let mut writes: Vec<Vec<u8>> = Vec::new();
    let consumed = engine.process(&frame, &mut writes, echo_handler).unwrap();
    assert_eq!(consumed, frame.len());
    assert_eq!(writes.concat().len(), 4 + 16_384);
    assert_eq!(&writes.concat()[..4], &[0x82, 126, 0x40, 0x00]);
    assert!(writes.concat()[4..].iter().all(|&b| b == 0xAB));
    assert_eq!(writes.len(), 1);
}

#[test]
fn ping_yields_pong() {
    let mut frame = vec![0x89, 0x84, 1, 2, 3, 4];
    let payload = b"abcd";
    for (i, &b) in payload.iter().enumerate() {
        frame.push(b ^ [1u8, 2, 3, 4][i]);
    }
    let mut engine = ServerEngine::new();
    let mut writes: Vec<Vec<u8>> = Vec::new();
    let _ = engine
        .process(&frame, &mut writes, discard_handler)
        .unwrap();
    assert!(!engine.is_closed());
    assert_eq!(writes.concat()[0], 0x8A);
    assert_eq!(writes.concat()[1], 4);
    assert_eq!(&writes.concat()[2..6], b"abcd");
}

#[test]
fn close_marks_closed() {
    let mut frame = vec![0x88, 0x80, 1, 2, 3, 4];
    let mut engine = ServerEngine::new();
    let mut writes: Vec<Vec<u8>> = Vec::new();
    let _ = engine
        .process(&frame, &mut writes, discard_handler)
        .unwrap();
    assert!(engine.is_closed());
    assert_eq!(writes.concat(), vec![0x88, 0]);
}

#[test]
fn batch_of_two_frames() {
    let mut buf = Vec::new();
    buf.extend_from_slice(&frame_to(b"abc"));
    buf.extend_from_slice(&frame_to(b"de"));
    let mut engine = ServerEngine::new();
    let mut writes: Vec<Vec<u8>> = Vec::new();
    let consumed = engine.process(&buf, &mut writes, echo_handler).unwrap();
    assert_eq!(consumed, buf.len());
    assert_eq!(writes.concat(), vec![0x82, 3, b'a', b'b', b'c', 0x82, 2, b'd', b'e']);
}

#[test]
fn unmasked_input_uses_fallback_writev() {
    let mut frame = vec![0x82u8, 0x05u8];
    frame.extend_from_slice(b"hello");
    let mut engine = ServerEngine::new();
    let mut writes: Vec<Vec<u8>> = Vec::new();
    let consumed = engine.process(&frame, &mut writes, echo_handler).unwrap();
    assert_eq!(consumed, frame.len());
    assert_eq!(writes.concat(), vec![0x82, 5, b'h', b'e', b'l', b'l', b'o']);
    assert_eq!(writes, vec![vec![0x82, 5], b"hello".to_vec()]);
}

#[test]
fn partial_frame_is_held_then_completed() {
    let whole = frame_to(b"hello");
    let mut engine = ServerEngine::new();
    let mut writes: Vec<Vec<u8>> = Vec::new();
    let first = whole[..4].to_vec();
    let consumed = engine.process(&first, &mut writes, echo_handler).unwrap();
    assert_eq!(consumed, 4);
    assert_eq!(engine.partial_len(), 4);
    assert!(writes.is_empty());
    // The held bytes are put in front of the next input.
    let second = whole[4..].to_vec();
    let consumed = engine.process(&second, &mut writes, echo_handler).unwrap();
    assert_eq!(consumed, 7);
    assert_eq!(engine.partial_len(), 0);
    assert_eq!(writes.concat(), vec![0x82, 5, b'h', b'e', b'l', b'l', b'o']);
}

#[test]
fn held_bytes_wait_for_more() {
    let whole = frame_to(b"hello world");
    let mut engine = ServerEngine::new();
    let mut writes: Vec<Vec<u8>> = Vec::new();
    assert_eq!(engine.process(&whole[..3], &mut writes, echo_handler).unwrap(), 3);
    assert_eq!(engine.process(&whole[3..8], &mut writes, echo_handler).unwrap(), 5);
    assert_eq!(engine.partial_len(), 8);
    assert!(writes.is_empty());
    assert_eq!(engine.process(&whole[8..], &mut writes, echo_handler).unwrap(), 9);
    assert_eq!(engine.partial_len(), 0);
    let mut expected = vec![0x82, 11];
    expected.extend_from_slice(b"hello world");
    assert_eq!(writes.concat(), expected);
}

#[test]
fn held_bytes_need_room() {
    let whole = frame_to(b"hello");
    let mut engine = ServerEngine::new();
    let mut writes: Vec<Vec<u8>> = Vec::new();
    engine.process(&whole[..4], &mut writes, echo_handler).unwrap();
    assert!(matches!(
        engine.process(&whole[4..6], &mut writes, echo_handler),
        Err(WebSocketError::FrameTooLarge)
    ));
    assert_eq!(engine.partial_len(), 4);
    assert!(writes.is_empty());
    assert_eq!(engine.process(&whole[4..], &mut writes, echo_handler).unwrap(), 7);
    assert_eq!(writes.concat(), vec![0x82, 5, b'h', b'e', b'l', b'l', b'o']);
}

#[test]
fn fragments_and_continuations_are_refused() {
    let mut engine = ServerEngine::new();
    let mut frame = vec![0x02, 0x80, 1, 2, 3, 4];
    assert!(matches!(engine.process(&frame, &mut Vec::new(), echo_handler), Err(WebSocketError::InvalidFragment)));
    let mut frame = vec![0x80, 0x80, 1, 2, 3, 4];
    assert!(matches!(
        engine.process(&frame, &mut Vec::new(), echo_handler),
        Err(WebSocketError::InvalidContinuationFrame)
    ));
    let mut frame = vec![0xC2, 0x80, 1, 2, 3, 4];
    assert!(matches!(
        engine.process(&frame, &mut Vec::new(), echo_handler),
        Err(WebSocketError::ReservedBitsNotZero)
    ));
}

#[test]
fn closed_engine_consumes_nothing() {
    let mut engine = ServerEngine::default();
    let close = vec![0x88, 0x80, 1, 2, 3, 4];
    let mut writes: Vec<Vec<u8>> = Vec::new();
    let consumed = engine.process(&close, &mut writes, echo_handler).unwrap();
    assert_eq!(consumed, 6);
    assert_eq!(writes.concat(), vec![0x88, 0]);
    let more = frame_to(b"late");
    let consumed = engine.process(&more, &mut writes, echo_handler).unwrap();
    assert_eq!(consumed, 0);
    assert_eq!(writes.concat(), vec![0x88, 0]);
}

#[test]
fn handler_sees_unmasked_payload_and_may_change_it() {
    let mut frame = frame_to(b"abcd");
    let mut engine = ServerEngine::new();
    let mut writes: Vec<Vec<u8>> = Vec::new();
    engine
        .process(&frame, &mut writes, |mut p: Vec<u8>, op| {
            assert_eq!(op, OpCode::Binary);
            assert_eq!(p, b"abcd");
            p.make_ascii_uppercase();
            (ServerResponse::Echo, p, b"pre".to_vec())
        })
        .unwrap();
    assert_eq!(writes.concat(), vec![b'p', b'r', b'e', 0x82, 4, b'A', b'B', b'C', b'D']);
    assert_eq!(writes, vec![b"pre".to_vec(), vec![0x82, 4, b'A', b'B', b'C', b'D']]);
}

#[test]
fn whole_frames_then_a_partial_one_hold_only_its_bytes() {
    let mut input = frame_to(b"ab");
    input.extend_from_slice(&frame_to(b"cd"));
    let third = frame_to(b"efg");
    input.extend_from_slice(&third[..5]);
    let mut engine = ServerEngine::new();
    let mut writes: Vec<Vec<u8>> = Vec::new();
    let consumed = engine.process(&input, &mut writes, echo_handler).unwrap();
    assert_eq!(consumed, input.len());
    assert_eq!(engine.partial_len(), 5);
    assert_eq!(writes.concat(), vec![0x82, 2, b'a', b'b', 0x82, 2, b'c', b'd']);
}

#[test]
fn large_echo_goes_out_in_two_writes() {
    let payload = vec![0x11u8; 70_000];
    let frame = frame_to(&payload);
    let mut engine = ServerEngine::new();
    let mut writes: Vec<Vec<u8>> = Vec::new();
    let consumed = engine.process(&frame, &mut writes, echo_handler).unwrap();
    assert_eq!(consumed, frame.len());
    assert_eq!(writes.len(), 2);
    assert_eq!(writes[0], vec![0x82, 127, 0, 0, 0, 0, 0, 1, 0x11, 0x70]);
    assert_eq!(writes[1], payload);
}

#[test]
fn unmasked_ping_is_answered_in_two_writes() {
    let frame = vec![0x89u8, 0x02, b'h', b'i'];
    let mut engine = ServerEngine::new();
    let mut writes: Vec<Vec<u8>> = Vec::new();
    engine.process(&frame, &mut writes, discard_handler).unwrap();
    assert_eq!(writes, vec![vec![0x8A, 2], b"hi".to_vec()]);
}
