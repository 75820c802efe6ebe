use fastwebsockets::fragment::{FragmentCollector, Fragments};
use fastwebsockets::frame::{Frame, Payload};
use fastwebsockets::websocket::{Role, WebSocket};
use fastwebsockets::{OpCode, WebSocketError};

fn part<'a>(fin: bool, opcode: OpCode, bytes: &'a [u8]) -> Frame<'a> {
    Frame::new(fin, opcode, None, Payload::Borrowed(bytes))
}

#[test]
fn text_fragments_are_joined() {
    let mut f = Fragments::new();
    assert!(f.accumulate(part(false, OpCode::Text, b"hel"), 100).unwrap().is_none());
    assert!(f.accumulate(part(false, OpCode::Continuation, b"lo "), 100).unwrap().is_none());
    let msg = f.accumulate(part(true, OpCode::Continuation, b"world"), 100).unwrap().unwrap();
    assert!(msg.fin);
    assert_eq!(msg.opcode, OpCode::Text);
    assert_eq!(msg.payload.as_slice(), b"hello world");
}

#[test]
fn character_split_across_fragments() {
    let text = "aé€😀z".as_bytes();
    for cut1 in 0..text.len() {
        for cut2 in cut1..text.len() {
            let mut f = Fragments::new();
            assert!(f.accumulate(part(false, OpCode::Text, &text[..cut1]), 100).unwrap().is_none());
            assert!(f
                .accumulate(part(false, OpCode::Continuation, &text[cut1..cut2]), 100)
                .unwrap()
                .is_none());
            let msg = f
                .accumulate(part(true, OpCode::Continuation, &text[cut2..]), 100)
                .unwrap()
                .unwrap();
            assert_eq!(msg.payload.as_slice(), text);
        }
    }
}

#[test]
fn invalid_text_is_refused() {
    let mut f = Fragments::new();
    assert!(matches!(
        f.accumulate(part(false, OpCode::Text, &[0xff]), 100),
        Err(WebSocketError::InvalidUTF8)
    ));
    let mut f = Fragments::new();
    f.accumulate(part(false, OpCode::Text, &[0xe2, 0x82]), 100).unwrap();
    assert!(matches!(
        f.accumulate(part(true, OpCode::Continuation, &[0x41]), 100),
        Err(WebSocketError::InvalidUTF8)
    ));
    let mut f = Fragments::new();
    assert!(matches!(
        f.accumulate(part(true, OpCode::Text, &[0xe2, 0x82]), 100),
        Err(WebSocketError::InvalidUTF8)
    ));
}

#[test]
fn binary_fragments_and_limits() {
    let mut f = Fragments::new();
    f.accumulate(part(false, OpCode::Binary, &[1, 2]), 6).unwrap();
    f.accumulate(part(false, OpCode::Continuation, &[3, 4]), 6).unwrap();
    assert!(matches!(
        f.accumulate(part(true, OpCode::Continuation, &[5, 6, 7]), 6),
        Err(WebSocketError::FrameTooLarge)
    ));
    let msg = f.accumulate(part(true, OpCode::Continuation, &[5, 6]), 6).unwrap().unwrap();
    assert_eq!(msg.opcode, OpCode::Binary);
    assert_eq!(msg.payload.as_slice(), &[1, 2, 3, 4, 5, 6]);
    assert!(matches!(
        f.accumulate(part(false, OpCode::Binary, &[0; 7]), 6),
        Err(WebSocketError::FrameTooLarge)
    ));
    assert!(f.accumulate(part(false, OpCode::Binary, &[0; 6]), 6).unwrap().is_none());
}

#[test]
fn protocol_errors() {
    let mut f = Fragments::new();
    assert!(matches!(
        f.accumulate(part(true, OpCode::Continuation, b"x"), 100),
        Err(WebSocketError::InvalidContinuationFrame)
    ));
    f.accumulate(part(false, OpCode::Binary, b"x"), 100).unwrap();
    assert!(matches!(
        f.accumulate(part(true, OpCode::Text, b"y"), 100),
        Err(WebSocketError::InvalidFragment)
    ));
    let ping = f.accumulate(part(true, OpCode::Ping, b"p"), 100).unwrap().unwrap();
    assert_eq!(ping.opcode, OpCode::Ping);
    let whole = f.accumulate(part(true, OpCode::Continuation, b"z"), 100).unwrap().unwrap();
    assert_eq!(whole.payload.as_slice(), b"xz");
}

#[test]
fn collector_wraps_a_websocket() {
    let ws = WebSocket::after_handshake(5u8, Role::Server);
    let mut c = FragmentCollector::new(ws);
    {
        let (s, _, _, frags) = c.parts_mut();
        assert_eq!(*s, 5);
        assert!(frags.accumulate(part(true, OpCode::Binary, b"b"), 10).unwrap().is_some());
    }
    assert_eq!(c.into_inner(), 5);
}

#[test]
fn binary_message_in_many_fragments_comes_back_whole() {
    let pieces: Vec<Vec<u8>> = (0u8..5).map(|i| vec![i; (i as usize) + 1]).collect();
    let mut f = Fragments::new();
    let n = pieces.len();
    let mut whole = Vec::new();
    for (i, p) in pieces.iter().enumerate() {
        let opcode = if i == 0 { OpCode::Binary } else { OpCode::Continuation };
        let out = f.accumulate(part(i == n - 1, opcode, p), 1000).unwrap();
        whole.extend_from_slice(p);
        if i < n - 1 {
            assert!(out.is_none());
        } else {
            let msg = out.unwrap();
            assert!(msg.fin);
            assert_eq!(msg.opcode, OpCode::Binary);
            assert_eq!(msg.payload.as_slice(), whole.as_slice());
        }
    }
    // Nothing is left being reassembled: a new message may start.
    assert!(f.accumulate(part(true, OpCode::Binary, b"x"), 1000).unwrap().is_some());
}

#[test]
fn message_of_exactly_the_limit_is_accepted() {
    let mut f = Fragments::new();
    assert!(f.accumulate(part(false, OpCode::Binary, &[1, 2]), 4).unwrap().is_none());
    let msg = f.accumulate(part(true, OpCode::Continuation, &[3, 4]), 4).unwrap().unwrap();
    assert_eq!(msg.opcode, OpCode::Binary);
    assert_eq!(msg.payload.as_slice(), &[1, 2, 3, 4]);
}

#[test]
fn text_ending_inside_a_character_is_refused() {
    let mut f = Fragments::new();
    assert!(f.accumulate(part(false, OpCode::Text, b"a"), 100).unwrap().is_none());
    assert!(matches!(
        f.accumulate(part(true, OpCode::Continuation, &[0xC3]), 100),
        Err(WebSocketError::InvalidUTF8)
    ));
}

#[test]
fn control_frame_mid_message_comes_back_unchanged() {
    let mut f = Fragments::new();
    assert!(f.accumulate(part(false, OpCode::Binary, &[1, 2]), 100).unwrap().is_none());
    let ping = Frame::new(true, OpCode::Ping, Some([9, 9, 9, 9]), Payload::Owned(b"hi".to_vec()));
    let back = f.accumulate(ping, 100).unwrap().unwrap();
    assert!(back.fin);
    assert_eq!(back.opcode, OpCode::Ping);
    assert_eq!(back.mask, Some([9, 9, 9, 9]));
    assert!(matches!(back.payload, Payload::Owned(_)));
    assert_eq!(back.payload.as_slice(), b"hi");
    let msg = f.accumulate(part(true, OpCode::Continuation, &[3]), 100).unwrap().unwrap();
    assert_eq!(msg.opcode, OpCode::Binary);
    assert_eq!(msg.payload.as_slice(), &[1, 2, 3]);
}
