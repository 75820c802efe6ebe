use fastwebsockets::reactor::{
    find_double_crlf, find_header_value, plan_command, sec_websocket_accept, session_step, upgrade_reply,
    Command, CommandPlan, Connection, Outbound, Phase, SessionAction, SessionId, UpgradeReply,
};
use fastwebsockets::OpCode;

#[test]
fn rfc6455_accept_key() {
    let got = sec_websocket_accept(b"dGhlIHNhbXBsZSBub25jZQ==");
    assert_eq!(&got, b"s3pPLMBiTxaQ9kYGzzhZRbK+xOo=");
}

#[test]
fn double_crlf_locator() {
    assert_eq!(find_double_crlf(b"GET / HTTP/1.1\r\n\r\n"), Some(18));
    assert_eq!(find_double_crlf(b"GET / HTTP/1.1\r\nHost: x\r\n\r\nrest"), Some(27));
    assert_eq!(find_double_crlf(b"GET / HTTP/1.1\r\n"), None);
    assert_eq!(find_double_crlf(b""), None);
}

#[test]
fn header_value_lookup_case_insensitive() {
    let req = b"GET / HTTP/1.1\r\nHost: x\r\nSec-WebSocket-Key: AbCdEf==\r\nUpgrade: websocket\r\n\r\n";
    let v = find_header_value(req, b"sec-websocket-key").unwrap();
    assert_eq!(v, b"AbCdEf==");
    let v = find_header_value(req, b"Sec-WebSocket-Key").unwrap();
    assert_eq!(v, b"AbCdEf==");
    let v = find_header_value(req, b"upgrade").unwrap();
    assert_eq!(v, b"websocket");
    assert!(find_header_value(req, b"nope").is_none());
}

#[test]
fn header_value_skips_blanks_and_takes_first_line() {
    let head = b"X-A:\t  one\r\nx-a: two\r\n";
    assert_eq!(find_header_value(head, b"X-A").unwrap(), b"one");
    let last = b"k:v";
    assert_eq!(find_header_value(last, b"K").unwrap(), b"v");
    assert!(find_header_value(b"no colon here\r\n", b"no colon here").is_none());
}

#[test]
fn upgrade_reply_answers_complete_requests() {
    assert!(matches!(upgrade_reply(b"GET / HTTP/1.1\r\nHost: x\r\n"), UpgradeReply::Incomplete));
    assert!(matches!(upgrade_reply(b"GET / HTTP/1.1\r\nHost: x\r\n\r\n"), UpgradeReply::Reject));
    let req = b"GET / HTTP/1.1\r\nSec-WebSocket-Key: dGhlIHNhbXBsZSBub25jZQ==\r\n\r\n\x81\x80";
    match upgrade_reply(req) {
        UpgradeReply::Accept { response, consumed } => {
            assert_eq!(consumed, req.len() - 2);
            assert_eq!(
                response,
                b"HTTP/1.1 101 Switching Protocols\r\nconnection: upgrade\r\nupgrade: websocket\r\nsec-websocket-accept: s3pPLMBiTxaQ9kYGzzhZRbK+xOo=\r\n\r\n".to_vec()
            );
        }
        _ => panic!("expected an accepted upgrade"),
    }
}

#[test]
fn connection_records_handler_actions() {
    let mut out = Outbound::default();
    {
        let mut conn = Connection { id: SessionId(7), out: &mut out };
        assert_eq!(conn.id(), SessionId(7));
        conn.send(OpCode::Text, b"hi");
        conn.send(OpCode::Binary, &[9u8; 200]);
        conn.echo();
        conn.close();
    }
    assert!(out.echo);
    assert!(out.close);
    let mut expected = vec![0x81, 2, b'h', b'i', 0x82, 126, 0, 200];
    expected.extend_from_slice(&[9u8; 200]);
    assert_eq!(out.sends, expected);
}

#[test]
fn commands_follow_the_session_phase() {
    let send = || Command::Send { id: SessionId(1), opcode: OpCode::Text, payload: b"hi".to_vec() };
    match plan_command(Phase::Echoing, true, send()) {
        (Phase::Echoing, CommandPlan::Queue(bytes)) => assert_eq!(bytes, vec![0x81, 2, b'h', b'i']),
        _ => panic!("a send to an open session is queued"),
    }
    assert!(matches!(plan_command(Phase::Handshake, true, send()), (Phase::Handshake, CommandPlan::Ignore)));
    assert!(matches!(plan_command(Phase::Closed, false, send()), (Phase::Closed, CommandPlan::Ignore)));
    let close = Command::Close { id: SessionId(1) };
    assert!(matches!(plan_command(Phase::Echoing, true, close), (Phase::Closed, CommandPlan::Drop)));
    let close = Command::Close { id: SessionId(1) };
    assert!(matches!(plan_command(Phase::Echoing, false, close), (Phase::Closed, CommandPlan::DrainThenDrop)));
}

#[test]
fn session_waits_for_a_complete_request() {
    let (phase, needs_open, action) = session_step(Phase::Handshake, true, UpgradeReply::Incomplete);
    assert!(phase == Phase::Handshake);
    assert!(needs_open);
    assert!(matches!(action, SessionAction::Wait));
}

#[test]
fn session_without_key_is_closed() {
    let (phase, needs_open, action) = session_step(Phase::Handshake, true, UpgradeReply::Reject);
    assert!(phase == Phase::Handshake);
    assert!(needs_open);
    assert!(matches!(action, SessionAction::Close));
}

#[test]
fn accepted_session_opens_once_then_echoes() {
    let reply = UpgradeReply::Accept { response: b"HTTP/1.1 101".to_vec(), consumed: 40 };
    let (phase, needs_open, action) = session_step(Phase::Handshake, true, reply);
    assert!(phase == Phase::Echoing);
    assert!(!needs_open);
    match action {
        SessionAction::Proceed { response, frames_at, open } => {
            assert_eq!(response, Some(b"HTTP/1.1 101".to_vec()));
            assert_eq!(frames_at, 40);
            assert!(open);
        }
        _ => panic!("expected to proceed"),
    }
    let (phase, needs_open, action) = session_step(phase, needs_open, UpgradeReply::Incomplete);
    assert!(phase == Phase::Echoing);
    assert!(!needs_open);
    match action {
        SessionAction::Proceed { response, frames_at, open } => {
            assert_eq!(response, None);
            assert_eq!(frames_at, 0);
            assert!(!open);
        }
        _ => panic!("expected to proceed"),
    }
}
