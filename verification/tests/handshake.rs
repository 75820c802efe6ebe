use base64::Engine;
use fastwebsockets::handshake::{generate_key, verify_response};
use fastwebsockets::line_handshake::{extract_key, generate_response};
use fastwebsockets::WebSocketError;

#[test]
fn generated_keys_encode_sixteen_bytes() {
    let a = generate_key();
    let b = generate_key();
    assert_eq!(a.len(), 24);
    let raw = base64::engine::general_purpose::STANDARD.decode(&a).unwrap();
    assert_eq!(raw.len(), 16);
    assert_ne!(a, b);
}

#[test]
fn server_answer_checks() {
    assert!(verify_response(101, Some(b"WebSocket"), Some(b"upgrade")).is_ok());
    assert!(matches!(verify_response(200, Some(b"websocket"), Some(b"Upgrade")), Err(WebSocketError::InvalidStatusCode)));
    assert!(matches!(verify_response(101, Some(b"h2c"), Some(b"Upgrade")), Err(WebSocketError::InvalidUpgradeHeader)));
    assert!(matches!(verify_response(101, None, Some(b"Upgrade")), Err(WebSocketError::InvalidUpgradeHeader)));
    assert!(matches!(verify_response(101, Some(b"websocket"), Some(b"close")), Err(WebSocketError::InvalidConnectionHeader)));
}

#[test]
fn key_from_request_lines() {
    let lines = vec![
        "GET / HTTP/1.1\r\n".to_string(),
        "Host: x\r\n".to_string(),
        "Sec-WebSocket-Key: dGhlIHNhbXBsZSBub25jZQ== \r\n".to_string(),
        "Sec-WebSocket-Key: other\r\n".to_string(),
    ];
    assert_eq!(extract_key(lines).unwrap(), "dGhlIHNhbXBsZSBub25jZQ==");
    assert!(extract_key(vec!["sec-websocket-key: lower\r\n".to_string()]).is_err());
    assert_eq!(extract_key(vec!["Sec-WebSocket-Key:a:b".to_string()]).unwrap(), "a");
}

#[test]
fn response_text() {
    assert_eq!(
        generate_response("dGhlIHNhbXBsZSBub25jZQ=="),
        "HTTP/1.1 101 Switching Protocols\r\nUpgrade: websocket\r\nConnection: Upgrade\r\nSec-WebSocket-Accept: s3pPLMBiTxaQ9kYGzzhZRbK+xOo=\r\n\r\n"
    );
}
