use fastwebsockets::accept::sec_websocket_protocol;
use fastwebsockets::upgrade::{
    header_contains_value, is_upgrade_request, trim, trim_end, trim_start, upgrade_accept,
};
use fastwebsockets::WebSocketError;

#[test]
fn trims_ascii_whitespace() {
    assert_eq!(trim(b" \t\r\n\x0c a b \n"), b"a b");
    assert_eq!(trim_start(b"  x "), b"x ");
    assert_eq!(trim_end(b"  x "), b"  x");
    assert_eq!(trim(b"   "), b"");
    assert_eq!(trim(b"\x0bx"), b"\x0bx");
}

#[test]
fn header_lists_are_split_at_commas() {
    let values: Vec<&[u8]> = vec![b"keep-alive", b"foo, UpGrade "];
    assert!(header_contains_value(&values, b"upgrade"));
    assert!(header_contains_value(&values, b"KEEP-ALIVE"));
    assert!(!header_contains_value(&values, b"up"));
    assert!(!header_contains_value(&[], b"upgrade"));
}

#[test]
fn upgrade_requests() {
    let conn: Vec<&[u8]> = vec![b"Upgrade"];
    let up: Vec<&[u8]> = vec![b"h2c, websocket"];
    assert!(is_upgrade_request(&conn, &up));
    assert!(!is_upgrade_request(&conn, &[]));
    assert!(!is_upgrade_request(&[], &up));
}

#[test]
fn accept_value_rfc_example() {
    assert_eq!(sec_websocket_protocol(b"dGhlIHNhbXBsZSBub25jZQ=="), "s3pPLMBiTxaQ9kYGzzhZRbK+xOo=");
    assert_eq!(
        upgrade_accept(Some(b"dGhlIHNhbXBsZSBub25jZQ=="), Some(b"13")).unwrap(),
        "s3pPLMBiTxaQ9kYGzzhZRbK+xOo="
    );
}

#[test]
fn upgrade_refusals() {
    assert!(matches!(upgrade_accept(None, Some(b"13")), Err(WebSocketError::MissingSecWebSocketKey)));
    assert!(matches!(
        upgrade_accept(Some(b"k"), Some(b"8")),
        Err(WebSocketError::InvalidSecWebsocketVersion)
    ));
    assert!(matches!(upgrade_accept(Some(b"k"), None), Err(WebSocketError::InvalidSecWebsocketVersion)));
}
