use fastwebsockets::extensions::WebSocketExtensions;
use fastwebsockets::permessage_deflate::{
    PerMessageDeflateExtensionError, PermessageDeflateWebSocketExtension,
};

#[test]
fn permessage_deflate_basic() {
    let extensions = WebSocketExtensions::from(
        "permessage-deflate; client_max_window_bits; server_max_window_bits=10, permessage-deflate; client_max_window_bits",
    );

    let extensions = Vec::from_iter(extensions.iter());

    assert_eq!(extensions[0].name, "permessage-deflate");
    assert_eq!(
        PermessageDeflateWebSocketExtension::try_from(&extensions[0].params),
        Ok(PermessageDeflateWebSocketExtension {
            server_context_takeover: true,
            server_max_window_bits: Some(10),
            client_context_takeover: true,
            client_max_window_bits: Some(None)
        })
    );

    assert_eq!(extensions[1].name, "permessage-deflate");
    assert_eq!(
        PermessageDeflateWebSocketExtension::try_from(&extensions[1].params),
        Ok(PermessageDeflateWebSocketExtension {
            server_context_takeover: true,
            server_max_window_bits: None,
            client_context_takeover: true,
            client_max_window_bits: Some(None)
        })
    );
}

#[test]
fn server_max_window_bits_no_value() {
    let extensions = WebSocketExtensions::from("permessage-deflate; server_max_window_bits");

    let extensions = Vec::from_iter(extensions.iter());

    assert_eq!(extensions[0].name, "permessage-deflate");
    assert_eq!(
        PermessageDeflateWebSocketExtension::try_from(&extensions[0].params),
        Err(PerMessageDeflateExtensionError::InvalidParam),
    );
}

#[test]
fn client_max_window_bits_no_value() {
    let extensions = WebSocketExtensions::from("permessage-deflate; client_max_window_bits");

    let extensions = Vec::from_iter(extensions.iter());

    assert_eq!(extensions[0].name, "permessage-deflate");
    assert_eq!(
        PermessageDeflateWebSocketExtension::try_from(&extensions[0].params),
        Ok(PermessageDeflateWebSocketExtension {
            server_context_takeover: true,
            server_max_window_bits: None,
            client_context_takeover: true,
            client_max_window_bits: Some(None)
        })
    );
}

#[test]
fn client_max_window_bits_with_value() {
    let extensions = WebSocketExtensions::from("permessage-deflate; client_max_window_bits=15");

    let extensions = Vec::from_iter(extensions.iter());

    assert_eq!(extensions[0].name, "permessage-deflate");
    assert_eq!(
        PermessageDeflateWebSocketExtension::try_from(&extensions[0].params),
        Ok(PermessageDeflateWebSocketExtension {
            server_context_takeover: true,
            server_max_window_bits: None,
            client_context_takeover: true,
            client_max_window_bits: Some(Some(15))
        })
    );
}

#[test]
fn client_max_window_bits_invalid_value() {
    let extensions = WebSocketExtensions::from("permessage-deflate; client_max_window_bits=16");

    let extensions = Vec::from_iter(extensions.iter());

    assert_eq!(extensions[0].name, "permessage-deflate");
    assert_eq!(
        PermessageDeflateWebSocketExtension::try_from(&extensions[0].params),
        Err(PerMessageDeflateExtensionError::InvalidParam)
    );
}

fn negotiate(header: &str) -> Result<PermessageDeflateWebSocketExtension, PerMessageDeflateExtensionError> {
    let extensions = WebSocketExtensions::from(header);
    let extensions = Vec::from_iter(extensions.iter());
    PermessageDeflateWebSocketExtension::try_from(&extensions[0].params)
}

#[test]
fn no_context_takeover_flags() {
    assert_eq!(
        negotiate("permessage-deflate; server_no_context_takeover; client_no_context_takeover"),
        Ok(PermessageDeflateWebSocketExtension {
            server_context_takeover: false,
            server_max_window_bits: None,
            client_context_takeover: false,
            client_max_window_bits: None
        })
    );
}

#[test]
fn repeated_or_valued_flags_are_refused() {
    assert_eq!(
        negotiate("permessage-deflate; server_no_context_takeover; server_no_context_takeover"),
        Err(PerMessageDeflateExtensionError::InvalidParam)
    );
    assert_eq!(
        negotiate("permessage-deflate; client_no_context_takeover=1"),
        Err(PerMessageDeflateExtensionError::InvalidParam)
    );
    assert_eq!(
        negotiate("permessage-deflate; server_max_window_bits=9; server_max_window_bits=9"),
        Err(PerMessageDeflateExtensionError::InvalidParam)
    );
    assert_eq!(
        negotiate("permessage-deflate; client_max_window_bits; client_max_window_bits=9"),
        Err(PerMessageDeflateExtensionError::InvalidParam)
    );
}

#[test]
fn unknown_parameter_is_refused() {
    assert_eq!(negotiate("permessage-deflate; foo"), Err(PerMessageDeflateExtensionError::InvalidParam));
}

#[test]
fn window_bits_parse_like_u8() {
    let ok = |bits: Option<u8>| {
        Ok(PermessageDeflateWebSocketExtension {
            server_context_takeover: true,
            server_max_window_bits: bits,
            client_context_takeover: true,
            client_max_window_bits: None,
        })
    };
    assert_eq!(negotiate("permessage-deflate; server_max_window_bits=+9"), ok(Some(9)));
    assert_eq!(negotiate("permessage-deflate; server_max_window_bits=008"), ok(Some(8)));
    assert_eq!(
        negotiate("permessage-deflate; server_max_window_bits=7"),
        Err(PerMessageDeflateExtensionError::InvalidParam)
    );
    assert_eq!(
        negotiate("permessage-deflate; server_max_window_bits=-9"),
        Err(PerMessageDeflateExtensionError::InvalidParam)
    );
    assert_eq!(
        negotiate("permessage-deflate; server_max_window_bits=256"),
        Err(PerMessageDeflateExtensionError::InvalidParam)
    );
    assert_eq!(
        negotiate("permessage-deflate; server_max_window_bits=1a"),
        Err(PerMessageDeflateExtensionError::InvalidParam)
    );
    assert_eq!(
        negotiate("permessage-deflate; server_max_window_bits=+"),
        Err(PerMessageDeflateExtensionError::InvalidParam)
    );
}

#[test]
fn to_string_writes_settings() {
    let ext = PermessageDeflateWebSocketExtension::default();
    assert_eq!(ext.to_string(), "permessage-deflate");
    let ext = PermessageDeflateWebSocketExtension {
        server_context_takeover: false,
        server_max_window_bits: Some(10),
        client_context_takeover: false,
        client_max_window_bits: Some(Some(12)),
    };
    assert_eq!(
        ext.to_string(),
        "permessage-deflate;server_no_context_takeover;client_max_window_bits=12;client_no_context_takeover"
    );
    let ext = PermessageDeflateWebSocketExtension {
        server_context_takeover: true,
        server_max_window_bits: None,
        client_context_takeover: true,
        client_max_window_bits: Some(Some(255)),
    };
    assert_eq!(ext.to_string(), "permessage-deflate;client_max_window_bits=255");
}

#[test]
fn deflate_is_not_supported_by_this_build() {
    assert!(!PermessageDeflateWebSocketExtension::default().is_supported());
}

#[test]
fn written_header_negotiates_back() {
    for server_context_takeover in [true, false] {
        for client_context_takeover in [true, false] {
            for client_max_window_bits in [None, Some(Some(8)), Some(Some(12)), Some(Some(15))] {
                let ext = PermessageDeflateWebSocketExtension {
                    server_context_takeover,
                    server_max_window_bits: None,
                    client_context_takeover,
                    client_max_window_bits,
                };
                let header = ext.to_string();
                let extensions = WebSocketExtensions::from(header.as_str());
                let extensions = Vec::from_iter(extensions.iter());
                assert_eq!(extensions.len(), 1);
                assert_eq!(extensions[0].name, "permessage-deflate");
                assert_eq!(
                    PermessageDeflateWebSocketExtension::try_from(&extensions[0].params),
                    Ok(ext)
                );
            }
        }
    }
}
