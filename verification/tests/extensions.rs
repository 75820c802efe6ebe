use fastwebsockets::extensions::{WebSocketExtension, WebSocketExtensions};

#[test]
fn empty() {
    assert_eq!(
        WebSocketExtensions::from(""),
        WebSocketExtensions(vec![WebSocketExtension { name: "", params: vec![] }])
    );
    assert_eq!(
        WebSocketExtensions::from("    "),
        WebSocketExtensions(vec![WebSocketExtension { name: "", params: vec![] }])
    );
    assert_eq!(
        WebSocketExtensions::from(";  ;  "),
        WebSocketExtensions(vec![WebSocketExtension {
            name: "",
            params: vec![("", None), ("", None)]
        }])
    );
    assert_eq!(
        WebSocketExtensions::from(";  ; ,, "),
        WebSocketExtensions(vec![
            WebSocketExtension { name: "", params: vec![("", None), ("", None)] },
            WebSocketExtension { name: "", params: vec![] },
            WebSocketExtension { name: "", params: vec![] }
        ])
    );
}

#[test]
fn extensions_basic() {
    assert_eq!(
        WebSocketExtensions::from(
            "permessage-deflate; client_max_window_bits; server_max_window_bits=10, permessage-deflate; client_max_window_bits"
        ),
        WebSocketExtensions(vec![
            WebSocketExtension {
                name: "permessage-deflate",
                params: vec![
                    ("client_max_window_bits", None),
                    ("server_max_window_bits", Some("10"))
                ]
            },
            WebSocketExtension {
                name: "permessage-deflate",
                params: vec![("client_max_window_bits", None)]
            }
        ])
    );
}

#[test]
fn empty_param_pair() {
    assert_eq!(
        WebSocketExtensions::from(
            "permessage-deflate; client_max_window_bits; =, permessage-deflate; client_max_window_bits"
        ),
        WebSocketExtensions(vec![
            WebSocketExtension {
                name: "permessage-deflate",
                params: vec![("client_max_window_bits", None), ("", Some(""))]
            },
            WebSocketExtension {
                name: "permessage-deflate",
                params: vec![("client_max_window_bits", None)]
            }
        ])
    );
}

#[test]
fn value_keeps_later_equals_signs() {
    let exts = WebSocketExtensions::from("x; a = b=c ;b");
    assert_eq!(
        exts,
        WebSocketExtensions(vec![WebSocketExtension {
            name: "x",
            params: vec![("a", Some("b=c")), ("b", None)]
        }])
    );
}

#[test]
fn unicode_whitespace_is_trimmed() {
    let exts = WebSocketExtensions::from("\u{a0}deflate\u{3000};\tk\u{2003}=\u{85}v ");
    assert_eq!(
        exts,
        WebSocketExtensions(vec![WebSocketExtension { name: "deflate", params: vec![("k", Some("v"))] }])
    );
}

#[test]
fn iter_yields_extensions_in_order() {
    let exts = WebSocketExtensions::from("a, b ,c");
    let names: Vec<&str> = exts.iter().map(|e| e.name).collect();
    assert_eq!(names, vec!["a", "b", "c"]);
}

#[test]
fn extension_and_params_directly() {
    let e = fastwebsockets::extensions::extension(" foo ; x=1 ").unwrap();
    assert_eq!(e, WebSocketExtension { name: "foo", params: vec![("x", Some("1"))] });
    let ps = fastwebsockets::extensions::extension_params("a;b=;=c");
    assert_eq!(ps, vec![("a", None), ("b", Some("")), ("", Some("c"))]);
}
