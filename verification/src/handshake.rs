//! Client side of the opening handshake (RFC 6455 section 4.1): the key a
//! client sends, and the check of the server's answer, on the answer's
//! status and header values. Sending the request is left to the caller.
use vstd::prelude::*;

use crate::accept::{base64_encode, base64_standard, lemma_base64_shape};
use crate::error::WebSocketError;
use crate::reactor::{eq_ignore_ascii_case, range_eq_ignore_ascii_case};
use crate::text::{ascii_bytes, ascii_of};

verus! {

/// Sixteen random bytes from `rand::random`. Nothing is promised of their
/// value.
#[verifier::external_body]
pub(crate) fn random_bytes() -> [u8; 16] {
    rand::random::<[u8; 16]>()
}

/// A fresh `Sec-WebSocket-Key` value: the base64 encoding of 16 random
/// bytes.
pub fn generate_key() -> (r: String)
    ensures
        exists|k: Seq<u8>| k.len() == 16 && r@ == base64_standard(k),
        r@.len() == 24,
{
    let k = random_bytes();
    proof {
        lemma_base64_shape(k@);
    }
    base64_encode(&k)
}

/// Whether the header value `h` is present and is `token`, ASCII case
/// ignored.
pub open spec fn header_is(h: Option<Seq<u8>>, token: Seq<u8>) -> bool {
    h matches Some(x) && eq_ignore_ascii_case(x, token)
}

/// The value of an optional header as bytes.
pub open spec fn opt_view(h: Option<&[u8]>) -> Option<Seq<u8>> {
    match h {
        Some(x) => Some(x@),
        None => None,
    }
}

/// Checks a server's answer to the upgrade request, given its status and
/// its first Upgrade and Connection header values: the status must be 101
/// (else `InvalidStatusCode`), Upgrade must be `websocket` (else
/// `InvalidUpgradeHeader`) and Connection `Upgrade` (else
/// `InvalidConnectionHeader`), ASCII case ignored.
pub fn verify_response(status: u16, upgrade: Option<&[u8]>, connection: Option<&[u8]>) -> (r:
    Result<(), WebSocketError>)
    ensures
        r == if status != 101 {
            Err(WebSocketError::InvalidStatusCode)
        } else if !header_is(opt_view(upgrade), ascii_bytes(crate::upgrade::WEBSOCKET_TOKEN)) {
            Err(WebSocketError::InvalidUpgradeHeader)
        } else if !header_is(opt_view(connection), ascii_bytes(crate::upgrade::UPGRADE_TOKEN)) {
            Err(WebSocketError::InvalidConnectionHeader)
        } else {
            Ok::<(), WebSocketError>(())
        },
{
    if status != 101 {
        return Err(WebSocketError::InvalidStatusCode);
    }
    proof {
        reveal_strlit("Upgrade");
        reveal_strlit("websocket");
    }
    let ws = ascii_of(crate::upgrade::WEBSOCKET_TOKEN);
    let up = ascii_of(crate::upgrade::UPGRADE_TOKEN);
    let upgrade_ok = match upgrade {
        Some(h) => range_eq_ignore_ascii_case(h, 0, h.len(), ws.as_slice()),
        None => false,
    };
    if !upgrade_ok {
        proof {
            if let Some(h) = upgrade {
                assert(h@.subrange(0, h@.len() as int) =~= h@);
            }
        }
        return Err(WebSocketError::InvalidUpgradeHeader);
    }
    proof {
        let h = upgrade.unwrap();
        assert(h@.subrange(0, h@.len() as int) =~= h@);
    }
    let connection_ok = match connection {
        Some(h) => range_eq_ignore_ascii_case(h, 0, h.len(), up.as_slice()),
        None => false,
    };
    if !connection_ok {
        proof {
            if let Some(h) = connection {
                assert(h@.subrange(0, h@.len() as int) =~= h@);
            }
        }
        return Err(WebSocketError::InvalidConnectionHeader);
    }
    proof {
        let h = connection.unwrap();
        assert(h@.subrange(0, h@.len() as int) =~= h@);
    }
    Ok(())
}

} // verus!
