//! The `Sec-WebSocket-Accept` value of the opening handshake (RFC 6455
//! section 4.2.2): the base64 encoding of the SHA-1 digest of the client's
//! key followed by a fixed GUID.
use base64::Engine;
use sha1::Digest;
use vstd::prelude::*;

verus! {

broadcast use vstd::string::group_string_axioms;

/// The GUID that RFC 6455 appends to the client's key.
pub const WS_GUID: &'static str = "258EAFA5-E914-47DA-95CA-C5AB0DC85B11";

/// The SHA-1 digest (FIPS 180-4) of `data`, as `sha1::Sha1` computes it.
pub uninterp spec fn sha1_digest_of(data: Seq<u8>) -> Seq<u8>;

/// The character of the standard base64 alphabet (RFC 4648 section 4) for
/// the 6-bit value `v`.
pub open spec fn b64_digit(v: u8) -> char {
    if v < 26 {
        ('A' as int + v) as char
    } else if v < 52 {
        ('a' as int + (v - 26)) as char
    } else if v < 62 {
        ('0' as int + (v - 52)) as char
    } else if v == 62 {
        '+'
    } else {
        '/'
    }
}

/// Standard base64 with `=` padding (RFC 4648 section 4): every three
/// bytes become four characters; a last group of one or two bytes is
/// padded to four characters with `=`.
pub open spec fn base64_standard(d: Seq<u8>) -> Seq<char>
    decreases d.len(),
{
    if d.len() == 0 {
        Seq::empty()
    } else if d.len() == 1 {
        seq![b64_digit(d[0] >> 2u8), b64_digit((d[0] & 3u8) << 4u8), '=', '=']
    } else if d.len() == 2 {
        seq![
            b64_digit(d[0] >> 2u8),
            b64_digit(((d[0] & 3u8) << 4u8) | (d[1] >> 4u8)),
            b64_digit((d[1] & 15u8) << 2u8),
            '=',
        ]
    } else {
        seq![
            b64_digit(d[0] >> 2u8),
            b64_digit(((d[0] & 3u8) << 4u8) | (d[1] >> 4u8)),
            b64_digit(((d[1] & 15u8) << 2u8) | (d[2] >> 6u8)),
            b64_digit(d[2] & 63u8),
        ] + base64_standard(d.skip(3))
    }
}

/// The accept value for a client key: base64 of SHA-1 of the key followed
/// by the GUID.
pub open spec fn accept_key(key: Seq<u8>) -> Seq<char> {
    base64_standard(sha1_digest_of(key + vstd::utf8::encode_utf8(WS_GUID@)))
}

/// SHA-1 of `data`, with `sha1::Sha1` (`Digest::digest`). The contract
/// claims only that the digest is the one named `sha1_digest_of` for these
/// bytes.
#[verifier::external_body]
fn sha1_digest(data: &[u8]) -> (r: [u8; 20])
    ensures
        r@ == sha1_digest_of(data@),
{
    sha1::Sha1::digest(data).into()
}

/// Standard padded base64 of `data`, with
/// `base64::engine::general_purpose::STANDARD.encode`. The contract claims
/// that the text is the RFC 4648 encoding. The crate panics when the output
/// length would not fit in `usize`, which `requires` rules out.
#[verifier::external_body]
pub(crate) fn base64_encode(data: &[u8]) -> (r: String)
    requires
        4 * ((data@.len() + 2) / 3) <= usize::MAX,
    ensures
        r@ == base64_standard(data@),
{
    base64::engine::general_purpose::STANDARD.encode(data)
}

/// The `Sec-WebSocket-Accept` header value for the client's
/// `Sec-WebSocket-Key` value `key`.
pub fn sec_websocket_protocol(key: &[u8]) -> (r: String)
    ensures
        r@ == accept_key(key@),
        r@.len() == 28,
        vstd::utf8::is_ascii_chars(r@),
{
    let guid = WS_GUID.as_bytes();
    let mut data: Vec<u8> = Vec::new();
    data.extend_from_slice(key);
    data.extend_from_slice(guid);
    assert(data@ =~= key@ + vstd::utf8::encode_utf8(WS_GUID@));
    let digest = sha1_digest(data.as_slice());
    proof {
        lemma_base64_shape(digest@);
    }
    base64_encode(&digest)
}

/// Base64 text has four characters for every started group of three bytes,
/// all of them ASCII.
pub proof fn lemma_base64_shape(d: Seq<u8>)
    ensures
        base64_standard(d).len() == 4 * ((d.len() + 2) / 3),
        vstd::utf8::is_ascii_chars(base64_standard(d)),
    decreases d.len(),
{
    if d.len() >= 3 {
        lemma_base64_shape(d.skip(3));
    }
    let t = base64_standard(d);
    assert forall|v: u8| #[trigger] b64_digit(v) <= '\u{7f}' by {}
    assert forall|i: int| 0 <= i < t.len() implies '\0' <= #[trigger] t[i] <= '\u{7f}' by {}
}

/// The accept value as the bytes of its (ASCII) text.
pub open spec fn accept_key_bytes(key: Seq<u8>) -> Seq<u8> {
    vstd::utf8::encode_utf8(accept_key(key))
}

} // verus!
