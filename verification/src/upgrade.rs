//! Server side of the HTTP upgrade (RFC 6455 section 4.2): whether a request
//! asks for a WebSocket, and the accept value it gets, decided on the header
//! values. Building the HTTP response is left to the caller.
use vstd::prelude::*;

use crate::accept::{accept_key, sec_websocket_protocol};
use crate::error::WebSocketError;
use crate::reactor::{eq_ignore_ascii_case, range_eq_ignore_ascii_case};
use crate::text::{ascii_bytes, ascii_of};

verus! {

/// ASCII white space as `u8::is_ascii_whitespace` defines it: space, tab,
/// line feed, form feed, carriage return.
pub open spec fn is_ascii_space(b: u8) -> bool {
    b == 32 || b == 9 || b == 10 || b == 12 || b == 13
}

fn ascii_space(b: u8) -> (r: bool)
    ensures
        r == is_ascii_space(b),
{
    b == 32 || b == 9 || b == 10 || b == 12 || b == 13
}

/// Number of leading ASCII white-space bytes of `d`.
pub open spec fn leading_space(d: Seq<u8>) -> int
    decreases d.len(),
{
    if d.len() > 0 && is_ascii_space(d[0]) {
        1 + leading_space(d.drop_first())
    } else {
        0
    }
}

/// Number of trailing ASCII white-space bytes of `d`.
pub open spec fn trailing_space(d: Seq<u8>) -> int
    decreases d.len(),
{
    if d.len() > 0 && is_ascii_space(d.last()) {
        1 + trailing_space(d.drop_last())
    } else {
        0
    }
}

proof fn lemma_leading_space_at(d: Seq<u8>, k: int)
    requires
        0 <= k <= d.len(),
        forall|j: int| 0 <= j < k ==> is_ascii_space(#[trigger] d[j]),
        k == d.len() || !is_ascii_space(d[k]),
    ensures
        leading_space(d) == k,
    decreases k,
{
    if k > 0 {
        lemma_leading_space_at(d.drop_first(), k - 1);
    }
}

proof fn lemma_trailing_space_at(d: Seq<u8>, m: int)
    requires
        0 <= m <= d.len(),
        forall|j: int| m <= j < d.len() ==> is_ascii_space(#[trigger] d[j]),
        m == 0 || !is_ascii_space(d[m - 1]),
    ensures
        trailing_space(d) == d.len() - m,
    decreases d.len() - m,
{
    if m < d.len() {
        lemma_trailing_space_at(d.drop_last(), m);
    }
}

/// `data` without leading ASCII white space.
pub fn trim_start(data: &[u8]) -> (r: &[u8])
    ensures
        r@ == data@.skip(leading_space(data@)),
{
    let mut i: usize = 0;
    while i < data.len() && ascii_space(data[i])
        invariant
            i <= data@.len(),
            forall|j: int| 0 <= j < i ==> is_ascii_space(#[trigger] data@[j]),
        decreases data@.len() - i,
    {
        i = i + 1;
    }
    proof {
        lemma_leading_space_at(data@, i as int);
    }
    vstd::slice::slice_subrange(data, i, data.len())
}

/// `data` without trailing ASCII white space.
pub fn trim_end(data: &[u8]) -> (r: &[u8])
    ensures
        r@ == data@.take(data@.len() - trailing_space(data@)),
{
    let mut m = data.len();
    while m > 0 && ascii_space(data[m - 1])
        invariant
            m <= data@.len(),
            forall|j: int| m <= j < data@.len() ==> is_ascii_space(#[trigger] data@[j]),
        decreases m,
    {
        m = m - 1;
    }
    proof {
        lemma_trailing_space_at(data@, m as int);
    }
    vstd::slice::slice_subrange(data, 0, m)
}

/// `d` without leading and trailing ASCII white space.
pub open spec fn trimmed(d: Seq<u8>) -> Seq<u8> {
    let s = d.skip(leading_space(d));
    s.take(s.len() - trailing_space(s))
}

/// `data` without leading and trailing ASCII white space.
pub fn trim(data: &[u8]) -> (r: &[u8])
    ensures
        r@ == trimmed(data@),
{
    trim_end(trim_start(data))
}

/// Whether `x` is `value` once trimmed, ASCII case ignored.
pub open spec fn token_matches(x: Seq<u8>, value: Seq<u8>) -> bool {
    eq_ignore_ascii_case(trimmed(x), value)
}

/// The pieces of `h` between commas, as `<[u8]>::split` yields them.
pub open spec fn comma_pieces(h: Seq<u8>) -> Seq<Seq<u8>>
    decreases h.len(),
{
    if h.len() == 0 {
        seq![Seq::empty()]
    } else {
        let init = comma_pieces(h.drop_last());
        if h.last() == 44 {
            init.push(Seq::empty())
        } else {
            init.update(init.len() - 1, init.last().push(h.last()))
        }
    }
}

/// Whether one of the header values `headers`, split at commas, has a
/// piece that is `value` once trimmed, ASCII case ignored.
pub open spec fn header_lists(headers: Seq<Seq<u8>>, value: Seq<u8>) -> bool {
    exists|i: int, k: int|
        0 <= i < headers.len() && 0 <= k < comma_pieces(headers[i]).len() && token_matches(
            #[trigger] comma_pieces(headers[i])[k],
            value,
        )
}

/// The header values as byte sequences.
pub open spec fn values_view(hs: Seq<&[u8]>) -> Seq<Seq<u8>> {
    hs.map_values(|h: &[u8]| h@)
}

/// Whether `piece`, trimmed, is `value` with ASCII case ignored.
fn piece_matches(piece: &[u8], value: &[u8]) -> (r: bool)
    ensures
        r == token_matches(piece@, value@),
{
    let t = trim(piece);
    range_eq_ignore_ascii_case(t, 0, t.len(), value)
}

/// Whether the header value `h`, split at commas, has a piece that is
/// `value` once trimmed, ASCII case ignored.
fn value_lists(h: &[u8], value: &[u8]) -> (r: bool)
    ensures
        r == exists|k: int|
            0 <= k < comma_pieces(h@).len() && token_matches(#[trigger] comma_pieces(h@)[k], value@),
{
    let n = h.len();
    let mut start: usize = 0;
    let mut i: usize = 0;
    let ghost mut done: Seq<Seq<u8>> = Seq::empty();
    assert(h@.take(0) =~= Seq::<u8>::empty());
    assert(comma_pieces(h@.take(0)) =~= done.push(h@.subrange(0, 0)));
    loop
        invariant
            n == h@.len(),
            start <= i <= n,
            comma_pieces(h@.take(i as int)) == done.push(h@.subrange(start as int, i as int)),
            forall|k: int| 0 <= k < done.len() ==> !token_matches(#[trigger] done[k], value@),
        decreases n - i,
    {
        if i == n || h[i] == 44 {
            let piece = vstd::slice::slice_subrange(h, start, i);
            if piece_matches(piece, value) {
                proof {
                    let k = done.len() as int;
                    if i == n {
                        assert(h@.take(i as int) =~= h@);
                    } else {
                        lemma_comma_pieces_prefix(h@, i as int);
                    }
                    assert(comma_pieces(h@)[k] == piece@);
                }
                return true;
            }
            if i == n {
                proof {
                    assert(h@.take(i as int) =~= h@);
                    assert forall|k: int| 0 <= k < comma_pieces(h@).len() implies !token_matches(
                        #[trigger] comma_pieces(h@)[k],
                        value@,
                    ) by {
                        if k < done.len() {
                            assert(comma_pieces(h@)[k] == done[k]);
                        }
                    }
                }
                return false;
            }
            proof {
                assert(h@.take(i + 1).drop_last() =~= h@.take(i as int));
                assert(h@.subrange(i + 1, i + 1) =~= Seq::<u8>::empty());
                done = done.push(h@.subrange(start as int, i as int));
            }
            start = i + 1;
            i = i + 1;
        } else {
            proof {
                assert(h@.take(i + 1).drop_last() =~= h@.take(i as int));
                assert(h@.subrange(start as int, i + 1) =~= h@.subrange(start as int, i as int).push(
                    h@[i as int],
                ));
            }
            i = i + 1;
        }
    }
}

/// The pieces of a prefix stay pieces of the whole: the pieces of `h`
/// start with those of `h[..i]` except the last, which is completed.
proof fn lemma_comma_pieces_prefix(h: Seq<u8>, i: int)
    requires
        0 <= i < h.len(),
        h[i] == 44,
    ensures
        comma_pieces(h).len() > comma_pieces(h.take(i)).len(),
        forall|k: int| 0 <= k < comma_pieces(h.take(i)).len() ==> #[trigger] comma_pieces(h)[k]
            == comma_pieces(h.take(i))[k],
    decreases h.len(),
{
    lemma_comma_pieces_nonempty(h.take(i));
    if i == h.len() - 1 {
        assert(h.drop_last() =~= h.take(i));
    } else {
        lemma_comma_pieces_prefix(h.drop_last(), i);
        assert(h.drop_last().take(i) =~= h.take(i));
        lemma_comma_pieces_nonempty(h.drop_last());
    }
}

proof fn lemma_comma_pieces_nonempty(h: Seq<u8>)
    ensures
        comma_pieces(h).len() >= 1,
    decreases h.len(),
{
    if h.len() > 0 {
        lemma_comma_pieces_nonempty(h.drop_last());
    }
}

/// Whether one of the values `headers` of a header, split at commas, has a
/// piece that is `value` once trimmed, ASCII case ignored.
pub fn header_contains_value(headers: &[&[u8]], value: &[u8]) -> (r: bool)
    ensures
        r == header_lists(values_view(headers@), value@),
{
    let ghost hv = values_view(headers@);
    let mut i: usize = 0;
    while i < headers.len()
        invariant
            i <= headers@.len(),
            hv == values_view(headers@),
            forall|j: int, k: int|
                0 <= j < i && 0 <= k < comma_pieces(hv[j]).len() ==> !token_matches(
                    #[trigger] comma_pieces(hv[j])[k],
                    value@,
                ),
        decreases headers@.len() - i,
    {
        let h = headers[i];
        assert(hv[i as int] == h@);
        if value_lists(h, value) {
            return true;
        }
        i = i + 1;
    }
    false
}

/// The token a request's Connection header must list.
pub const UPGRADE_TOKEN: &'static str = "Upgrade";

/// The token a request's Upgrade header must list.
pub const WEBSOCKET_TOKEN: &'static str = "websocket";

/// Whether a request asks for a WebSocket: its Connection header values
/// list `Upgrade` and its Upgrade header values list `websocket` (ASCII
/// case ignored).
pub fn is_upgrade_request(connection: &[&[u8]], upgrade: &[&[u8]]) -> (r: bool)
    ensures
        r == (header_lists(values_view(connection@), ascii_bytes(UPGRADE_TOKEN)) && header_lists(
            values_view(upgrade@),
            ascii_bytes(WEBSOCKET_TOKEN),
        )),
{
    proof {
        reveal_strlit("Upgrade");
        reveal_strlit("websocket");
    }
    let up = ascii_of(UPGRADE_TOKEN);
    let ws = ascii_of(WEBSOCKET_TOKEN);
    header_contains_value(connection, up.as_slice()) && header_contains_value(
        upgrade,
        ws.as_slice(),
    )
}

/// The accept value for an upgrade request with `Sec-WebSocket-Key`
/// value `key` and `Sec-WebSocket-Version` value `version` (their first
/// values, if present): a missing key is refused
/// (`MissingSecWebSocketKey`), a version other than `13` too
/// (`InvalidSecWebsocketVersion`). Origin, protocols and extensions are
/// not looked at.
pub fn upgrade_accept(key: Option<&[u8]>, version: Option<&[u8]>) -> (r: Result<String, WebSocketError>)
    ensures
        match key {
            None => r == Err::<String, WebSocketError>(WebSocketError::MissingSecWebSocketKey),
            Some(k) => if !(version matches Some(v) && v@ == seq![49u8, 51u8]) {
                r == Err::<String, WebSocketError>(WebSocketError::InvalidSecWebsocketVersion)
            } else {
                r matches Ok(a) && a@ == accept_key(k@)
            },
        },
{
    let k = match key {
        None => {
            return Err(WebSocketError::MissingSecWebSocketKey);
        },
        Some(k) => k,
    };
    let version_ok = match version {
        Some(v) => v.len() == 2 && v[0] == 49 && v[1] == 51,
        None => false,
    };
    if !version_ok {
        proof {
            if let Some(v) = version {
                if v@ == seq![49u8, 51u8] {
                    assert(v@[0] == 49 && v@[1] == 51);
                }
            }
        }
        return Err(WebSocketError::InvalidSecWebsocketVersion);
    }
    proof {
        let v = version.unwrap();
        assert(v@ =~= seq![49u8, 51u8]);
    }
    Ok(sec_websocket_protocol(k))
}

} // verus!
