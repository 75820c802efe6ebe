//! Non-async, callback-driven server-side WebSocket framing engine.
//!
//! The caller owns the socket I/O and the buffer; the engine owns the
//! protocol: it parses frames, unmasks payloads in place, answers Ping with
//! Pong and Close with Close itself, and hands data frames to a handler that
//! decides whether to echo them.
use vstd::prelude::*;

use crate::error::WebSocketError;
use crate::frame::{
    frame_head, lemma_frame_head_len, lemma_parse_head_prefix_stable, lemma_parse_header_progress,
    length_bytes, parse_header, put_length, spec_is_control, spec_parse_head, spec_parse_header,
    Header, HeaderParse,
    OpCode,
};
use crate::mask::{masked, unmask};

verus! {

/// What the user's frame handler wants the engine to send back.
pub enum ServerResponse {
    /// Send the same payload back as a same-opcode, final response.
    Echo,
    /// Don't send anything for this frame.
    Discard,
}

/// Where a scan of a buffer of frames ends.
pub enum ScanEnd {
    /// The bytes from this offset on do not yet hold a complete frame.
    Stop(int),
    /// A Close frame ends at this offset; nothing after it is looked at.
    Closed(int),
    /// A frame is malformed or not supported by the engine.
    Fail(WebSocketError),
}

/// The server response header for a payload of `len` bytes: final,
/// unmasked, with the given opcode.
pub open spec fn server_head(op: OpCode, len: usize) -> Seq<u8> {
    frame_head(true, op, None, len)
}

/// How the engine walks the frames of `buf` from offset `pos`: each
/// complete frame is consumed; Ping and Pong frames and final Text and
/// Binary frames continue the walk; a Close frame ends it; a non-final data
/// frame and a Continuation frame fail (the engine does not reassemble
/// fragments); a header error fails; an incomplete header or payload stops.
#[verifier::opaque]
pub open spec fn scan(buf: Seq<u8>, pos: int) -> ScanEnd
    decreases buf.len() - pos,
{
    if pos < 0 || pos > buf.len() {
        ScanEnd::Stop(pos)
    } else {
        match spec_parse_header(buf.subrange(pos, buf.len() as int)) {
            Err(e) => ScanEnd::Fail(e),
            Ok(HeaderParse::Incomplete { .. }) => ScanEnd::Stop(pos),
            Ok(HeaderParse::Complete(h)) => {
                if h.payload_len > buf.len() - pos - h.header_len {
                    ScanEnd::Stop(pos)
                } else {
                    proof {
                        lemma_parse_header_progress(buf.subrange(pos, buf.len() as int));
                    }
                    let next = pos + h.header_len + h.payload_len;
                    match h.opcode {
                        OpCode::Close => ScanEnd::Closed(next),
                        OpCode::Ping => scan(buf, next),
                        OpCode::Pong => scan(buf, next),
                        OpCode::Text | OpCode::Binary => if !h.fin {
                            ScanEnd::Fail(WebSocketError::InvalidFragment)
                        } else {
                            scan(buf, next)
                        },
                        OpCode::Continuation => ScanEnd::Fail(
                            WebSocketError::InvalidContinuationFrame,
                        ),
                    }
                }
            },
        }
    }
}

/// One step of [`scan`]: what it makes of the bytes from `pos` on, by the
/// parse of the header found there.
proof fn lemma_scan_step(buf: Seq<u8>, pos: int)
    requires
        0 <= pos <= buf.len(),
    ensures
        match spec_parse_header(buf.subrange(pos, buf.len() as int)) {
            Err(e) => scan(buf, pos) == ScanEnd::Fail(e),
            Ok(HeaderParse::Incomplete { .. }) => scan(buf, pos) == ScanEnd::Stop(pos),
            Ok(HeaderParse::Complete(h)) => {
                let next = pos + h.header_len + h.payload_len;
                if h.payload_len > buf.len() - pos - h.header_len {
                    scan(buf, pos) == ScanEnd::Stop(pos)
                } else {
                    match h.opcode {
                        OpCode::Close => scan(buf, pos) == ScanEnd::Closed(next),
                        OpCode::Ping => scan(buf, pos) == scan(buf, next),
                        OpCode::Pong => scan(buf, pos) == scan(buf, next),
                        OpCode::Text | OpCode::Binary => if !h.fin {
                            scan(buf, pos) == ScanEnd::Fail(WebSocketError::InvalidFragment)
                        } else {
                            scan(buf, pos) == scan(buf, next)
                        },
                        OpCode::Continuation => scan(buf, pos) == ScanEnd::Fail(
                            WebSocketError::InvalidContinuationFrame,
                        ),
                    }
                }
            },
        },
{
    reveal_with_fuel(scan, 1);
}

/// A frame laid out as [`crate::frame::Frame::write`] writes it (header,
/// then payload) at the start of a buffer is consumed whole by the engine:
/// a final Text, Binary, Ping (of at most 125 bytes) or Pong frame lets the
/// walk go on right after it, and a Close frame ends it there.
pub proof fn lemma_scan_consumes_frame(
    op: OpCode,
    mask: Option<[u8; 4]>,
    payload: Seq<u8>,
    rest: Seq<u8>,
)
    requires
        payload.len() <= usize::MAX,
        op != OpCode::Continuation,
        op == OpCode::Ping ==> payload.len() <= 125,
    ensures
        ({
            let head = frame_head(true, op, mask, payload.len() as usize);
            let buf = head + payload + rest;
            let next = (head.len() + payload.len()) as int;
            if op == OpCode::Close {
                scan(buf, 0) == ScanEnd::Closed(next)
            } else {
                scan(buf, 0) == scan(buf, next)
            }
        }),
{
    let head = frame_head(true, op, mask, payload.len() as usize);
    let buf = head + payload + rest;
    crate::frame::lemma_head_parse_roundtrip(true, op, mask, payload.len() as usize, payload + rest);
    assert(buf =~= head + (payload + rest));
    assert(buf.subrange(0, buf.len() as int) =~= buf);
    lemma_scan_step(buf, 0);
}

/// A buffer that holds nothing but a whole final data frame is consumed
/// whole, leaving nothing to hold.
pub proof fn lemma_scan_single_frame(op: OpCode, mask: Option<[u8; 4]>, payload: Seq<u8>)
    requires
        payload.len() <= usize::MAX,
        op == OpCode::Text || op == OpCode::Binary,
    ensures
        ({
            let buf = frame_head(true, op, mask, payload.len() as usize) + payload;
            scan(buf, 0) == ScanEnd::Stop(buf.len() as int)
        }),
{
    let head = frame_head(true, op, mask, payload.len() as usize);
    let buf = head + payload;
    lemma_scan_consumes_frame(op, mask, payload, Seq::empty());
    assert(head + payload + Seq::<u8>::empty() =~= buf);
    lemma_scan_step(buf, buf.len() as int);
    assert(buf.subrange(buf.len() as int, buf.len() as int) =~= Seq::<u8>::empty());
}

/// Whether `b` starts with a whole frame: a header and all of its payload.
pub open spec fn holds_whole_frame(b: Seq<u8>) -> bool {
    spec_parse_header(b) matches Ok(HeaderParse::Complete(h)) && h.header_len + h.payload_len
        <= b.len()
}

/// Where the walk of the frames stops, what is left does not start with a
/// whole frame: the engine only ever holds bytes of a frame still to come.
pub proof fn lemma_scan_stops_short_of_a_frame(buf: Seq<u8>, pos: int)
    requires
        0 <= pos <= buf.len(),
    ensures
        scan(buf, pos) matches ScanEnd::Stop(p) ==> 0 <= p <= buf.len() && !holds_whole_frame(
            buf.subrange(p, buf.len() as int),
        ),
    decreases buf.len() - pos,
{
    lemma_scan_step(buf, pos);
    lemma_parse_header_progress(buf.subrange(pos, buf.len() as int));
    if let Ok(HeaderParse::Complete(h)) = spec_parse_header(buf.subrange(pos, buf.len() as int)) {
        if h.payload_len <= buf.len() - pos - h.header_len {
            let next = pos + h.header_len + h.payload_len;
            lemma_scan_stops_short_of_a_frame(buf, next);
        }
    }
}

/// The wire bytes of a final frame `(opcode, masking key, payload)`:
/// header, then payload.
pub open spec fn wire_frame(f: (OpCode, Option<[u8; 4]>, Seq<u8>)) -> Seq<u8> {
    frame_head(true, f.0, f.1, f.2.len() as usize) + f.2
}

/// The wire bytes of `frames`, one after the other.
pub open spec fn wire_frames(frames: Seq<(OpCode, Option<[u8; 4]>, Seq<u8>)>) -> Seq<u8>
    decreases frames.len(),
{
    if frames.len() == 0 {
        Seq::empty()
    } else {
        wire_frame(frames[0]) + wire_frames(frames.drop_first())
    }
}

/// Whether final frame `f` is one the engine walks past: Text, Binary,
/// Pong, or a Ping of at most 125 bytes.
pub open spec fn walked_past(f: (OpCode, Option<[u8; 4]>, Seq<u8>)) -> bool {
    &&& f.2.len() <= usize::MAX
    &&& (f.0 == OpCode::Text || f.0 == OpCode::Binary || f.0 == OpCode::Pong || (f.0
        == OpCode::Ping && f.2.len() <= 125))
}

/// The wire bytes of a frame `(opcode, masking key, payload)` whose FIN
/// bit is `fin`: header, then payload.
pub open spec fn wire_frame_fin(fin: bool, f: (OpCode, Option<[u8; 4]>, Seq<u8>)) -> Seq<u8> {
    frame_head(fin, f.0, f.1, f.2.len() as usize) + f.2
}

/// Whether frame `f` with FIN bit `fin` is one RFC 6455 allows to be
/// written: control frames are final, and a Ping carries at most 125 bytes.
pub open spec fn writable(fin: bool, f: (OpCode, Option<[u8; 4]>, Seq<u8>)) -> bool {
    &&& f.2.len() <= usize::MAX
    &&& spec_is_control(f.0) ==> fin
    &&& f.0 == OpCode::Ping ==> f.2.len() <= 125
}

/// The walk over a frame the engine walks past, found at offset
/// `pre.len()`, goes on right after it.
proof fn lemma_scan_past_frame(pre: Seq<u8>, f: (OpCode, Option<[u8; 4]>, Seq<u8>), rest: Seq<u8>)
    requires
        walked_past(f),
    ensures
        ({
            let buf = pre + wire_frame(f) + rest;
            scan(buf, pre.len() as int) == scan(buf, (pre.len() + wire_frame(f).len()) as int)
        }),
{
    let head = frame_head(true, f.0, f.1, f.2.len() as usize);
    let buf = pre + wire_frame(f) + rest;
    let pos = pre.len() as int;
    crate::frame::lemma_head_parse_roundtrip(true, f.0, f.1, f.2.len() as usize, f.2 + rest);
    assert(buf.subrange(pos, buf.len() as int) =~= head + (f.2 + rest));
    lemma_scan_step(buf, pos);
}

/// The first `k` bytes of a frame, fewer than it has, are not a whole
/// frame: [`parse_header`] asks for more.
proof fn lemma_partial_frame_incomplete(fin: bool, f: (OpCode, Option<[u8; 4]>, Seq<u8>), k: int)
    requires
        writable(fin, f),
        0 <= k < wire_frame_fin(fin, f).len(),
    ensures
        spec_parse_header(wire_frame_fin(fin, f).subrange(0, k)) matches Ok(
            HeaderParse::Incomplete { .. },
        ),
{
    let w = wire_frame_fin(fin, f);
    let t = w.subrange(0, k);
    lemma_frame_head_len(fin, f.0, f.1, f.2.len() as usize);
    crate::frame::lemma_head_parse_roundtrip(fin, f.0, f.1, f.2.len() as usize, f.2);
    if !(spec_parse_head(t) is Ok && spec_parse_head(t).unwrap() is Incomplete) {
        lemma_parse_head_prefix_stable(t, w.subrange(k, w.len() as int));
        assert(t + w.subrange(k, w.len() as int) =~= w);
    }
}

/// [`lemma_scan_holds_partial_frame`] from offset `pre.len()`.
proof fn lemma_scan_run_from(
    pre: Seq<u8>,
    frames: Seq<(OpCode, Option<[u8; 4]>, Seq<u8>)>,
    last_fin: bool,
    last: (OpCode, Option<[u8; 4]>, Seq<u8>),
    k: int,
)
    requires
        forall|i: int| 0 <= i < frames.len() ==> #[trigger] walked_past(frames[i]),
        writable(last_fin, last),
        0 <= k < wire_frame_fin(last_fin, last).len(),
    ensures
        scan(pre + wire_frames(frames) + wire_frame_fin(last_fin, last).subrange(0, k), pre.len() as int)
            == ScanEnd::Stop((pre.len() + wire_frames(frames).len()) as int),
    decreases frames.len(),
{
    let t = wire_frame_fin(last_fin, last).subrange(0, k);
    let buf = pre + wire_frames(frames) + t;
    if frames.len() == 0 {
        assert(wire_frames(frames) =~= Seq::<u8>::empty());
        lemma_partial_frame_incomplete(last_fin, last, k);
        assert(buf.subrange(pre.len() as int, buf.len() as int) =~= t);
        lemma_scan_step(buf, pre.len() as int);
    } else {
        let f = frames[0];
        let more = frames.drop_first();
        assert(walked_past(frames[0]));
        assert(buf =~= pre + wire_frame(f) + (wire_frames(more) + t));
        lemma_scan_past_frame(pre, f, wire_frames(more) + t);
        let pre2 = pre + wire_frame(f);
        assert(pre2 + wire_frames(more) + t =~= buf);
        assert forall|i: int| 0 <= i < more.len() implies #[trigger] walked_past(more[i]) by {
            assert(more[i] == frames[i + 1]);
        }
        lemma_scan_run_from(pre2, more, last_fin, last, k);
    }
}

/// After a run of whole frames the engine walks past, followed by the first
/// `k` bytes of one more frame (fewer than it has; final or not, of any
/// opcode RFC 6455 allows to be written), the walk stops where that last
/// frame starts: the engine holds exactly its bytes received so far.
pub proof fn lemma_scan_holds_partial_frame(
    frames: Seq<(OpCode, Option<[u8; 4]>, Seq<u8>)>,
    last_fin: bool,
    last: (OpCode, Option<[u8; 4]>, Seq<u8>),
    k: int,
)
    requires
        forall|i: int| 0 <= i < frames.len() ==> #[trigger] walked_past(frames[i]),
        writable(last_fin, last),
        0 <= k < wire_frame_fin(last_fin, last).len(),
    ensures
        ({
            let buf = wire_frames(frames) + wire_frame_fin(last_fin, last).subrange(0, k);
            &&& scan(buf, 0) == ScanEnd::Stop(wire_frames(frames).len() as int)
            &&& buf.subrange(wire_frames(frames).len() as int, buf.len() as int) == wire_frame_fin(
                last_fin,
                last,
            ).subrange(0, k)
        }),
{
    let t = wire_frame_fin(last_fin, last).subrange(0, k);
    let buf = wire_frames(frames) + t;
    lemma_scan_run_from(Seq::empty(), frames, last_fin, last, k);
    assert(Seq::<u8>::empty() + wire_frames(frames) + t =~= buf);
    assert(buf.subrange(wire_frames(frames).len() as int, buf.len() as int) =~= t);
}

/// A Close frame that ends the walk ends inside the buffer.
proof fn lemma_scan_closed_bound(buf: Seq<u8>, pos: int)
    requires
        0 <= pos <= buf.len(),
    ensures
        scan(buf, pos) matches ScanEnd::Closed(n) ==> pos < n <= buf.len(),
    decreases buf.len() - pos,
{
    lemma_scan_step(buf, pos);
    lemma_parse_header_progress(buf.subrange(pos, buf.len() as int));
    if let Ok(HeaderParse::Complete(h)) = spec_parse_header(buf.subrange(pos, buf.len() as int)) {
        if h.payload_len <= buf.len() - pos - h.header_len {
            let next = pos + h.header_len + h.payload_len;
            lemma_scan_closed_bound(buf, next);
        }
    }
}

/// Server-side WebSocket framing engine. Stateless except for a (usually
/// empty) buffer of bytes that did not yet form a complete frame, and a flag
/// set once a Close frame has been processed.
pub struct ServerEngine {
    partial: Vec<u8>,
    closed: bool,
}

impl ServerEngine {
    /// Bytes held over from an earlier `process` call.
    pub closed spec fn held(&self) -> Seq<u8> {
        self.partial@
    }

    /// Whether a Close frame has been processed.
    pub closed spec fn spec_closed(&self) -> bool {
        self.closed
    }

    /// A fresh engine: nothing held, not closed.
    pub fn new() -> (r: Self)
        ensures
            r.held() == Seq::<u8>::empty(),
            !r.spec_closed(),
    {
        ServerEngine { partial: Vec::new(), closed: false }
    }

    /// Whether the peer's Close frame has been seen.
    pub fn is_closed(&self) -> (r: bool)
        ensures
            r == self.spec_closed(),
    {
        self.closed
    }

    /// How many bytes of partial-frame state the engine is carrying.
    pub fn partial_len(&self) -> (r: usize)
        ensures
            r == self.held().len(),
    {
        self.partial.len()
    }
}

/// The payload of the frame with header `h` that starts at `pos` in `buf`,
/// unmasked.
pub open spec fn frame_payload(buf: Seq<u8>, pos: int, h: Header) -> Seq<u8> {
    let raw = buf.subrange(pos + h.header_len, pos + h.header_len + h.payload_len);
    match h.mask {
        Some(k) => masked(raw, k),
        None => raw,
    }
}

/// What a handler hands back for one data frame: its answer, the payload
/// to echo, and bytes to send before the echo.
pub type Reply = (ServerResponse, Vec<u8>, Vec<u8>);

/// The bytes of each write call in `v`.
pub open spec fn writes_of(v: Seq<Vec<u8>>) -> Seq<Seq<u8>> {
    v.map_values(|c: Vec<u8>| c@)
}

/// The write calls that answer a frame (masked when `masked`) with a final
/// frame of opcode `op` carrying `p`: one call with header and payload when
/// the frame was masked and `p` is shorter than 64 KiB (the header then
/// fits in the room of the frame's own header and key), else two: the
/// header, then the payload.
pub open spec fn echo_writes(masked: bool, op: OpCode, p: Seq<u8>) -> Seq<Seq<u8>> {
    if masked && p.len() < 65536 {
        seq![server_head(op, p.len() as usize) + p]
    } else {
        seq![server_head(op, p.len() as usize), p]
    }
}

/// The write calls for a data frame (masked when `masked`) with opcode `op`
/// after the handler replied `reply`: its bytes to send, in one call when
/// there are any, then, for `Echo`, a final frame with the same opcode
/// carrying the payload it handed back.
pub open spec fn reply_writes(masked: bool, op: OpCode, reply: Reply) -> Seq<Seq<u8>> {
    (if reply.2@.len() == 0 {
        Seq::empty()
    } else {
        seq![reply.2@]
    }) + match reply.0 {
        ServerResponse::Echo => echo_writes(masked, op, reply.1@),
        ServerResponse::Discard => Seq::empty(),
    }
}

/// The write calls the engine makes while it walks the frames of `buf` from `pos`
/// (as [`scan`] walks them), the handler replying `replies` to the data
/// frames in turn, and what it hands the handler: each Ping is answered by
/// a Pong with the same payload, a Close by a Close with the same payload
/// (and nothing after it is looked at), a Pong by nothing, and each final
/// Text or Binary frame is handed over (payload unmasked, opcode) and
/// answered as its reply says. Nothing is sent for a frame that ends the
/// walk otherwise.
pub open spec fn served(buf: Seq<u8>, pos: int, replies: Seq<Reply>) -> (
    Seq<Seq<u8>>,
    Seq<(Seq<u8>, OpCode)>,
)
    decreases buf.len() - pos,
{
    if pos < 0 || pos > buf.len() {
        (Seq::empty(), Seq::empty())
    } else {
        match spec_parse_header(buf.subrange(pos, buf.len() as int)) {
            Ok(HeaderParse::Complete(h)) => {
                if h.payload_len > buf.len() - pos - h.header_len {
                    (Seq::empty(), Seq::empty())
                } else {
                    proof {
                        lemma_parse_header_progress(buf.subrange(pos, buf.len() as int));
                    }
                    let next = pos + h.header_len + h.payload_len;
                    let p = frame_payload(buf, pos, h);
                    match h.opcode {
                        OpCode::Close => (echo_writes(h.mask is Some, OpCode::Close, p), Seq::empty()),
                        OpCode::Ping => {
                            let (o, handed) = served(buf, next, replies);
                            (echo_writes(h.mask is Some, OpCode::Pong, p) + o, handed)
                        },
                        OpCode::Pong => served(buf, next, replies),
                        OpCode::Text | OpCode::Binary => if !h.fin {
                            (Seq::empty(), Seq::empty())
                        } else {
                            let (o, handed) = served(buf, next, replies.drop_first());
                            (
                                reply_writes(h.mask is Some, h.opcode, replies[0]) + o,
                                seq![(p, h.opcode)] + handed,
                            )
                        },
                        OpCode::Continuation => (Seq::empty(), Seq::empty()),
                    }
                }
            },
            _ => (Seq::empty(), Seq::empty()),
        }
    }
}

/// The replies of a list of handler calls.
pub open spec fn replies_of(calls: Seq<(Vec<u8>, OpCode, Reply)>) -> Seq<Reply> {
    calls.map_values(|c: (Vec<u8>, OpCode, Reply)| c.2)
}

/// The payloads and opcodes handed over in `calls`.
pub open spec fn handed_of(calls: Seq<(Vec<u8>, OpCode, Reply)>) -> Seq<(Seq<u8>, OpCode)> {
    calls.map_values(|c: (Vec<u8>, OpCode, Reply)| (c.0@, c.1))
}

/// `calls` are the handler's calls while the engine walks `buf` and `sent`
/// what it sends: one call per data frame handed over, with that frame's
/// payload and opcode, each reply one the handler may give for it.
pub open spec fn served_with<H: FnMut(Vec<u8>, OpCode) -> Reply>(
    handler: H,
    buf: Seq<u8>,
    calls: Seq<(Vec<u8>, OpCode, Reply)>,
    sent: Seq<Seq<u8>>,
) -> bool {
    let (o, handed) = served(buf, 0, replies_of(calls));
    &&& calls.len() == handed.len()
    &&& forall|i: int|
        #![trigger calls[i]]
        0 <= i < calls.len() ==> calls[i].0@ == handed[i].0 && calls[i].1 == handed[i].1
            && call_ensures(handler, (calls[i].0, calls[i].1), calls[i].2)
    &&& sent == o
}

/// One step of [`served`] at a frame that [`next_frame`] found.
proof fn lemma_served_step(buf: Seq<u8>, pos: int, replies: Seq<Reply>)
    requires
        0 <= pos <= buf.len(),
        spec_parse_header(buf.subrange(pos, buf.len() as int)) matches Ok(HeaderParse::Complete(h))
            && h.payload_len <= buf.len() - pos - h.header_len,
    ensures
        ({
            let h = spec_parse_header(buf.subrange(pos, buf.len() as int))->Ok_0->Complete_0;
            let next = pos + h.header_len + h.payload_len;
            let p = frame_payload(buf, pos, h);
            served(buf, pos, replies) == match h.opcode {
                OpCode::Close => (echo_writes(h.mask is Some, OpCode::Close, p), Seq::empty()),
                OpCode::Ping => (
                    echo_writes(h.mask is Some, OpCode::Pong, p) + served(buf, next, replies).0,
                    served(buf, next, replies).1,
                ),
                OpCode::Pong => served(buf, next, replies),
                OpCode::Text | OpCode::Binary => if !h.fin {
                    (Seq::<Seq<u8>>::empty(), Seq::<(Seq<u8>, OpCode)>::empty())
                } else {
                    (
                        reply_writes(h.mask is Some, h.opcode, replies[0]) + served(
                            buf,
                            next,
                            replies.drop_first(),
                        ).0,
                        seq![(p, h.opcode)] + served(buf, next, replies.drop_first()).1,
                    )
                },
                OpCode::Continuation => (Seq::<Seq<u8>>::empty(), Seq::<(Seq<u8>, OpCode)>::empty()),
            }
        }),
{
}

/// After the walk has reached `pos`, with the handler called as `calls`
/// and `sent` sent: whatever the later replies `f`, the whole walk sends
/// `sent` and then what the walk from `pos` sends, and hands over what
/// `calls` took and then what the walk from `pos` hands over.
pub open spec fn walked(
    buf: Seq<u8>,
    pos: int,
    calls: Seq<(Vec<u8>, OpCode, Reply)>,
    sent: Seq<Seq<u8>>,
) -> bool {
    forall|f: Seq<Reply>|
        #![trigger served(buf, pos, f)]
        served(buf, 0, replies_of(calls) + f) == (sent + served(buf, pos, f).0, handed_of(calls)
            + served(buf, pos, f).1)
}

/// The header that the walk finds at `pos`, when it finds a whole frame.
pub open spec fn frame_at(buf: Seq<u8>, pos: int) -> Header {
    spec_parse_header(buf.subrange(pos, buf.len() as int))->Ok_0->Complete_0
}

/// Whether a whole frame starts at `pos`.
pub open spec fn whole_frame_at(buf: Seq<u8>, pos: int) -> bool {
    &&& 0 <= pos <= buf.len()
    &&& spec_parse_header(buf.subrange(pos, buf.len() as int)) matches Ok(HeaderParse::Complete(h))
    &&& h.payload_len <= buf.len() - pos - h.header_len
}

proof fn lemma_walked_start(buf: Seq<u8>)
    ensures
        walked(buf, 0, Seq::empty(), Seq::<Seq<u8>>::empty()),
{
    let e = Seq::<(Vec<u8>, OpCode, Reply)>::empty();
    assert forall|f: Seq<Reply>| #![trigger served(buf, 0, f)]
        served(buf, 0, replies_of(e) + f) == (Seq::<Seq<u8>>::empty() + served(buf, 0, f).0,
        handed_of(e) + served(buf, 0, f).1) by {
        assert(replies_of(e) + f =~= f);
        assert(Seq::<Seq<u8>>::empty() + served(buf, 0, f).0 =~= served(buf, 0, f).0);
        assert(handed_of(e) + served(buf, 0, f).1 =~= served(buf, 0, f).1);
    }
}

/// A Ping or a Pong walked over.
proof fn lemma_walked_control(
    buf: Seq<u8>,
    pos: int,
    calls: Seq<(Vec<u8>, OpCode, Reply)>,
    sent: Seq<Seq<u8>>,
)
    requires
        walked(buf, pos, calls, sent),
        whole_frame_at(buf, pos),
        frame_at(buf, pos).opcode == OpCode::Ping || frame_at(buf, pos).opcode == OpCode::Pong,
    ensures
        ({
            let h = frame_at(buf, pos);
            let next = pos + h.header_len + h.payload_len;
            walked(buf, next, calls, if h.opcode == OpCode::Ping {
                sent + echo_writes(h.mask is Some, OpCode::Pong, frame_payload(buf, pos, h))
            } else {
                sent
            })
        }),
{
    let h = frame_at(buf, pos);
    let next = pos + h.header_len + h.payload_len;
    let pong = echo_writes(h.mask is Some, OpCode::Pong, frame_payload(buf, pos, h));
    let sent2 = if h.opcode == OpCode::Ping { sent + pong } else { sent };
    assert forall|f: Seq<Reply>| #![trigger served(buf, next, f)]
        served(buf, 0, replies_of(calls) + f) == (sent2 + served(buf, next, f).0,
        handed_of(calls) + served(buf, next, f).1) by {
        lemma_served_step(buf, pos, f);
        assert(served(buf, 0, replies_of(calls) + f) == (sent + served(buf, pos, f).0, handed_of(calls) + served(buf, pos, f).1));
        if h.opcode == OpCode::Ping {
            assert(sent + (pong + served(buf, next, f).0) =~= (sent + pong) + served(buf, next, f).0);
        }
    }
}

/// A final data frame walked over, handed to the handler as `c`.
proof fn lemma_walked_data(
    buf: Seq<u8>,
    pos: int,
    calls: Seq<(Vec<u8>, OpCode, Reply)>,
    sent: Seq<Seq<u8>>,
    c: (Vec<u8>, OpCode, Reply),
)
    requires
        walked(buf, pos, calls, sent),
        whole_frame_at(buf, pos),
        frame_at(buf, pos).opcode == OpCode::Text || frame_at(buf, pos).opcode == OpCode::Binary,
        frame_at(buf, pos).fin,
        c.0@ == frame_payload(buf, pos, frame_at(buf, pos)),
        c.1 == frame_at(buf, pos).opcode,
    ensures
        ({
            let h = frame_at(buf, pos);
            let next = pos + h.header_len + h.payload_len;
            walked(buf, next, calls.push(c), sent + reply_writes(frame_at(buf, pos).mask is Some, c.1, c.2))
        }),
{
    let h = frame_at(buf, pos);
    let next = pos + h.header_len + h.payload_len;
    let calls2 = calls.push(c);
    assert(handed_of(calls2) =~= handed_of(calls) + seq![(c.0@, c.1)]);
    assert forall|f: Seq<Reply>| #![trigger served(buf, next, f)]
        served(buf, 0, replies_of(calls2) + f) == ((sent + reply_writes(frame_at(buf, pos).mask is Some, c.1, c.2)) + served(buf, next, f).0,
        handed_of(calls2) + served(buf, next, f).1) by {
        let g = seq![c.2] + f;
        assert(replies_of(calls2) + f =~= replies_of(calls) + g);
        lemma_served_step(buf, pos, g);
        assert(g.drop_first() =~= f);
        assert(g[0] == c.2);
        assert(served(buf, 0, replies_of(calls) + g) == (sent + served(buf, pos, g).0, handed_of(calls) + served(buf, pos, g).1));
        assert(sent + (reply_writes(frame_at(buf, pos).mask is Some, c.1, c.2) + served(buf, next, f).0) =~= (sent + reply_writes(frame_at(buf, pos).mask is Some, c.1, c.2)) + served(buf, next, f).0);
        assert(handed_of(calls) + (seq![(c.0@, c.1)] + served(buf, next, f).1) =~= handed_of(calls2) + served(buf, next, f).1);
    }
}

/// Where the walk ends (nothing more sent from `pos` but `tail`), the calls
/// and what was sent are those of the whole walk.
proof fn lemma_walked_end<H: FnMut(Vec<u8>, OpCode) -> Reply>(
    handler: H,
    buf: Seq<u8>,
    pos: int,
    calls: Seq<(Vec<u8>, OpCode, Reply)>,
    sent: Seq<Seq<u8>>,
    tail: Seq<Seq<u8>>,
)
    requires
        walked(buf, pos, calls, sent),
        served(buf, pos, Seq::empty()) == (tail, Seq::<(Seq<u8>, OpCode)>::empty()),
        forall|i: int|
            #![trigger calls[i]]
            0 <= i < calls.len() ==> call_ensures(handler, (calls[i].0, calls[i].1), calls[i].2),
    ensures
        served_with(handler, buf, calls, sent + tail),
{
    assert(replies_of(calls) + Seq::<Reply>::empty() =~= replies_of(calls));
    assert(handed_of(calls) + Seq::<(Seq<u8>, OpCode)>::empty() =~= handed_of(calls));
    assert(served(buf, 0, replies_of(calls) + Seq::<Reply>::empty()) == (sent + served(buf, pos, Seq::<Reply>::empty()).0, handed_of(calls) + served(buf, pos, Seq::<Reply>::empty()).1));
    let (o, handed) = served(buf, 0, replies_of(calls));
    assert(handed == handed_of(calls));
    assert forall|i: int| #![trigger calls[i]] 0 <= i < calls.len() implies calls[i].0@ == handed[i].0
        && calls[i].1 == handed[i].1 && call_ensures(handler, (calls[i].0, calls[i].1), calls[i].2) by {
        assert(handed_of(calls)[i] == (calls[i].0@, calls[i].1));
    }
}

/// How a walk over a buffer ended.
enum WalkEnd {
    Stop(usize),
    Closed(usize),
    Fail(WebSocketError),
}

/// Walks the frames of `w` as [`served`] describes, appending what is sent
/// to `out`; `w` is unmasked in place.
#[verifier::spinoff_prover]
#[verifier::rlimit(60)]
fn walk<H>(w: &mut Vec<u8>, out: &mut Vec<Vec<u8>>, mut handler: H) -> (r: (
    WalkEnd,
    Ghost<Seq<(Vec<u8>, OpCode, Reply)>>,
)) where H: FnMut(Vec<u8>, OpCode) -> Reply
    requires
        forall|p: Vec<u8>, o: OpCode| call_requires(handler, (p, o)),
    ensures
        final(out)@.len() >= old(out)@.len(),
        final(out)@.take(old(out)@.len() as int) == old(out)@,
        served_with(handler, old(w)@, r.1@, writes_of(final(out)@).skip(old(out)@.len() as int)),
        final(w)@.len() == old(w)@.len(),
        match scan(old(w)@, 0) {
            ScanEnd::Stop(p) => r.0 == WalkEnd::Stop(p as usize) && final(w)@.subrange(
                p,
                old(w)@.len() as int,
            ) == old(w)@.subrange(p, old(w)@.len() as int),
            ScanEnd::Closed(n) => r.0 == WalkEnd::Closed(n as usize),
            ScanEnd::Fail(e) => r.0 == WalkEnd::Fail(e),
        },
{
    let ghost buf = w@;
    let ghost out0 = out@;
    let ghost h0 = handler;
    let end = w.len();
    let mut consumed: usize = 0;
    let ghost mut calls: Seq<(Vec<u8>, OpCode, Reply)> = Seq::empty();
    assert(buf.subrange(0, end as int) =~= buf);
    assert(out@.take(out0.len() as int) =~= out0);
    assert(writes_of(out@).skip(out0.len() as int) =~= Seq::<Seq<u8>>::empty());
    proof {
        lemma_walked_start(buf);
    }
    let mut result: WalkEnd = WalkEnd::Stop(0);
    loop
        invariant_except_break
            handler == h0,
            out0 == old(out)@,
            buf == old(w)@,
            w@.len() == end,
            buf.len() == end,
            consumed <= end,
            scan(buf, consumed as int) == scan(buf, 0),
            w@.subrange(consumed as int, end as int) == buf.subrange(consumed as int, end as int),
            out@.len() >= out0.len(),
            out@.take(out0.len() as int) == out0,
            forall|p: Vec<u8>, o: OpCode| call_requires(handler, (p, o)),
            forall|i: int|
                #![trigger calls[i]]
                0 <= i < calls.len() ==> call_ensures(handler, (calls[i].0, calls[i].1), calls[i].2),
            walked(buf, consumed as int, calls, writes_of(out@).skip(out0.len() as int)),
        ensures
            out0 == old(out)@,
            buf == old(w)@,
            handler == h0,
            w@.len() == end,
            out@.len() >= out0.len(),
            out@.take(out0.len() as int) == out0,
            served_with(handler, buf, calls, writes_of(out@).skip(out0.len() as int)),
            match scan(buf, 0) {
                ScanEnd::Stop(p) => result == WalkEnd::Stop(p as usize) && w@.subrange(p, end as int)
                    == buf.subrange(p, end as int),
                ScanEnd::Closed(n) => result == WalkEnd::Closed(n as usize),
                ScanEnd::Fail(e) => result == WalkEnd::Fail(e),
            },
        decreases end - consumed,
    {
        let ghost cur = w@;
        let ghost sent = writes_of(out@).skip(out0.len() as int);
        let ghost out1 = out@;
        let step = next_frame(w.as_mut_slice(), consumed);
        proof {
            lemma_scan_step(buf, consumed as int);
            assert(cur.subrange(consumed as int, cur.len() as int) == buf.subrange(
                consumed as int,
                end as int,
            ));
        }
        let hdr = match step {
            Err(e) => {
                proof {
                    assert(served(buf, consumed as int, Seq::empty()) == (Seq::<Seq<u8>>::empty(), Seq::<(Seq<u8>, OpCode)>::empty()));
                    lemma_walked_end(handler, buf, consumed as int, calls, sent, Seq::empty());
                    assert(sent + Seq::<Seq<u8>>::empty() =~= sent);
                }
                result = WalkEnd::Fail(e);
                break;
            },
            Ok(None) => {
                proof {
                    assert(served(buf, consumed as int, Seq::empty()) == (Seq::<Seq<u8>>::empty(), Seq::<(Seq<u8>, OpCode)>::empty()));
                    lemma_walked_end(handler, buf, consumed as int, calls, sent, Seq::empty());
                    assert(sent + Seq::<Seq<u8>>::empty() =~= sent);
                }
                result = WalkEnd::Stop(consumed);
                break;
            },
            Ok(Some(h)) => h,
        };
        let payload_start = consumed + hdr.header_len;
        let payload_end = payload_start + hdr.payload_len;
        proof {
            assert(whole_frame_at(buf, consumed as int));
            assert(frame_at(buf, consumed as int) == hdr);
            lemma_served_step(buf, consumed as int, Seq::empty());
            assert(cur.subrange(payload_start as int, payload_end as int) =~= cur.subrange(
                consumed as int,
                end as int,
            ).subrange(hdr.header_len as int, hdr.header_len + hdr.payload_len));
            assert(buf.subrange(payload_start as int, payload_end as int) =~= buf.subrange(
                consumed as int,
                end as int,
            ).subrange(hdr.header_len as int, hdr.header_len + hdr.payload_len));
            assert(frame_payload(cur, consumed as int, hdr) == frame_payload(buf, consumed as int, hdr));
            assert(cur.subrange(payload_end as int, end as int) =~= cur.subrange(
                consumed as int,
                end as int,
            ).subrange(payload_end - consumed, end - consumed));
            assert(buf.subrange(payload_end as int, end as int) =~= buf.subrange(
                consumed as int,
                end as int,
            ).subrange(payload_end - consumed, end - consumed));
        }
        match hdr.opcode {
            OpCode::Close => {
                let body = vstd::slice::slice_subrange(w.as_slice(), payload_start, payload_end);
                push_echo(out, hdr.mask.is_some(), OpCode::Close, body);
                proof {
                    let close = echo_writes(
                        hdr.mask is Some,
                        OpCode::Close,
                        frame_payload(buf, consumed as int, hdr),
                    );
                    lemma_walked_end(handler, buf, consumed as int, calls, sent, close);
                    assert(writes_of(out@).skip(out0.len() as int) =~= sent + close);
                    assert(out@.take(out0.len() as int) =~= out0);
                }
                result = WalkEnd::Closed(payload_end);
                break;
            },
            OpCode::Ping => {
                let body = vstd::slice::slice_subrange(w.as_slice(), payload_start, payload_end);
                push_echo(out, hdr.mask.is_some(), OpCode::Pong, body);
                proof {
                    lemma_walked_control(buf, consumed as int, calls, sent);
                    assert(writes_of(out@).skip(out0.len() as int) =~= sent + echo_writes(
                        hdr.mask is Some,
                        OpCode::Pong,
                        frame_payload(buf, consumed as int, hdr),
                    ));
                    assert(out@.take(out0.len() as int) =~= out0);
                }
            },
            OpCode::Pong => {
                proof {
                    lemma_walked_control(buf, consumed as int, calls, sent);
                }
            },
            OpCode::Continuation => {
                proof {
                    lemma_walked_end(handler, buf, consumed as int, calls, sent, Seq::empty());
                    assert(sent + Seq::<Seq<u8>>::empty() =~= sent);
                }
                result = WalkEnd::Fail(WebSocketError::InvalidContinuationFrame);
                break;
            },
            OpCode::Text | OpCode::Binary => {
                if !hdr.fin {
                    proof {
                        lemma_walked_end(handler, buf, consumed as int, calls, sent, Seq::empty());
                        assert(sent + Seq::<Seq<u8>>::empty() =~= sent);
                    }
                    result = WalkEnd::Fail(WebSocketError::InvalidFragment);
                    break;
                }
                let payload = vstd::slice::slice_to_vec(
                    vstd::slice::slice_subrange(w.as_slice(), payload_start, payload_end),
                );
                let ghost arg = payload;
                let reply = handler(payload, hdr.opcode);
                let ghost c = (arg, hdr.opcode, reply);
                proof {
                    lemma_walked_data(buf, consumed as int, calls, sent, c);
                }
                let (answer, echo, sends) = reply;
                let ghost sends_v = sends@;
                if sends.len() > 0 {
                    push_write(out, sends);
                }
                let ghost out2 = out@;
                proof {
                    assert(writes_of(out2) =~= writes_of(out1) + (if sends_v.len() == 0 {
                        Seq::<Seq<u8>>::empty()
                    } else {
                        seq![sends_v]
                    }));
                }
                match answer {
                    ServerResponse::Echo => {
                        push_echo(out, hdr.mask.is_some(), hdr.opcode, echo.as_slice());
                    },
                    ServerResponse::Discard => {},
                }
                proof {
                    calls = calls.push(c);
                    assert(writes_of(out@) =~= writes_of(out1) + reply_writes(hdr.mask is Some, c.1, c.2));
                    assert(writes_of(out@).skip(out0.len() as int) =~= sent + reply_writes(
                        hdr.mask is Some,
                        c.1,
                        c.2,
                    ));
                    assert(out@.take(out0.len() as int) =~= out0);
                }
            },
        }
        consumed = payload_end;
    }
    (result, Ghost(calls))
}

impl ServerEngine {
    /// Drives the framing state machine over the held bytes followed by
    /// `input`. Each complete frame is unmasked; a final Text or Binary
    /// frame is handed to `handler` (payload and opcode), whose reply says
    /// what to send: its bytes to send, then, for `Echo`, a final frame
    /// with the same opcode and the payload it hands back; a Ping is
    /// answered with a Pong carrying the same payload; a Pong is skipped; a
    /// Close is echoed, marks the engine closed and ends the call. What is
    /// sent is appended to `out` as write calls, one element per call, frame
    /// after frame: an answering frame goes in one call (header and payload)
    /// when the frame it answers was masked and the payload is shorter than
    /// 64 KiB, else in two (header, then payload); a handler's bytes to send
    /// go in one call before its echo. Bytes that do not yet make up a
    /// whole frame are held for the next call.
    ///
    /// Returns how many bytes of `input` were consumed: all of them, unless
    /// a Close ends the call, then those up to the end of the Close frame. A
    /// closed engine consumes and sends nothing. While bytes are held, an
    /// input shorter than them is refused (`FrameTooLarge`: the caller is to
    /// read more first), leaving the engine as it was. A malformed header, a
    /// fragmented data frame (`InvalidFragment`) or a Continuation frame
    /// (`InvalidContinuationFrame`) gives an error, after what was sent for
    /// the frames before it.
    pub fn process<H>(&mut self, input: &[u8], out: &mut Vec<Vec<u8>>, mut handler: H) -> (r: Result<
        usize,
        WebSocketError,
    >) where H: FnMut(Vec<u8>, OpCode) -> Reply
        requires
            forall|p: Vec<u8>, o: OpCode| call_requires(handler, (p, o)),
        ensures
            old(self).spec_closed() ==> r == Ok::<usize, WebSocketError>(0) && *final(self)
                == *old(self) && final(out)@ == old(out)@,
            !old(self).spec_closed() && input@.len() < old(self).held().len() ==> r == Err::<
                usize,
                WebSocketError,
            >(WebSocketError::FrameTooLarge) && *final(self) == *old(self) && final(out)@
                == old(out)@,
            !old(self).spec_closed() && input@.len() >= old(self).held().len() ==> {
                let buf = old(self).held() + input@;
                &&& exists|calls: Seq<(Vec<u8>, OpCode, Reply)>|
                    served_with(handler, buf, calls, writes_of(final(out)@).skip(old(out)@.len() as int))
                &&& final(out)@.len() >= old(out)@.len()
                &&& final(out)@.take(old(out)@.len() as int) == old(out)@
                &&& match scan(buf, 0) {
                    ScanEnd::Stop(p) => {
                        &&& r == Ok::<usize, WebSocketError>(input@.len() as usize)
                        &&& !final(self).spec_closed()
                        &&& !holds_whole_frame(final(self).held())
                        &&& final(self).held() == buf.subrange(p, buf.len() as int)
                    },
                    ScanEnd::Closed(n) => {
                        &&& r == Ok::<usize, WebSocketError>(
                            if n >= old(self).held().len() {
                                (n - old(self).held().len()) as usize
                            } else {
                                0
                            },
                        )
                        &&& final(self).spec_closed()
                        &&& final(self).held().len() == 0
                    },
                    ScanEnd::Fail(e) => {
                        &&& r == Err::<usize, WebSocketError>(e)
                        &&& !final(self).spec_closed()
                        &&& final(self).held().len() == 0
                    },
                }
            },
    {
        if self.closed {
            return Ok(0);
        }
        let need = self.partial.len();
        if input.len() < need {
            return Err(WebSocketError::FrameTooLarge);
        }
        let ghost held0 = self.partial@;
        let mut w: Vec<u8> = Vec::new();
        w.append(&mut self.partial);
        w.extend_from_slice(input);
        let ghost buf = w@;
        assert(buf =~= held0 + input@);
        let total = w.len();
        let (end, calls) = walk(&mut w, out, handler);
        assert(served_with(handler, buf, calls@, writes_of(out@).skip(old(out)@.len() as int)));
        match end {
            WalkEnd::Fail(e) => {
                Err(e)
            },
            WalkEnd::Closed(n) => {
                proof {
                    lemma_scan_closed_bound(buf, 0);
                    assert(buf.len() == total);
                    if let ScanEnd::Closed(m) = scan(buf, 0) {
                        assert(m as usize == m);
                        assert(n == m);
                    }
                }
                self.closed = true;
                Ok(if n >= need { n - need } else { 0 })
            },
            WalkEnd::Stop(p) => {
                proof {
                    lemma_scan_stops_short_of_a_frame(buf, 0);
                }
                let len = w.len();
                let tail = vstd::slice::slice_subrange(w.as_slice(), p, len);
                self.partial.extend_from_slice(tail);
                Ok(input.len())
            },
        }
    }
}

impl Default for ServerEngine {
    fn default() -> (r: Self)
        ensures
            r.held() == Seq::<u8>::empty(),
            !r.spec_closed(),
    {
        Self::new()
    }
}


/// Writes a final, unmasked frame header for `opcode` and a payload of
/// `payload_len` bytes into the start of `buf`; returns its size (2, 4 or
/// 10).
pub(crate) fn fmt_server_head(buf: &mut [u8], opcode: OpCode, payload_len: usize) -> (r: usize)
    requires
        old(buf)@.len() >= server_head(opcode, payload_len).len(),
    ensures
        r == server_head(opcode, payload_len).len(),
        final(buf)@.len() == old(buf)@.len(),
        final(buf)@.subrange(0, r as int) == server_head(opcode, payload_len),
        forall|j: int| r <= j < old(buf)@.len() ==> final(buf)@[j] == old(buf)@[j],
{
    proof {
        lemma_frame_head_len(true, opcode, None, payload_len);
    }
    let op = opcode.to_u8();
    buf[0] = 0x80u8 | op;
    let n = put_length(buf, payload_len, false);
    assert(buf@.subrange(0, n as int) =~= server_head(opcode, payload_len));
    n
}

/// Looks at the frame that starts at `pos`: an error if its header is
/// malformed, `None` if the header or the payload is not all there yet
/// (then nothing changes), else its header, with the payload unmasked in
/// place.
fn next_frame(input: &mut [u8], pos: usize) -> (r: Result<Option<Header>, WebSocketError>)
    requires
        pos <= old(input)@.len(),
    ensures
        final(input)@.len() == old(input)@.len(),
        match spec_parse_header(old(input)@.subrange(pos as int, old(input)@.len() as int)) {
            Err(e) => r == Err::<Option<Header>, WebSocketError>(e) && final(input)@ == old(input)@,
            Ok(HeaderParse::Incomplete { .. }) => r == Ok::<Option<Header>, WebSocketError>(None)
                && final(input)@ == old(input)@,
            Ok(HeaderParse::Complete(h)) => if h.payload_len > old(input)@.len() - pos
                - h.header_len {
                r == Ok::<Option<Header>, WebSocketError>(None) && final(input)@ == old(input)@
            } else {
                &&& r == Ok::<Option<Header>, WebSocketError>(Some(h))
                &&& 2 <= h.header_len
                &&& h.mask is Some ==> h.header_len >= 6
                &&& final(input)@.subrange(pos + h.header_len + h.payload_len, final(input)@.len() as int)
                    == old(input)@.subrange(pos + h.header_len + h.payload_len, old(input)@.len() as int)
                &&& final(input)@.subrange(pos + h.header_len, pos + h.header_len + h.payload_len)
                    == frame_payload(old(input)@, pos as int, h)
            },
        },
{
    let end = input.len();
    let res = parse_header(vstd::slice::slice_subrange(&*input, pos, end));
    proof {
        lemma_parse_header_progress(input@.subrange(pos as int, end as int));
    }
    let hdr = match res {
        Err(e) => {
            return Err(e);
        },
        Ok(HeaderParse::Incomplete { .. }) => {
            return Ok(None);
        },
        Ok(HeaderParse::Complete(h)) => h,
    };
    if hdr.payload_len > (end - pos) - hdr.header_len {
        return Ok(None);
    }
    let payload_start = pos + hdr.header_len;
    let payload_end = payload_start + hdr.payload_len;
    if let Some(m) = hdr.mask {
        unmask_range(input, payload_start, payload_end, m);
        assert(input@.subrange(payload_end as int, end as int) =~= old(input)@.subrange(
            payload_end as int,
            end as int,
        ));
        assert(input@.subrange(payload_start as int, payload_end as int) =~= masked(
            old(input)@.subrange(payload_start as int, payload_end as int),
            m,
        ));
    }
    Ok(Some(hdr))
}

/// Unmasks `input[start..end]` in place.
fn unmask_range(input: &mut [u8], start: usize, end: usize, key: [u8; 4])
    requires
        start <= end <= old(input)@.len(),
    ensures
        final(input)@ == old(input)@.subrange(0, start as int) + masked(
            old(input)@.subrange(start as int, end as int),
            key,
        ) + old(input)@.subrange(end as int, old(input)@.len() as int),
{
    let ghost i0 = input@;
    let (a, rest) = input.split_at_mut(start);
    let (p, t) = rest.split_at_mut(end - start);
    unmask(p, key);
}

/// Appends one write call, of the bytes `v`, to `out`.
fn push_write(out: &mut Vec<Vec<u8>>, v: Vec<u8>)
    ensures
        final(out)@ == old(out)@.push(v),
        writes_of(final(out)@) == writes_of(old(out)@).push(v@),
{
    let ghost vv = v@;
    out.push(v);
    assert(writes_of(out@) =~= writes_of(old(out)@).push(vv));
}

/// Appends to `out` the write calls that answer a frame (masked when
/// `masked`) with a final, unmasked frame with `opcode` and `payload`.
fn push_echo(out: &mut Vec<Vec<u8>>, masked: bool, opcode: OpCode, payload: &[u8])
    ensures
        final(out)@.len() >= old(out)@.len(),
        final(out)@.take(old(out)@.len() as int) == old(out)@,
        writes_of(final(out)@) == writes_of(old(out)@) + echo_writes(masked, opcode, payload@),
{
    let mut head = [0u8; 10];
    proof {
        lemma_frame_head_len(true, opcode, None, payload@.len() as usize);
    }
    let n = fmt_server_head(&mut head, opcode, payload.len());
    let mut first: Vec<u8> = vstd::slice::slice_to_vec(vstd::slice::slice_subrange(&head, 0, n));
    if masked && payload.len() < 65536 {
        first.extend_from_slice(payload);
        assert(first@ =~= server_head(opcode, payload@.len() as usize) + payload@);
        push_write(out, first);
    } else {
        assert(first@ =~= server_head(opcode, payload@.len() as usize));
        push_write(out, first);
        push_write(out, vstd::slice::slice_to_vec(payload));
    }
    assert(out@.take(old(out)@.len() as int) =~= old(out)@);
    assert(writes_of(out@) =~= writes_of(old(out)@) + echo_writes(masked, opcode, payload@));
}

} // verus!
