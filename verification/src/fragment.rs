//! Reassembly of fragmented messages (RFC 6455 section 5.4): the fragments
//! of a Text or Binary message are collected until the final one, and a
//! text message is checked to be UTF-8 as its bytes arrive.
use vstd::prelude::*;
use vstd::utf8::valid_utf8;

use crate::error::WebSocketError;
use crate::frame::{spec_is_control, Frame, OpCode, Payload};
use crate::websocket::{ReadHalf, WebSocket, WebSocketRead, WriteHalf};

verus! {

/// Whether `t` is the start of a single character that more bytes could
/// complete: no non-empty prefix of it is UTF-8 by itself, some
/// continuation makes it UTF-8, and it is shorter than the longest
/// character (4 bytes).
pub open spec fn utf8_truncated(t: Seq<u8>) -> bool {
    &&& 0 < t.len() < 4
    &&& forall|k: int| 0 < k <= t.len() ==> !valid_utf8(#[trigger] t.take(k))
    &&& exists|x: Seq<u8>| valid_utf8(#[trigger] (t + x))
}

/// The bytes at the end of a text fragment that begin a character not yet
/// complete (the fields of `utf8::Incomplete`).
#[derive(Debug, Clone, Copy)]
pub struct Utf8Tail {
    pub buffer: [u8; 4],
    pub buffer_len: u8,
}

impl View for Utf8Tail {
    type V = Seq<u8>;

    open spec fn view(&self) -> Seq<u8> {
        self.buffer@.take(self.buffer_len as int)
    }
}

impl Utf8Tail {
    /// A tail that `utf8::Incomplete::try_complete` accepts.
    pub open spec fn well_formed(&self) -> bool {
        self.buffer_len < 4 && utf8_truncated(self@)
    }
}

/// What `utf8::decode` made of some bytes.
pub enum Utf8Decoded {
    /// They are UTF-8.
    Valid,
    /// The first `valid_len` bytes are UTF-8; the rest begin a character
    /// that is not complete.
    Incomplete { valid_len: usize, tail: Utf8Tail },
    /// The first `valid_len` bytes are UTF-8; then comes a byte sequence
    /// that no continuation can make UTF-8.
    Invalid { valid_len: usize },
}

/// What `utf8::decode` makes of `input`: `None` when it is UTF-8, else
/// whether the rest is an incomplete character (rather than an invalid
/// one) and the length of the UTF-8 prefix.
pub uninterp spec fn utf8_decode_of(input: Seq<u8>) -> Option<(bool, int)>;

/// `utf8::decode`. The contract claims: the outcome is the one named
/// `utf8_decode_of` for these bytes; it is `Valid` exactly when the bytes
/// are UTF-8 (the crate asks `std::str::from_utf8`); otherwise the prefix
/// it reports is UTF-8 and an incomplete or invalid sequence starts inside
/// the input after it, and it is the longest UTF-8 prefix (std documents
/// `Utf8Error::valid_up_to`, which the crate splits at, as the largest such
/// index); an incomplete sequence is the whole rest of the input,
/// a truncated character, and an invalid one a sequence that no further
/// bytes make UTF-8 (the crate reports `Invalid` when `Utf8Error::error_len`
/// is `Some`, which std documents as an unexpected byte rather than an
/// early end of input).
#[verifier::external_body]
fn utf8_decode(input: &[u8]) -> (r: Utf8Decoded)
    ensures
        utf8_decode_of(input@) == match r {
            Utf8Decoded::Valid => None,
            Utf8Decoded::Incomplete { valid_len, .. } => Some((true, valid_len as int)),
            Utf8Decoded::Invalid { valid_len } => Some((false, valid_len as int)),
        },
        (r is Valid) == valid_utf8(input@),
        r matches Utf8Decoded::Incomplete { valid_len, tail } ==> valid_len < input@.len()
            && valid_utf8(input@.take(valid_len as int)) && tail.well_formed() && tail@
            == input@.skip(valid_len as int),
        r matches Utf8Decoded::Invalid { valid_len } ==> valid_len < input@.len() && valid_utf8(
            input@.take(valid_len as int),
        ),
        r is Invalid ==> forall|x: Seq<u8>| !valid_utf8(#[trigger] (input@ + x)),
        r matches Utf8Decoded::Incomplete { valid_len, .. } ==> forall|k: int|
            valid_len < k <= input@.len() ==> !valid_utf8(#[trigger] input@.take(k)),
        r matches Utf8Decoded::Invalid { valid_len } ==> forall|k: int|
            valid_len < k <= input@.len() ==> !valid_utf8(#[trigger] input@.take(k)),
{
    match utf8::decode(input) {
        Ok(_) => Utf8Decoded::Valid,
        Err(utf8::DecodeError::Incomplete { valid_prefix, incomplete_suffix }) => {
            Utf8Decoded::Incomplete {
                valid_len: valid_prefix.len(),
                tail: Utf8Tail {
                    buffer: incomplete_suffix.buffer,
                    buffer_len: incomplete_suffix.buffer_len,
                },
            }
        },
        Err(utf8::DecodeError::Invalid { valid_prefix, .. }) => Utf8Decoded::Invalid {
            valid_len: valid_prefix.len(),
        },
    }
}

/// What `utf8::Incomplete::try_complete` made of a tail and more input.
pub enum Utf8Completion {
    /// Still not a whole character; all of the input joined the tail.
    Pending,
    /// The tail and the first input bytes form `bytes`, which are UTF-8;
    /// `rest_len` bytes of input are left.
    Completed { bytes: Vec<u8>, rest_len: usize },
    /// The tail and the first input bytes are not UTF-8; `rest_len` bytes
    /// of input are left.
    Failed { rest_len: usize },
}

/// What `utf8::Incomplete::try_complete` makes of the tail `tail` and the
/// input `input`: `None` while the character is still incomplete, else
/// whether it completed as UTF-8 and how many input bytes are left.
pub uninterp spec fn utf8_try_complete_of(tail: Seq<u8>, input: Seq<u8>) -> Option<(bool, int)>;

/// `utf8::Incomplete::try_complete`, on an `Incomplete` with the fields of
/// `tail`, whose new fields are written back. The contract claims: the
/// outcome is the one named `utf8_try_complete_of`; a pending character
/// has taken in all of the input and is still a truncated one; a completed
/// one is the tail followed by the input bytes taken, and is UTF-8; a
/// failed one is the start of a sequence that no further bytes make UTF-8
/// (the crate fails when `std::str::from_utf8` of the tail and the input
/// bytes taken finds nothing valid and reports `error_len` as `Some`); the
/// bytes left are a suffix of the input. `requires` holds what the crate
/// relies on to not panic: the tail is a truncated character, as
/// `utf8::decode` leaves it.
#[verifier::external_body]
fn utf8_try_complete(tail: &mut Utf8Tail, input: &[u8]) -> (r: Utf8Completion)
    requires
        old(tail).well_formed(),
    ensures
        utf8_try_complete_of(old(tail)@, input@) == match r {
            Utf8Completion::Pending => None,
            Utf8Completion::Completed { rest_len, .. } => Some((true, rest_len as int)),
            Utf8Completion::Failed { rest_len } => Some((false, rest_len as int)),
        },
        r is Pending ==> final(tail).well_formed() && final(tail)@ == old(tail)@ + input@,
        r matches Utf8Completion::Completed { bytes, rest_len } ==> rest_len <= input@.len()
            && bytes@ == old(tail)@ + input@.take(input@.len() - rest_len) && valid_utf8(bytes@),
        r matches Utf8Completion::Failed { rest_len } ==> rest_len <= input@.len(),
        r is Failed ==> forall|x: Seq<u8>| !valid_utf8(#[trigger] (old(tail)@ + input@ + x)),
{
    let mut incomplete = utf8::Incomplete { buffer: tail.buffer, buffer_len: tail.buffer_len };
    let r = match incomplete.try_complete(input) {
        None => Utf8Completion::Pending,
        Some((Ok(text), rest)) => Utf8Completion::Completed {
            bytes: text.as_bytes().to_vec(),
            rest_len: rest.len(),
        },
        Some((Err(_), rest)) => Utf8Completion::Failed { rest_len: rest.len() },
    };
    tail.buffer = incomplete.buffer;
    tail.buffer_len = incomplete.buffer_len;
    r
}

/// A message being reassembled.
pub enum Fragment {
    /// A text message: an incomplete last character, if any, the bytes so
    /// far without it, and the total payload length so far.
    Text(Option<Utf8Tail>, Vec<u8>, usize),
    /// A binary message: the bytes so far.
    Binary(Vec<u8>),
}

/// A message being reassembled, as values: for text, the incomplete last
/// character, the bytes before it and the payload length so far.
pub enum Assembly {
    Text { tail: Option<Seq<u8>>, bytes: Seq<u8>, len: usize },
    Binary { bytes: Seq<u8> },
}

/// The incomplete last character held, if any.
pub open spec fn tail_view(t: Option<Utf8Tail>) -> Option<Seq<u8>> {
    match t {
        Some(x) => Some(x@),
        None => None,
    }
}

impl View for Fragment {
    type V = Assembly;

    open spec fn view(&self) -> Assembly {
        match self {
            Fragment::Text(t, b, n) => Assembly::Text { tail: tail_view(*t), bytes: b@, len: *n },
            Fragment::Binary(b) => Assembly::Binary { bytes: b@ },
        }
    }
}

/// Text bytes `t` decoded after the bytes `bytes` of a message whose
/// incomplete last character is `tail`: whether they may be UTF-8, the
/// message bytes then, and the incomplete last character then.
pub open spec fn decode_step(bytes: Seq<u8>, tail: Option<Seq<u8>>, t: Seq<u8>) -> (
    bool,
    Seq<u8>,
    Option<Seq<u8>>,
) {
    match utf8_decode_of(t) {
        None => (true, bytes + t, tail),
        Some((true, v)) => (true, bytes + t.take(v), Some(t.skip(v))),
        Some((false, v)) => (false, bytes + t.take(v), tail),
    }
}

/// A text continuation payload `p` taken in by a message with bytes
/// `bytes` and incomplete last character `tail`: first the character is
/// completed with the start of `p`, then the rest of `p` is decoded.
pub open spec fn text_continue(tail: Option<Seq<u8>>, bytes: Seq<u8>, p: Seq<u8>) -> (
    bool,
    Seq<u8>,
    Option<Seq<u8>>,
) {
    match tail {
        None => decode_step(bytes, None, p),
        Some(b) => match utf8_try_complete_of(b, p) {
            None => (true, bytes, Some(b + p)),
            Some((true, rest)) => decode_step(
                bytes + b + p.take(p.len() - rest),
                None,
                p.skip(p.len() - rest),
            ),
            Some((false, _)) => (false, bytes, None),
        },
    }
}

/// The bytes of an incomplete last character, if any.
pub open spec fn pending_bytes(t: Option<Seq<u8>>) -> Seq<u8> {
    match t {
        Some(b) => b,
        None => Seq::empty(),
    }
}

/// Accumulates the fragments of a message.
pub struct Fragments {
    fragments: Option<Fragment>,
    opcode: OpCode,
}

/// A frame as values: FIN bit, opcode, mask and payload bytes.
pub type FrameView = (bool, OpCode, Option<[u8; 4]>, Seq<u8>);

/// `f` as values.
pub open spec fn frame_view(f: Frame) -> FrameView {
    (f.fin, f.opcode, f.mask, f.payload@)
}

/// What [`Fragments::accumulate`] hands back, as values.
pub type Handed = Result<Option<FrameView>, WebSocketError>;

/// `r` as values.
pub open spec fn handed_view(r: Result<Option<Frame>, WebSocketError>) -> Handed {
    match r {
        Ok(Some(f)) => Ok(Some(frame_view(f))),
        Ok(None) => Ok(None),
        Err(e) => Err(e),
    }
}

/// One frame `f` taken in by a collector whose message being reassembled is
/// `cur` with opcode `op`, messages limited to `max` bytes: what is handed
/// back, and the message and opcode afterwards (see
/// [`Fragments::accumulate`]).
pub open spec fn accumulate_step(cur: Option<Assembly>, op: OpCode, f: FrameView, max: usize) -> (
    Handed,
    Option<Assembly>,
    OpCode,
) {
    let (fin, opcode, mask, p) = f;
    if opcode == OpCode::Text || opcode == OpCode::Binary {
        if fin {
            if cur is Some {
                (Err(WebSocketError::InvalidFragment), cur, op)
            } else if opcode == OpCode::Text && !valid_utf8(p) {
                (Err(WebSocketError::InvalidUTF8), cur, op)
            } else {
                (Ok(Some((true, opcode, None, p))), cur, op)
            }
        } else if p.len() > max {
            (Err(WebSocketError::FrameTooLarge), cur, op)
        } else if opcode == OpCode::Binary {
            (Ok(None), Some(Assembly::Binary { bytes: p }), OpCode::Binary)
        } else {
            let (ok, b, t) = decode_step(Seq::empty(), None, p);
            if !ok {
                (Err(WebSocketError::InvalidUTF8), cur, op)
            } else {
                (Ok(None), Some(Assembly::Text { tail: t, bytes: b, len: p.len() as usize }), OpCode::Text)
            }
        }
    } else if opcode == OpCode::Continuation {
        match cur {
            None => (Err(WebSocketError::InvalidContinuationFrame), cur, op),
            Some(Assembly::Text { tail, bytes, len }) => {
                if len + p.len() > max {
                    (Err(WebSocketError::FrameTooLarge), cur, op)
                } else {
                    let (ok, b, t) = text_continue(tail, bytes, p);
                    let next = Some(Assembly::Text { tail: t, bytes: b, len: (len + p.len()) as usize });
                    if !ok || (fin && t is Some) {
                        (Err(WebSocketError::InvalidUTF8), next, op)
                    } else if fin {
                        (Ok(Some((true, op, None, b))), None, op)
                    } else {
                        (Ok(None), next, op)
                    }
                }
            },
            Some(Assembly::Binary { bytes }) => {
                if bytes.len() + p.len() > max {
                    (Err(WebSocketError::FrameTooLarge), cur, op)
                } else if fin {
                    (Ok(Some((true, op, None, bytes + p))), None, op)
                } else {
                    (Ok(None), Some(Assembly::Binary { bytes: bytes + p }), op)
                }
            },
        }
    } else {
        (Ok(Some(f)), cur, op)
    }
}

/// Whether more bytes can make `b` UTF-8.
pub open spec fn utf8_prefix(b: Seq<u8>) -> bool {
    exists|x: Seq<u8>| valid_utf8(#[trigger] (b + x))
}

/// What [`Fragments::accumulate`] promises of one call, as values: the
/// step it takes ([`accumulate_step`]), and for text, that the bytes kept
/// and the incomplete last character are all the payload taken in, that
/// bytes which more bytes can make UTF-8 are never refused as not UTF-8
/// before the final fragment, and that a final fragment is accepted exactly
/// when the whole message is UTF-8, and then hands back all of it.
pub open spec fn accumulate_post(
    cur: Option<Assembly>,
    op: OpCode,
    f: FrameView,
    max: usize,
    h: Handed,
    cur2: Option<Assembly>,
    op2: OpCode,
) -> bool {
    let (fin, opcode, mask, p) = f;
    &&& accumulate_step(cur, op, f, max) == (h, cur2, op2)
    &&& opcode == OpCode::Text && !fin && p.len() <= max ==> {
        let (ok, b, t) = decode_step(Seq::empty(), None, p);
        &&& ok ==> b + pending_bytes(t) == p
        &&& utf8_prefix(p) ==> h == Ok::<Option<FrameView>, WebSocketError>(None)
    }
    &&& opcode == OpCode::Continuation ==> match cur {
        Some(Assembly::Text { tail: t0, bytes: b0, len: n0 }) => n0 + p.len() <= max ==> {
            let (ok, b, t) = text_continue(t0, b0, p);
            let whole = b0 + pending_bytes(t0) + p;
            &&& ok ==> b + pending_bytes(t) == whole
            &&& !fin && utf8_prefix(whole) ==> h is Ok
            &&& fin ==> (h is Ok <==> valid_utf8(whole))
            &&& fin && valid_utf8(whole) ==> (h matches Ok(Some(v)) && v.3 == whole)
        },
        _ => true,
    }
}

impl Fragments {
    /// The message being reassembled, if any.
    pub closed spec fn spec_current(&self) -> Option<Assembly> {
        match self.fragments {
            Some(f) => Some(f@),
            None => None,
        }
    }

    /// The opcode of the message being reassembled.
    pub closed spec fn spec_opcode(&self) -> OpCode {
        self.opcode
    }

    /// A text message being reassembled has UTF-8 bytes and an incomplete
    /// last character that more bytes may complete; the opcode is that of
    /// the message.
    pub closed spec fn wf(&self) -> bool {
        &&& self.fragments matches Some(Fragment::Text(Some(t), _, _)) ==> t.well_formed()
        &&& self.fragments matches Some(Fragment::Text(_, b, _)) ==> valid_utf8(b@)
            && self.opcode == OpCode::Text
        &&& self.fragments matches Some(Fragment::Binary(_)) ==> self.opcode == OpCode::Binary
    }

    /// Nothing being reassembled.
    pub fn new() -> (r: Self)
        ensures
            r.wf(),
            r.spec_current() is None,
    {
        Fragments { fragments: None, opcode: OpCode::Close }
    }
}

/// What follows UTF-8 bytes in UTF-8 bytes is UTF-8.
proof fn lemma_valid_suffix(a: Seq<u8>, c: Seq<u8>)
    requires
        valid_utf8(a),
        valid_utf8(a + c),
    ensures
        valid_utf8(c),
{
    let b = a + c;
    assert(b.subrange(0, a.len() as int) =~= a);
    assert(b.subrange(a.len() as int, b.len() as int) =~= c);
    if !valid_utf8(c) {
        vstd::utf8::partial_valid_partial_invalid_utf8(b, a.len() as int);
    }
}

/// A text continuation payload taken in: the incomplete last character
/// `data` completed with the start of `payload_in`, the rest decoded, the
/// UTF-8 bytes appended to `input`. Returns whether the bytes may still be
/// UTF-8, the message bytes and the incomplete last character.
#[verifier::rlimit(30)]
fn text_step(data: Option<Utf8Tail>, input: Vec<u8>, payload_in: &[u8]) -> (r: (
    bool,
    Vec<u8>,
    Option<Utf8Tail>,
))
    requires
        data matches Some(t) ==> t.well_formed(),
    ensures
        (r.0, r.1@, tail_view(r.2)) == text_continue(tail_view(data), input@, payload_in@),
        valid_utf8(input@) ==> valid_utf8(r.1@),
        r.2 matches Some(t) ==> t.well_formed(),
        r.0 ==> r.1@ + pending_bytes(tail_view(r.2)) == input@ + pending_bytes(tail_view(data))
            + payload_in@,
        valid_utf8(input@) && (exists|x: Seq<u8>|
            valid_utf8(#[trigger] (input@ + pending_bytes(tail_view(data)) + payload_in@ + x)))
            ==> r.0,
{
    let mut input = input;
    let payload = payload_in;
    let plen = payload.len();
    let mut pending: Option<Utf8Tail> = None;
    let mut tail_start: usize = 0;
    let ghost b0 = input@;
    let ghost p = payload_in@;
    if let Some(t) = data {
        let mut incomplete = t;
        match utf8_try_complete(&mut incomplete, payload) {
            Utf8Completion::Pending => {
                tail_start = plen;
                pending = Some(incomplete);
            },
            Utf8Completion::Completed { bytes, rest_len } => {
                tail_start = plen - rest_len;
                input.extend_from_slice(bytes.as_slice());
                assert(input@ =~= b0 + bytes@);
                assert(valid_utf8(b0) ==> valid_utf8(input@)) by {
                    if valid_utf8(b0) {
                        vstd::utf8::valid_utf8_concat(b0, bytes@);
                    }
                }
                assert(b0 + bytes@ =~= b0 + t@ + p.take(p.len() - rest_len));
            },
            Utf8Completion::Failed { .. } => {
                proof {
                    if valid_utf8(b0) && exists|x: Seq<u8>|
                        valid_utf8(#[trigger] (b0 + t@ + p + x)) {
                        let x0 = choose|x: Seq<u8>| valid_utf8(#[trigger] (b0 + t@ + p + x));
                        assert(b0 + t@ + p + x0 =~= b0 + (t@ + p + x0));
                        lemma_valid_suffix(b0, t@ + p + x0);
                        assert(!valid_utf8(t@ + p + x0));
                    }
                }
                return (false, input, None);
            },
        }
    }
    let rest = vstd::slice::slice_subrange(payload, tail_start, plen);
    let ghost mid = input@;
    let ghost tail_mid = tail_view(pending);
    assert(rest@ =~= p.skip(tail_start as int));
    let decoded = utf8_decode(rest);
    assert(text_continue(tail_view(data), b0, p) == decode_step(mid, tail_mid, rest@)) by {
        if data is Some && pending is Some {
            assert(rest@ =~= Seq::<u8>::empty());
        }
        if data is None {
            assert(rest@ =~= p);
        }
    }
    match decoded {
        Utf8Decoded::Valid => {
            input.extend_from_slice(rest);
            assert(input@ =~= mid + rest@);
            assert(valid_utf8(mid) ==> valid_utf8(input@)) by {
                if valid_utf8(mid) {
                    vstd::utf8::valid_utf8_concat(mid, rest@);
                }
            }
        },
        Utf8Decoded::Incomplete { valid_len, tail } => {
            let head = vstd::slice::slice_subrange(rest, 0, valid_len);
            input.extend_from_slice(head);
            assert(input@ =~= mid + rest@.take(valid_len as int));
            assert(valid_utf8(mid) ==> valid_utf8(input@)) by {
                if valid_utf8(mid) {
                    vstd::utf8::valid_utf8_concat(mid, rest@.take(valid_len as int));
                }
            }
            pending = Some(tail);
        },
        Utf8Decoded::Invalid { valid_len } => {
            proof {
                if valid_utf8(b0) && exists|x: Seq<u8>|
                    valid_utf8(#[trigger] (b0 + pending_bytes(tail_view(data)) + p + x)) {
                    let x0 = choose|x: Seq<u8>|
                        valid_utf8(#[trigger] (b0 + pending_bytes(tail_view(data)) + p + x));
                    assert(pending is None);
                    assert(mid + rest@ =~= b0 + pending_bytes(tail_view(data)) + p);
                    assert(b0 + pending_bytes(tail_view(data)) + p + x0 =~= mid + (rest@ + x0));
                    lemma_valid_suffix(mid, rest@ + x0);
                    assert(!valid_utf8(rest@ + x0));
                }
            }
            let head = vstd::slice::slice_subrange(rest, 0, valid_len);
            input.extend_from_slice(head);
            assert(input@ =~= mid + rest@.take(valid_len as int));
            assert(valid_utf8(mid) ==> valid_utf8(input@)) by {
                if valid_utf8(mid) {
                    vstd::utf8::valid_utf8_concat(mid, rest@.take(valid_len as int));
                }
            }
            return (false, input, pending);
        },
    }
    (true, input, pending)
}

impl Fragments {
    /// Takes in one frame of the incoming stream. A final Text or Binary
    /// frame is a whole message: refused (`InvalidFragment`) while another
    /// message is being reassembled, refused (`InvalidUTF8`) when it is text
    /// that is not UTF-8, else handed back as is (final, unmasked). A
    /// non-final one starts a message (whatever was being reassembled is
    /// dropped): refused (`FrameTooLarge`) when its payload has more than
    /// `max_message_size` bytes, or (`InvalidUTF8`) when it is text that
    /// cannot begin UTF-8. A Continuation is refused
    /// (`InvalidContinuationFrame`) when no message is being reassembled,
    /// and (`FrameTooLarge`) when the message would grow beyond
    /// `max_message_size` bytes; otherwise its payload is added (text is
    /// checked as it comes, `InvalidUTF8` once it cannot be UTF-8), and the
    /// final one hands back the whole message (text that ends inside a
    /// character is refused with `InvalidUTF8`). Control frames are handed back as they
    /// are. A refused frame leaves the state as it was, except that text
    /// refused as it comes has taken in the bytes before the fault.
    pub fn accumulate<'f>(&mut self, frame: Frame<'f>, max_message_size: usize) -> (r: Result<
        Option<Frame<'f>>,
        WebSocketError,
    >)
        requires
            old(self).wf(),
        ensures
            final(self).wf(),
            accumulate_post(
                old(self).spec_current(),
                old(self).spec_opcode(),
                frame_view(frame),
                max_message_size,
                handed_view(r),
                final(self).spec_current(),
                final(self).spec_opcode(),
            ),
            r matches Ok(Some(f)) ==> (f.opcode == OpCode::Text ==> valid_utf8(f.payload@)),
            r matches Ok(Some(f)) ==> f.fin || (spec_is_control(frame.opcode) && f == frame),
            spec_is_control(frame.opcode) ==> r == Ok::<Option<Frame<'f>>, WebSocketError>(
                Some(frame),
            ),
            frame.opcode != OpCode::Continuation && !(r == Ok::<Option<Frame<'f>>, WebSocketError>(
                None,
            )) ==> *final(self) == *old(self),
            frame.opcode == OpCode::Continuation && r is Err && r != Err::<
                Option<Frame<'f>>,
                WebSocketError,
            >(WebSocketError::InvalidUTF8) ==> *final(self) == *old(self),
    {
        if frame.opcode == OpCode::Text || frame.opcode == OpCode::Binary {
            if frame.fin {
                if self.fragments.is_some() {
                    return Err(WebSocketError::InvalidFragment);
                }
                if frame.opcode == OpCode::Text {
                    match utf8_decode(frame.payload.as_slice()) {
                        Utf8Decoded::Valid => {},
                        _ => {
                            return Err(WebSocketError::InvalidUTF8);
                        },
                    }
                }
                return Ok(Some(Frame::new(true, frame.opcode, None, frame.payload)));
            }
            let plen = frame.payload.len();
            if plen > max_message_size {
                return Err(WebSocketError::FrameTooLarge);
            }
            if frame.opcode == OpCode::Binary {
                let data = vstd::slice::slice_to_vec(frame.payload.as_slice());
                self.fragments = Some(Fragment::Binary(data));
                self.opcode = OpCode::Binary;
                return Ok(None);
            }
            let payload = frame.payload.as_slice();
            let first = match utf8_decode(payload) {
                Utf8Decoded::Valid => Fragment::Text(None, vstd::slice::slice_to_vec(payload), plen),
                Utf8Decoded::Incomplete { valid_len, tail } => Fragment::Text(
                    Some(tail),
                    vstd::slice::slice_to_vec(vstd::slice::slice_subrange(payload, 0, valid_len)),
                    plen,
                ),
                Utf8Decoded::Invalid { .. } => {
                    return Err(WebSocketError::InvalidUTF8);
                },
            };
            proof {
                assert(payload@.take(payload@.len() as int) =~= payload@);
                assert(Seq::<u8>::empty() + payload@ =~= payload@);
                assert forall|v: int| 0 <= v <= payload@.len() implies Seq::<u8>::empty()
                    + payload@.take(v) =~= payload@.subrange(0, v) by {}
            }
            self.fragments = Some(first);
            self.opcode = OpCode::Text;
            proof {
                let (ok, b, t) = decode_step(Seq::empty(), None, frame.payload@);
                assert(ok ==> b + pending_bytes(t) == frame.payload@);
            }
            return Ok(None);
        }
        if frame.opcode != OpCode::Continuation {
            return Ok(Some(frame));
        }
        let current = self.fragments.take();
        match current {
            None => {
                return Err(WebSocketError::InvalidContinuationFrame);
            },
            Some(Fragment::Binary(mut data)) => {
                let plen = frame.payload.len();
                let total = data.len().checked_add(plen);
                let too_large = match total {
                    None => true,
                    Some(n) => n > max_message_size,
                };
                if too_large {
                    self.fragments = Some(Fragment::Binary(data));
                    return Err(WebSocketError::FrameTooLarge);
                }
                let ghost before = data@;
                data.extend_from_slice(frame.payload.as_slice());
                assert(data@ =~= before + frame.payload@);
                if frame.fin {
                    return Ok(Some(Frame::new(true, self.opcode, None, Payload::Owned(data))));
                }
                self.fragments = Some(Fragment::Binary(data));
                return Ok(None);
            },
            Some(Fragment::Text(data, mut input, message_len)) => {
                let plen = frame.payload.len();
                let total = message_len.checked_add(plen);
                let new_len = match total {
                    None => {
                        self.fragments = Some(Fragment::Text(data, input, message_len));
                        return Err(WebSocketError::FrameTooLarge);
                    },
                    Some(n) => n,
                };
                if new_len > max_message_size {
                    self.fragments = Some(Fragment::Text(data, input, message_len));
                    return Err(WebSocketError::FrameTooLarge);
                }
                let ghost whole = input@ + pending_bytes(tail_view(data)) + frame.payload@;
                assert(valid_utf8(input@));
                assert(old(self).spec_current() == Some(
                    Assembly::Text { tail: tail_view(data), bytes: input@, len: message_len },
                ));
                let (ok, input, pending) = text_step(data, input, frame.payload.as_slice());
                if !ok {
                    proof {
                        assert forall|x: Seq<u8>| !valid_utf8(#[trigger] (whole + x)) by {
                            if valid_utf8(whole + x) {
                                assert(exists|y: Seq<u8>| valid_utf8(#[trigger] (whole + y)));
                            }
                        }
                        assert(!valid_utf8(whole + Seq::<u8>::empty()));
                        assert(whole + Seq::<u8>::empty() =~= whole);
                    }
                    self.fragments = Some(Fragment::Text(pending, input, new_len));
                    return Err(WebSocketError::InvalidUTF8);
                }
                if frame.fin {
                    if pending.is_some() {
                        proof {
                            if valid_utf8(whole) {
                                let t = pending.unwrap();
                                lemma_valid_suffix(input@, t@);
                                assert(t@.take(t@.len() as int) =~= t@);
                            }
                        }
                        self.fragments = Some(Fragment::Text(pending, input, new_len));
                        return Err(WebSocketError::InvalidUTF8);
                    }
                    proof {
                        if valid_utf8(whole) {
                            if let Some(t) = pending {
                                lemma_valid_suffix(input@, t@);
                                assert(t@.take(t@.len() as int) =~= t@);
                            }
                            assert(input@ =~= whole);
                        }
                    }
                    return Ok(Some(Frame::new(true, self.opcode, None, Payload::Owned(input))));
                }
                self.fragments = Some(Fragment::Text(pending, input, new_len));
                return Ok(None);
            },
        }
    }
}

/// Collects fragmented messages over a WebSocket connection and hands back
/// each message once its final fragment has arrived.
pub struct FragmentCollector<S> {
    stream: S,
    read_half: ReadHalf,
    write_half: WriteHalf,
    fragments: Fragments,
}

impl<S> FragmentCollector<S> {
    /// The stream.
    pub closed spec fn spec_stream(&self) -> S {
        self.stream
    }

    /// The read half.
    pub closed spec fn spec_read(&self) -> ReadHalf {
        self.read_half
    }

    /// The write half.
    pub closed spec fn spec_write(&self) -> WriteHalf {
        self.write_half
    }

    /// The message being reassembled.
    pub closed spec fn spec_fragments(&self) -> Fragments {
        self.fragments
    }

    /// Reassembly of the messages that arrive on `ws`, starting with none.
    pub fn new(ws: WebSocket<S>) -> (r: Self)
        ensures
            r.spec_stream() == ws.spec_stream(),
            r.spec_read() == ws.spec_read(),
            r.spec_write() == ws.spec_write(),
            r.spec_fragments().wf(),
            r.spec_fragments().spec_current() is None,
    {
        let (stream, read_half, write_half) = ws.into_parts_internal();
        FragmentCollector { stream, read_half, write_half, fragments: Fragments::new() }
    }

    /// The stream, the collector given up.
    pub fn into_inner(self) -> (r: S)
        ensures
            r == self.spec_stream(),
    {
        self.stream
    }

    /// The stream, the halves and the reassembly state, borrowed apart.
    pub fn parts_mut(&mut self) -> (r: (&mut S, &mut ReadHalf, &mut WriteHalf, &mut Fragments))
        ensures
            *r.0 == old(self).spec_stream(),
            *r.1 == old(self).spec_read(),
            *r.2 == old(self).spec_write(),
            *r.3 == old(self).spec_fragments(),
            final(self).spec_stream() == *final(r.0),
            final(self).spec_read() == *final(r.1),
            final(self).spec_write() == *final(r.2),
            final(self).spec_fragments() == *final(r.3),
    {
        (&mut self.stream, &mut self.read_half, &mut self.write_half, &mut self.fragments)
    }
}

/// Collects fragmented messages on the read side of a split WebSocket.
pub struct FragmentCollectorRead<S> {
    stream: S,
    read_half: ReadHalf,
    fragments: Fragments,
}

impl<S> FragmentCollectorRead<S> {
    /// The stream.
    pub closed spec fn spec_stream(&self) -> S {
        self.stream
    }

    /// The read half.
    pub closed spec fn spec_read(&self) -> ReadHalf {
        self.read_half
    }

    /// The message being reassembled.
    pub closed spec fn spec_fragments(&self) -> Fragments {
        self.fragments
    }

    /// Reassembly of the messages that arrive on `ws`, starting with none.
    pub fn new(ws: WebSocketRead<S>) -> (r: Self)
        ensures
            r.spec_stream() == ws.spec_stream(),
            r.spec_read() == ws.spec_read(),
            r.spec_fragments().wf(),
            r.spec_fragments().spec_current() is None,
    {
        let (stream, read_half) = ws.into_parts_internal();
        FragmentCollectorRead { stream, read_half, fragments: Fragments::new() }
    }

    /// The stream, the read half and the reassembly state, borrowed apart.
    pub fn parts_mut(&mut self) -> (r: (&mut S, &mut ReadHalf, &mut Fragments))
        ensures
            *r.0 == old(self).spec_stream(),
            *r.1 == old(self).spec_read(),
            *r.2 == old(self).spec_fragments(),
            final(self).spec_stream() == *final(r.0),
            final(self).spec_read() == *final(r.1),
            final(self).spec_fragments() == *final(r.2),
    {
        (&mut self.stream, &mut self.read_half, &mut self.fragments)
    }
}

} // verus!
