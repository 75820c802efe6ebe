//! The two halves of a WebSocket connection over a stream that has finished
//! the opening handshake, and the decisions they make: what a received frame
//! means and what must be sent back for it (read half), and whether and how
//! a frame may be written (write half). Reading from and writing to the
//! stream is left to the caller.
use vstd::prelude::*;
use vstd::utf8::valid_utf8;

use crate::buffer::{bytes_contents, bytes_extend, bytes_with_capacity};
use crate::error::WebSocketError;
use crate::frame::{
    be16, be16_bytes, frame_head, lemma_frame_head_len, lemma_head_parse_roundtrip, spec_is_control,
    spec_parse_head, spec_parse_header, parse_head, Frame, Header, HeaderParse, OpCode, Payload,
};
use crate::mask::{lemma_mask_involution, masked};
use crate::text::is_valid_utf8;

verus! {

/// Which end of the connection this is. Clients mask what they send;
/// servers unmask what they receive.
#[derive(Debug, Copy, Clone, PartialEq, Eq, Structural)]
pub enum Role {
    Server,
    Client,
}

/// Whether a Close frame may carry status `code` (RFC 6455 section 7.4):
/// the codes defined for use (1000-1003, 1007-1011), the registered
/// 1012 and 1013, and the ranges for libraries and applications
/// (3000-4999).
pub open spec fn close_code_allowed(code: u16) -> bool {
    ||| 1000 <= code <= 1003
    ||| 1007 <= code <= 1013
    ||| 3000 <= code <= 4999
}

fn is_allowed_close_code(code: u16) -> (r: bool)
    ensures
        r == close_code_allowed(code),
{
    (1000 <= code && code <= 1003) || (1007 <= code && code <= 1013) || (3000 <= code && code
        <= 4999)
}

/// A peer that closes with a status code RFC 6455 section 7.4.1 defines
/// for use (1000 normal closure, 1001 going away, 1002 protocol error, 1003
/// unsupported data, 1007 inconsistent data, 1008 policy violation, 1009
/// message too big, 1010 missing extension, 1011 unexpected condition), with
/// one of the registered 1012 (service restart) and 1013 (try again later),
/// or with a code of the ranges left to libraries and applications
/// (3000-4999), and a UTF-8 reason, sends a Close payload that passes every
/// check a read half makes of it: at least two bytes, a UTF-8 reason, and a
/// status code (read big-endian from its first two bytes, giving `code`
/// back) that is allowed. So [`ReadHalf::handle_frame`] hands such a Close
/// on and answers it with a Close carrying the same payload.
pub proof fn lemma_peer_close_is_accepted(code: u16, reason: Seq<u8>)
    requires
        code == 1000 || code == 1001 || code == 1002 || code == 1003 || code == 1007 || code
            == 1008 || code == 1009 || code == 1010 || code == 1011 || code == 1012 || code
            == 1013 || (3000 <= code && code <= 4999),
        valid_utf8(reason),
    ensures
        ({
            let p = be16_bytes(code) + reason;
            &&& p.len() >= 2
            &&& be16(p[0], p[1]) == code
            &&& valid_utf8(p.skip(2))
            &&& close_code_allowed(be16(p[0], p[1]))
        }),
{
    let p = be16_bytes(code) + reason;
    assert(be16(((code >> 8u16) as u8), code as u8) == code) by (bit_vector);
    assert(p[0] == (code >> 8u16) as u8 && p[1] == code as u8);
    assert(p.skip(2) =~= reason);
}

/// The status codes no peer may send are refused: those below 1000 (not
/// used), 1004 (reserved), 1005 and 1006 (only for reporting a missing
/// code or an abnormal closure, never sent), 1014 to 2999 (reserved for
/// later versions of the protocol and extensions, 1015 being only for
/// reporting a TLS failure) and from 5000 on (undefined). A Close carrying
/// one of them is refused with `InvalidCloseCode` by
/// [`ReadHalf::handle_frame`].
pub proof fn lemma_forbidden_close_codes_refused(code: u16)
    requires
        code < 1000 || code == 1004 || code == 1005 || code == 1006 || (1014 <= code && code
            <= 2999) || code >= 5000,
    ensures
        !close_code_allowed(code),
{
}

/// Size of the read buffer a read half starts with.
pub const INITIAL_READ_BUFFER_CAPACITY: usize = 8192;

/// Largest message a read half accepts unless told otherwise (64 MiB).
pub const DEFAULT_MAX_MESSAGE_SIZE: usize = 67108864;

/// Frames whose payload is at most this long are written from one buffer
/// rather than with a vectored write, unless told otherwise.
pub const DEFAULT_WRITEV_THRESHOLD: usize = 1024;

/// Read side of a WebSocket.
pub struct ReadHalf {
    role: Role,
    auto_apply_mask: bool,
    auto_close: bool,
    auto_pong: bool,
    max_message_size: usize,
    buffer: bytes::BytesMut,
}

/// Write side of a WebSocket.
pub struct WriteHalf {
    role: Role,
    closed: bool,
    vectored: bool,
    auto_apply_mask: bool,
    writev_threshold: usize,
    write_buffer: Vec<u8>,
}

/// The payload a read half hands on for `frame`: unmasked when it is a
/// server that applies masks and the frame is masked.
pub open spec fn received_payload(unmask: bool, frame: Frame) -> Seq<u8> {
    if unmask && frame.mask is Some {
        masked(frame.payload@, frame.mask.unwrap())
    } else {
        frame.payload@
    }
}

/// `frame` as a read half hands it on: same FIN bit and opcode, its payload
/// `received_payload`, and no mask once unmasked.
pub open spec fn is_received(unmask: bool, frame: Frame, out: Frame) -> bool {
    &&& out.fin == frame.fin
    &&& out.opcode == frame.opcode
    &&& out.payload@ == received_payload(unmask, frame)
    &&& out.mask == if unmask {
        None
    } else {
        frame.mask
    }
}

/// A final, unmasked Close frame with payload `p`.
pub open spec fn is_close_reply(f: Frame, p: Seq<u8>) -> bool {
    f.fin && f.opcode == OpCode::Close && f.mask is None && f.payload@ == p
}

/// The settings and unparsed bytes of a read half.
pub struct ReadSettings {
    pub role: Role,
    /// Whether received payloads are unmasked (servers only).
    pub auto_apply_mask: bool,
    /// Whether a received Close is answered with a Close.
    pub auto_close: bool,
    /// Whether a received Ping is answered with a Pong.
    pub auto_pong: bool,
    /// Frames with a payload longer than this are refused.
    pub max_message_size: usize,
    /// Bytes read off the stream and not yet parsed.
    pub buffer: Seq<u8>,
}

/// A fresh read half: masks applied, Close and Ping answered, messages up
/// to 64 MiB, nothing buffered.
pub open spec fn initial_read_settings(role: Role) -> ReadSettings {
    ReadSettings {
        role,
        auto_apply_mask: true,
        auto_close: true,
        auto_pong: true,
        max_message_size: DEFAULT_MAX_MESSAGE_SIZE,
        buffer: Seq::empty(),
    }
}

/// A read half fresh from the handshake answers Close and Ping frames,
/// unmasks what a server receives, holds no bytes, and accepts frames of
/// up to 64 MiB: [`ReadHalf::next_header`] refuses a header with
/// `FrameTooLarge` exactly when its payload is longer than 64 MiB.
pub proof fn lemma_fresh_read_half(role: Role, payload_len: usize)
    ensures
        initial_read_settings(role).role == role,
        initial_read_settings(role).auto_close,
        initial_read_settings(role).auto_pong,
        initial_read_settings(role).auto_apply_mask,
        initial_read_settings(role).buffer.len() == 0,
        initial_read_settings(role).max_message_size == 64 * 1024 * 1024,
        (payload_len > initial_read_settings(role).max_message_size) == (payload_len > 67108864),
{
}

impl View for ReadHalf {
    type V = ReadSettings;

    closed spec fn view(&self) -> ReadSettings {
        ReadSettings {
            role: self.role,
            auto_apply_mask: self.auto_apply_mask,
            auto_close: self.auto_close,
            auto_pong: self.auto_pong,
            max_message_size: self.max_message_size,
            buffer: bytes_contents(self.buffer),
        }
    }
}

impl ReadHalf {
    /// Whether received payloads get unmasked: a server that applies masks.
    pub open spec fn unmasks(&self) -> bool {
        self@.role == Role::Server && self@.auto_apply_mask
    }

    /// A read half for a connection in role `role`: masks applied, Close and
    /// Ping answered, messages up to 64 MiB, nothing buffered.
    pub fn after_handshake(role: Role) -> (r: Self)
        ensures
            r@ == initial_read_settings(role),
    {
        ReadHalf {
            role,
            auto_apply_mask: true,
            auto_close: true,
            auto_pong: true,
            max_message_size: DEFAULT_MAX_MESSAGE_SIZE,
            buffer: bytes_with_capacity(INITIAL_READ_BUFFER_CAPACITY),
        }
    }

    /// Frames with a payload longer than this are refused.
    pub fn max_message_size(&self) -> (r: usize)
        ensures
            r == self@.max_message_size,
    {
        self.max_message_size
    }

    /// The bytes read off the stream and not yet parsed.
    pub fn buffer(&self) -> (r: &bytes::BytesMut)
        ensures
            bytes_contents(*r) == self@.buffer,
    {
        &self.buffer
    }

    /// The read buffer, for the caller that fills it from the stream.
    pub fn buffer_mut(&mut self) -> (r: &mut bytes::BytesMut)
        ensures
            bytes_contents(*r) == old(self)@.buffer,
            final(self)@ == (ReadSettings { buffer: bytes_contents(*final(r)), ..old(self)@ }),
    {
        &mut self.buffer
    }

    /// What the bytes `buf` at the front of the read buffer hold: a frame
    /// header (as [`parse_head`] reads it, before its payload has arrived),
    /// more bytes needed, or an error; a payload larger than
    /// `max_message_size` bytes is refused with `FrameTooLarge`.
    pub fn next_header(&self, buf: &[u8]) -> (r: Result<HeaderParse, WebSocketError>)
        ensures
            r == match spec_parse_head(buf@) {
                Ok(HeaderParse::Complete(h)) => if h.payload_len > self@.max_message_size {
                    Err(WebSocketError::FrameTooLarge)
                } else {
                    Ok(HeaderParse::Complete(h))
                },
                other => other,
            },
    {
        match parse_head(buf) {
            Ok(HeaderParse::Complete(h)) => {
                if h.payload_len > self.max_message_size {
                    Err(WebSocketError::FrameTooLarge)
                } else {
                    Ok(HeaderParse::Complete(h))
                }
            },
            other => other,
        }
    }

    /// What a received frame means, and what must be sent back for it.
    /// A server that applies masks unmasks the payload first. Then:
    /// a Close (when Close frames are answered) with a one-byte payload is
    /// refused (`InvalidCloseFrame`); one whose reason is not UTF-8 too
    /// (`InvalidUTF8`); one whose status code is not allowed is refused
    /// (`InvalidCloseCode`) and answered with a Close 1002 carrying the same
    /// reason; any other Close is handed on and answered with a Close with
    /// the same payload. A Ping (when Pings are answered) is answered with a
    /// Pong with the same payload and not handed on. A final Text frame
    /// whose payload is not UTF-8 is refused (`InvalidUTF8`). Every other
    /// frame is handed on.
    pub fn handle_frame<'f>(&self, frame: Frame<'f>) -> (r: (
        Result<Option<Frame<'f>>, WebSocketError>,
        Option<Frame<'f>>,
    ))
        ensures
            ({
                let u = self.unmasks();
                let p = received_payload(u, frame);
                if frame.opcode == OpCode::Close && self@.auto_close {
                    if p.len() == 1 {
                        r.0 == Err::<Option<Frame<'f>>, WebSocketError>(
                            WebSocketError::InvalidCloseFrame,
                        ) && r.1 is None
                    } else if p.len() >= 2 && !valid_utf8(p.skip(2)) {
                        r.0 == Err::<Option<Frame<'f>>, WebSocketError>(WebSocketError::InvalidUTF8)
                            && r.1 is None
                    } else if p.len() >= 2 && !close_code_allowed(be16(p[0], p[1])) {
                        &&& r.0 == Err::<Option<Frame<'f>>, WebSocketError>(
                            WebSocketError::InvalidCloseCode,
                        )
                        &&& r.1 matches Some(c) && is_close_reply(c, be16_bytes(1002) + p.skip(2))
                    } else {
                        &&& r.0 matches Ok(Some(f)) && is_received(u, frame, f)
                        &&& r.1 matches Some(c) && is_close_reply(c, p)
                    }
                } else if frame.opcode == OpCode::Ping && self@.auto_pong {
                    &&& r.0 == Ok::<Option<Frame<'f>>, WebSocketError>(None)
                    &&& r.1 matches Some(c) && c.fin && c.opcode == OpCode::Pong && c.mask is None
                        && c.payload@ == p
                } else if frame.opcode == OpCode::Text && frame.fin && !valid_utf8(p) {
                    r.0 == Err::<Option<Frame<'f>>, WebSocketError>(WebSocketError::InvalidUTF8)
                        && r.1 is None
                } else {
                    r.0 matches Ok(Some(f)) && is_received(u, frame, f) && r.1 is None
                }
            }),
    {
        let ghost orig = frame;
        let mut frame = frame;
        if self.role == Role::Server && self.auto_apply_mask {
            frame.unmask();
        }
        assert(frame.payload@ == received_payload(self.unmasks(), orig));
        if frame.opcode == OpCode::Close && self.auto_close {
            let len = frame.payload.len();
            if len == 1 {
                return (Err(WebSocketError::InvalidCloseFrame), None);
            }
            if len >= 2 {
                let body = frame.payload.as_slice();
                let code = ((body[0] as u16) << 8u16) | (body[1] as u16);
                let reason = vstd::slice::slice_subrange(body, 2, len);
                assert(reason@ == body@.skip(2));
                if !is_valid_utf8(reason) {
                    return (Err(WebSocketError::InvalidUTF8), None);
                }
                if !is_allowed_close_code(code) {
                    let reply = Frame::close(1002, reason);
                    return (Err(WebSocketError::InvalidCloseCode), Some(reply));
                }
            }
            let copy = vstd::slice::slice_to_vec(frame.payload.as_slice());
            let reply = Frame::close_raw(Payload::Owned(copy));
            return (Ok(Some(frame)), Some(reply));
        }
        if frame.opcode == OpCode::Ping && self.auto_pong {
            return (Ok(None), Some(Frame::pong(frame.payload)));
        }
        if frame.opcode == OpCode::Text && frame.fin && !frame.is_utf8() {
            return (Err(WebSocketError::InvalidUTF8), None);
        }
        (Ok(Some(frame)), None)
    }
}

/// The payload bytes as they go on the wire: masked with the key when the
/// frame has one.
pub open spec fn wire_payload(p: Seq<u8>, mask: Option<[u8; 4]>) -> Seq<u8> {
    match mask {
        Some(key) => masked(p, key),
        None => p,
    }
}

/// What one end writes, the other reads back. The bytes a write half puts
/// out for a frame (its header, then its payload masked with the frame's
/// key if it has one), followed by anything, parse back to a header with
/// the frame's FIN bit, opcode, mask and payload length; the payload bytes
/// follow the header; and a frame received with those bytes and that mask
/// is handed on by a reader that unmasks with the payload it was written
/// with. This holds for every frame a reader accepts at all: control frames
/// final, Pings at most 125 bytes.
pub proof fn lemma_written_frame_reads_back(
    fin: bool,
    op: OpCode,
    mask: Option<[u8; 4]>,
    p: Seq<u8>,
    rest: Seq<u8>,
    got: Frame,
)
    requires
        spec_is_control(op) ==> fin,
        op == OpCode::Ping ==> p.len() <= 125,
        p.len() <= usize::MAX,
    ensures
        ({
            let head = frame_head(fin, op, mask, p.len() as usize);
            let bytes = head + wire_payload(p, mask) + rest;
            &&& spec_parse_header(bytes) == Ok::<HeaderParse, WebSocketError>(
                HeaderParse::Complete(
                    Header {
                        fin,
                        opcode: op,
                        mask,
                        header_len: head.len() as usize,
                        payload_len: p.len() as usize,
                    },
                ),
            )
            &&& bytes.subrange(head.len() as int, head.len() + p.len() as int) == wire_payload(p, mask)
            &&& got.mask == mask && got.payload@ == wire_payload(p, mask) ==> received_payload(
                true,
                got,
            ) == p
        }),
{
    let head = frame_head(fin, op, mask, p.len() as usize);
    let w = wire_payload(p, mask);
    lemma_frame_head_len(fin, op, mask, p.len() as usize);
    lemma_head_parse_roundtrip(fin, op, mask, p.len() as usize, w + rest);
    assert(head + w + rest =~= head + (w + rest));
    assert((head + w + rest).subrange(head.len() as int, head.len() + p.len() as int) =~= w);
    if let Some(key) = mask {
        lemma_mask_involution(p, key);
    }
}

/// What a reader does with a frame once the read half has handled it.
pub enum ReadOutcome<'f> {
    /// Hand this frame to the caller.
    Deliver(Frame<'f>),
    /// Fail the read with this error.
    Fail(WebSocketError),
    /// Nothing to hand on (an answered Ping): read the next frame.
    Again,
}

/// Settles one handled frame (`handled`, as [`ReadHalf::handle_frame`]
/// returns it) on a connection whose write half is `closed` or not: the
/// reply the read half asks for is to be written only while the write half
/// is open; a refused frame fails the read; once closed, any frame but a
/// Close fails it with `ConnectionClosed`; an answered Ping leads to the
/// next read. Returns the reply to write, if any, and the outcome.
pub fn settle_read<'f>(
    closed: bool,
    handled: (Result<Option<Frame<'f>>, WebSocketError>, Option<Frame<'f>>),
) -> (r: (Option<Frame<'f>>, ReadOutcome<'f>))
    ensures
        r.0 == if closed {
            None
        } else {
            handled.1
        },
        match handled.0 {
            Err(e) => r.1 == ReadOutcome::<'f>::Fail(e),
            Ok(None) => r.1 is Again,
            Ok(Some(f)) => if closed && f.opcode != OpCode::Close {
                r.1 == ReadOutcome::<'f>::Fail(WebSocketError::ConnectionClosed)
            } else {
                r.1 == ReadOutcome::<'f>::Deliver(f)
            },
        },
{
    let (res, obligated) = handled;
    let reply = if closed {
        None
    } else {
        obligated
    };
    let outcome = match res {
        Err(e) => ReadOutcome::Fail(e),
        Ok(None) => ReadOutcome::Again,
        Ok(Some(f)) => {
            if closed && f.opcode != OpCode::Close {
                ReadOutcome::Fail(WebSocketError::ConnectionClosed)
            } else {
                ReadOutcome::Deliver(f)
            }
        },
    };
    (reply, outcome)
}

/// The settings and state of a write half.
pub struct WriteSettings {
    pub role: Role,
    /// Whether a Close has been written: nothing but another Close may
    /// follow, and that one is skipped.
    pub closed: bool,
    /// Whether frames with a payload above `writev_threshold` bytes are
    /// written with a vectored write.
    pub vectored: bool,
    /// Whether a client masks the frames it writes.
    pub auto_apply_mask: bool,
    pub writev_threshold: usize,
    /// What the write buffer holds: the scratch space in which buffered
    /// frames are built.
    pub write_buffer: Seq<u8>,
}

/// A fresh write half: open, masking (for a client), vectored writes for
/// payloads above 1024 bytes, nothing in the write buffer.
pub open spec fn initial_write_settings(role: Role) -> WriteSettings {
    WriteSettings {
        role,
        closed: false,
        vectored: true,
        auto_apply_mask: true,
        writev_threshold: DEFAULT_WRITEV_THRESHOLD,
        write_buffer: Seq::empty(),
    }
}

/// A write half fresh from the handshake is open, masks what a client
/// sends, writes payloads of more than 1024 bytes with a vectored write
/// (and those of at most 1024 bytes from its buffer), and holds no bytes.
pub proof fn lemma_fresh_write_half(role: Role, payload_len: usize)
    ensures
        initial_write_settings(role).role == role,
        !initial_write_settings(role).closed,
        initial_write_settings(role).auto_apply_mask,
        initial_write_settings(role).vectored,
        initial_write_settings(role).write_buffer.len() == 0,
        (payload_len > initial_write_settings(role).writev_threshold) == (payload_len > 1024),
{
}

impl View for WriteHalf {
    type V = WriteSettings;

    closed spec fn view(&self) -> WriteSettings {
        WriteSettings {
            role: self.role,
            closed: self.closed,
            vectored: self.vectored,
            auto_apply_mask: self.auto_apply_mask,
            writev_threshold: self.writev_threshold,
            write_buffer: self.write_buffer@,
        }
    }
}

/// How a frame is to go out.
#[derive(Debug, Copy, Clone, PartialEq, Eq, Structural)]
pub enum WritePath {
    /// Not at all: a Close after the connection was closed.
    Skip,
    /// Header and payload in one vectored write.
    Vectored,
    /// Header and payload copied into the write buffer, then written.
    Buffered,
}

impl WriteHalf {
    /// A write half for a connection in role `role`: open, masking (for a
    /// client), vectored writes for payloads above 1024 bytes, and an empty
    /// write buffer.
    pub fn after_handshake(role: Role) -> (r: Self)
        ensures
            r@ == initial_write_settings(role),
    {
        WriteHalf {
            role,
            closed: false,
            vectored: true,
            auto_apply_mask: true,
            writev_threshold: DEFAULT_WRITEV_THRESHOLD,
            write_buffer: Vec::with_capacity(1024),
        }
    }

    /// Whether a Close has been written.
    pub fn is_closed(&self) -> (r: bool)
        ensures
            r == self@.closed,
    {
        self.closed
    }

    /// Decides how `frame` is written, and prepares it: a client that
    /// applies masks first masks the payload (with the frame's key, or a
    /// fresh random one). Once closed, a Close is skipped and any other
    /// frame refused (`ConnectionClosed`); writing a Close closes the half.
    /// A payload above the threshold goes out vectored when vectored writes
    /// are on, else through the write buffer.
    pub fn begin_write(&mut self, frame: &mut Frame) -> (r: Result<WritePath, WebSocketError>)
        ensures
            final(frame).fin == old(frame).fin,
            final(frame).opcode == old(frame).opcode,
            old(self)@.role == Role::Client && old(self)@.auto_apply_mask ==> {
                &&& final(frame).mask is Some
                &&& old(frame).mask is Some ==> final(frame).mask == old(frame).mask
                &&& final(frame).payload@ == masked(old(frame).payload@, final(frame).mask.unwrap())
            },
            !(old(self)@.role == Role::Client && old(self)@.auto_apply_mask) ==> *final(frame)
                == *old(frame),
            old(self)@.closed ==> {
                &&& *final(self) == *old(self)
                &&& r == if old(frame).opcode == OpCode::Close {
                    Ok::<WritePath, WebSocketError>(WritePath::Skip)
                } else {
                    Err(WebSocketError::ConnectionClosed)
                }
            },
            !old(self)@.closed ==> {
                &&& final(self)@ == (WriteSettings {
                    closed: old(frame).opcode == OpCode::Close,
                    ..old(self)@
                })
                &&& r == Ok::<WritePath, WebSocketError>(
                    if old(self)@.vectored && old(frame).payload@.len() > old(self)@.writev_threshold {
                        WritePath::Vectored
                    } else {
                        WritePath::Buffered
                    },
                )
            },
    {
        if self.role == Role::Client && self.auto_apply_mask {
            frame.mask();
        }
        if self.closed {
            if frame.opcode == OpCode::Close {
                return Ok(WritePath::Skip);
            }
            return Err(WebSocketError::ConnectionClosed);
        }
        if frame.opcode == OpCode::Close {
            self.closed = true;
        }
        if self.vectored && frame.payload.len() > self.writev_threshold {
            Ok(WritePath::Vectored)
        } else {
            Ok(WritePath::Buffered)
        }
    }

    /// The wire bytes of `frame` (header, then payload), built at the start
    /// of the write buffer, which grows to at least the payload length plus
    /// 16 bytes and never shrinks.
    pub fn buffer_frame<'a>(&'a mut self, frame: &mut Frame) -> (r: &'a [u8])
        requires
            old(frame).payload@.len() + 16 <= usize::MAX,
        ensures
            final(self)@ == (WriteSettings { write_buffer: final(self)@.write_buffer, ..old(self)@ }),
            final(self)@.write_buffer.subrange(0, r@.len() as int) == r@,
            final(self)@.write_buffer.len() >= old(frame).payload@.len() + 16,
            final(self)@.write_buffer.len() >= old(self)@.write_buffer.len(),
            *final(frame) == *old(frame),
            r@ == frame_head(old(frame).fin, old(frame).opcode, old(frame).mask, old(frame).payload@.len() as usize)
                + old(frame).payload@,
    {
        frame.write(&mut self.write_buffer)
    }
}

/// WebSocket protocol over a stream that has finished the handshake: the
/// stream and its read and write halves.
pub struct WebSocket<S> {
    stream: S,
    write_half: WriteHalf,
    read_half: ReadHalf,
}

/// The read side of a split WebSocket.
pub struct WebSocketRead<S> {
    stream: S,
    read_half: ReadHalf,
}

/// The write side of a split WebSocket.
pub struct WebSocketWrite<S> {
    stream: S,
    write_half: WriteHalf,
}

/// A split WebSocket over separate read and write streams that have
/// finished the handshake.
pub fn after_handshake_split<R, W>(read: R, write: W, role: Role) -> (r: (
    WebSocketRead<R>,
    WebSocketWrite<W>,
))
    ensures
        r.0.spec_stream() == read,
        r.0.spec_read()@ == initial_read_settings(role),
        r.1.spec_stream() == write,
        r.1.spec_write()@ == initial_write_settings(role),
{
    (
        WebSocketRead { stream: read, read_half: ReadHalf::after_handshake(role) },
        WebSocketWrite { stream: write, write_half: WriteHalf::after_handshake(role) },
    )
}

impl<S> WebSocket<S> {
    /// The stream.
    pub closed spec fn spec_stream(&self) -> S {
        self.stream
    }

    /// The read half.
    pub closed spec fn spec_read(&self) -> ReadHalf {
        self.read_half
    }

    /// The write half.
    pub closed spec fn spec_write(&self) -> WriteHalf {
        self.write_half
    }

    /// A WebSocket over `stream`, which has finished the handshake, in role
    /// `role`, with the default settings of both halves.
    pub fn after_handshake(stream: S, role: Role) -> (r: Self)
        ensures
            r.spec_stream() == stream,
            r.spec_read()@ == initial_read_settings(role),
            r.spec_write()@ == initial_write_settings(role),
    {
        WebSocket {
            stream,
            write_half: WriteHalf::after_handshake(role),
            read_half: ReadHalf::after_handshake(role),
        }
    }

    /// Like [`WebSocket::after_handshake`], with `initial_buffer` (bytes
    /// already read off the stream during the upgrade) waiting in the read
    /// buffer, to be parsed before anything read later.
    pub fn after_handshake_with_buffer(stream: S, role: Role, initial_buffer: &[u8]) -> (r: Self)
        requires
            initial_buffer@.len() <= isize::MAX,
        ensures
            r.spec_stream() == stream,
            r.spec_read()@ == (ReadSettings {
                buffer: initial_buffer@,
                ..initial_read_settings(role)
            }),
            r.spec_write()@ == initial_write_settings(role),
    {
        let mut read_half = ReadHalf::after_handshake(role);
        if initial_buffer.len() > 0 {
            bytes_extend(&mut read_half.buffer, initial_buffer);
        }
        assert(read_half@.buffer =~= initial_buffer@);
        WebSocket { stream, write_half: WriteHalf::after_handshake(role), read_half }
    }

    /// The stream and the two halves, borrowed apart.
    pub fn parts_mut(&mut self) -> (r: (&mut S, &mut ReadHalf, &mut WriteHalf))
        ensures
            *r.0 == old(self).spec_stream(),
            *r.1 == old(self).spec_read(),
            *r.2 == old(self).spec_write(),
            final(self).spec_stream() == *final(r.0),
            final(self).spec_read() == *final(r.1),
            final(self).spec_write() == *final(r.2),
    {
        (&mut self.stream, &mut self.read_half, &mut self.write_half)
    }

    /// Splits the WebSocket into a read side and a write side, splitting
    /// the stream with `split_fn`.
    pub fn split<R, W>(self, split_fn: impl Fn(S) -> (R, W)) -> (r: (
        WebSocketRead<R>,
        WebSocketWrite<W>,
    ))
        requires
            forall|x: S| call_requires(split_fn, (x,)),
        ensures
            call_ensures(split_fn, (self.spec_stream(),), (r.0.spec_stream(), r.1.spec_stream())),
            r.0.spec_read() == self.spec_read(),
            r.1.spec_write() == self.spec_write(),
    {
        let (stream, read, write) = self.into_parts_internal();
        let (r, w) = split_fn(stream);
        (WebSocketRead { stream: r, read_half: read }, WebSocketWrite { stream: w, write_half: write })
    }

    /// The stream, the WebSocket given up.
    pub fn into_inner(self) -> (r: S)
        ensures
            r == self.spec_stream(),
    {
        self.stream
    }

    /// The stream and the two halves, the WebSocket given up.
    pub fn into_parts_internal(self) -> (r: (S, ReadHalf, WriteHalf))
        ensures
            r == (self.spec_stream(), self.spec_read(), self.spec_write()),
    {
        (self.stream, self.read_half, self.write_half)
    }

    /// Whether to use vectored writes for payloads above the threshold.
    pub fn set_writev(&mut self, vectored: bool)
        ensures
            final(self).spec_stream() == old(self).spec_stream(),
            final(self).spec_read() == old(self).spec_read(),
            final(self).spec_write()@ == (WriteSettings { vectored, ..old(self).spec_write()@ }),
    {
        self.write_half.vectored = vectored;
    }

    /// Payloads above this many bytes are written vectored.
    pub fn set_writev_threshold(&mut self, threshold: usize)
        ensures
            final(self).spec_stream() == old(self).spec_stream(),
            final(self).spec_read() == old(self).spec_read(),
            final(self).spec_write()@ == (WriteSettings {
                writev_threshold: threshold,
                ..old(self).spec_write()@
            }),
    {
        self.write_half.writev_threshold = threshold;
    }

    /// Whether a received Close is answered with a Close.
    pub fn set_auto_close(&mut self, auto_close: bool)
        ensures
            final(self).spec_stream() == old(self).spec_stream(),
            final(self).spec_write() == old(self).spec_write(),
            final(self).spec_read()@ == (ReadSettings { auto_close, ..old(self).spec_read()@ }),
    {
        self.read_half.auto_close = auto_close;
    }

    /// Whether a received Ping is answered with a Pong.
    pub fn set_auto_pong(&mut self, auto_pong: bool)
        ensures
            final(self).spec_stream() == old(self).spec_stream(),
            final(self).spec_write() == old(self).spec_write(),
            final(self).spec_read()@ == (ReadSettings { auto_pong, ..old(self).spec_read()@ }),
    {
        self.read_half.auto_pong = auto_pong;
    }

    /// Frames and messages with more bytes than this are refused.
    pub fn set_max_message_size(&mut self, max_message_size: usize)
        ensures
            final(self).spec_stream() == old(self).spec_stream(),
            final(self).spec_write() == old(self).spec_write(),
            final(self).spec_read()@ == (ReadSettings {
                max_message_size,
                ..old(self).spec_read()@
            }),
    {
        self.read_half.max_message_size = max_message_size;
    }

    /// Whether masks are applied: received payloads unmasked by a server,
    /// written payloads masked by a client.
    pub fn set_auto_apply_mask(&mut self, auto_apply_mask: bool)
        ensures
            final(self).spec_stream() == old(self).spec_stream(),
            final(self).spec_read()@ == (ReadSettings {
                auto_apply_mask,
                ..old(self).spec_read()@
            }),
            final(self).spec_write()@ == (WriteSettings {
                auto_apply_mask,
                ..old(self).spec_write()@
            }),
    {
        self.read_half.auto_apply_mask = auto_apply_mask;
        self.write_half.auto_apply_mask = auto_apply_mask;
    }

    /// Whether a Close has been written.
    pub fn is_closed(&self) -> (r: bool)
        ensures
            r == self.spec_write()@.closed,
    {
        self.write_half.closed
    }
}

impl<S> WebSocketRead<S> {
    /// The stream.
    pub closed spec fn spec_stream(&self) -> S {
        self.stream
    }

    /// The read half.
    pub closed spec fn spec_read(&self) -> ReadHalf {
        self.read_half
    }

    /// The stream and the read half, the reader given up.
    pub fn into_parts_internal(self) -> (r: (S, ReadHalf))
        ensures
            r == (self.spec_stream(), self.spec_read()),
    {
        (self.stream, self.read_half)
    }

    /// The stream and the read half, borrowed apart.
    pub fn parts_mut(&mut self) -> (r: (&mut S, &mut ReadHalf))
        ensures
            *r.0 == old(self).spec_stream(),
            *r.1 == old(self).spec_read(),
            final(self).spec_stream() == *final(r.0),
            final(self).spec_read() == *final(r.1),
    {
        (&mut self.stream, &mut self.read_half)
    }

    /// Has no effect on a read side.
    pub fn set_writev_threshold(&mut self, _threshold: usize)
        ensures
            *final(self) == *old(self),
    {
    }

    /// Whether a received Close is answered with a Close.
    pub fn set_auto_close(&mut self, auto_close: bool)
        ensures
            final(self).spec_stream() == old(self).spec_stream(),
            final(self).spec_read()@ == (ReadSettings { auto_close, ..old(self).spec_read()@ }),
    {
        self.read_half.auto_close = auto_close;
    }

    /// Whether a received Ping is answered with a Pong.
    pub fn set_auto_pong(&mut self, auto_pong: bool)
        ensures
            final(self).spec_stream() == old(self).spec_stream(),
            final(self).spec_read()@ == (ReadSettings { auto_pong, ..old(self).spec_read()@ }),
    {
        self.read_half.auto_pong = auto_pong;
    }

    /// Frames and messages with more bytes than this are refused.
    pub fn set_max_message_size(&mut self, max_message_size: usize)
        ensures
            final(self).spec_stream() == old(self).spec_stream(),
            final(self).spec_read()@ == (ReadSettings {
                max_message_size,
                ..old(self).spec_read()@
            }),
    {
        self.read_half.max_message_size = max_message_size;
    }

    /// Whether received payloads are unmasked (by a server).
    pub fn set_auto_apply_mask(&mut self, auto_apply_mask: bool)
        ensures
            final(self).spec_stream() == old(self).spec_stream(),
            final(self).spec_read()@ == (ReadSettings {
                auto_apply_mask,
                ..old(self).spec_read()@
            }),
    {
        self.read_half.auto_apply_mask = auto_apply_mask;
    }
}

impl<S> WebSocketWrite<S> {
    /// The stream.
    pub closed spec fn spec_stream(&self) -> S {
        self.stream
    }

    /// The write half.
    pub closed spec fn spec_write(&self) -> WriteHalf {
        self.write_half
    }

    /// The stream and the write half, borrowed apart.
    pub fn parts_mut(&mut self) -> (r: (&mut S, &mut WriteHalf))
        ensures
            *r.0 == old(self).spec_stream(),
            *r.1 == old(self).spec_write(),
            final(self).spec_stream() == *final(r.0),
            final(self).spec_write() == *final(r.1),
    {
        (&mut self.stream, &mut self.write_half)
    }

    /// Whether to use vectored writes for payloads above the threshold.
    pub fn set_writev(&mut self, vectored: bool)
        ensures
            final(self).spec_stream() == old(self).spec_stream(),
            final(self).spec_write()@ == (WriteSettings { vectored, ..old(self).spec_write()@ }),
    {
        self.write_half.vectored = vectored;
    }

    /// Payloads above this many bytes are written vectored.
    pub fn set_writev_threshold(&mut self, threshold: usize)
        ensures
            final(self).spec_stream() == old(self).spec_stream(),
            final(self).spec_write()@ == (WriteSettings {
                writev_threshold: threshold,
                ..old(self).spec_write()@
            }),
    {
        self.write_half.writev_threshold = threshold;
    }

    /// Whether written payloads are masked (by a client).
    pub fn set_auto_apply_mask(&mut self, auto_apply_mask: bool)
        ensures
            final(self).spec_stream() == old(self).spec_stream(),
            final(self).spec_write()@ == (WriteSettings {
                auto_apply_mask,
                ..old(self).spec_write()@
            }),
    {
        self.write_half.auto_apply_mask = auto_apply_mask;
    }

    /// Whether a Close has been written.
    pub fn is_closed(&self) -> (r: bool)
        ensures
            r == self.spec_write()@.closed,
    {
        self.write_half.closed
    }
}

} // verus!
