use vstd::prelude::*;

use crate::buffer::{bytes_as_mut, bytes_as_slice, bytes_contents, bytes_into_vec};
use crate::error::WebSocketError;
use crate::handshake::random_bytes;
use crate::mask::{masked, unmask};
use crate::text::is_valid_utf8;
use vstd::utf8::valid_utf8;
use vstd::std_specs::cmp::PartialEqSpecImpl;

verus! {

/// The opcode of a WebSocket frame (RFC 6455 section 5.2).
#[derive(Debug, Copy, Clone, PartialEq, Eq, Structural)]
pub enum OpCode {
    Continuation,
    Text,
    Binary,
    Close,
    Ping,
    Pong,
}

/// The 4-bit wire value of an opcode.
pub open spec fn opcode_value(op: OpCode) -> u8 {
    match op {
        OpCode::Continuation => 0x0,
        OpCode::Text => 0x1,
        OpCode::Binary => 0x2,
        OpCode::Close => 0x8,
        OpCode::Ping => 0x9,
        OpCode::Pong => 0xA,
    }
}

/// The opcode whose wire value is `v`, if any.
pub open spec fn opcode_from_value(v: u8) -> Option<OpCode> {
    if v == 0x0 {
        Some(OpCode::Continuation)
    } else if v == 0x1 {
        Some(OpCode::Text)
    } else if v == 0x2 {
        Some(OpCode::Binary)
    } else if v == 0x8 {
        Some(OpCode::Close)
    } else if v == 0x9 {
        Some(OpCode::Ping)
    } else if v == 0xA {
        Some(OpCode::Pong)
    } else {
        None
    }
}

/// Close, Ping and Pong are control frames.
pub open spec fn spec_is_control(op: OpCode) -> bool {
    op == OpCode::Close || op == OpCode::Ping || op == OpCode::Pong
}

impl OpCode {
    /// The wire value of this opcode.
    pub fn to_u8(self) -> (r: u8)
        ensures
            r == opcode_value(self),
    {
        match self {
            OpCode::Continuation => 0x0,
            OpCode::Text => 0x1,
            OpCode::Binary => 0x2,
            OpCode::Close => 0x8,
            OpCode::Ping => 0x9,
            OpCode::Pong => 0xA,
        }
    }
}

impl TryFrom<u8> for OpCode {
    type Error = WebSocketError;

    fn try_from(v: u8) -> (r: Result<OpCode, WebSocketError>) {
        if v == 0x0 {
            Ok(OpCode::Continuation)
        } else if v == 0x1 {
            Ok(OpCode::Text)
        } else if v == 0x2 {
            Ok(OpCode::Binary)
        } else if v == 0x8 {
            Ok(OpCode::Close)
        } else if v == 0x9 {
            Ok(OpCode::Ping)
        } else if v == 0xA {
            Ok(OpCode::Pong)
        } else {
            Err(WebSocketError::InvalidValue)
        }
    }
}

impl vstd::std_specs::convert::TryFromSpecImpl<u8> for OpCode {
    open spec fn obeys_try_from_spec() -> bool {
        true
    }

    open spec fn try_from_spec(v: u8) -> Result<OpCode, WebSocketError> {
        match opcode_from_value(v) {
            Some(op) => Ok(op),
            None => Err(WebSocketError::InvalidValue),
        }
    }
}

/// The wire value of an opcode reads back as that opcode, and a value that
/// reads as an opcode is that opcode's wire value.
pub proof fn lemma_opcode_value_roundtrip(op: OpCode, v: u8)
    ensures
        opcode_from_value(opcode_value(op)) == Some(op),
        opcode_from_value(v) matches Some(o) ==> opcode_value(o) == v,
{
}

/// Whether `opcode` is a control frame opcode (Close, Ping or Pong).
pub fn is_control(opcode: OpCode) -> (r: bool)
    ensures
        r == spec_is_control(opcode),
{
    match opcode {
        OpCode::Close | OpCode::Ping | OpCode::Pong => true,
        _ => false,
    }
}


/// Result of [`parse_header`].
#[derive(Debug)]
pub enum HeaderParse {
    /// Header is fully parsed; `total_len()` bytes from the start of the
    /// input constitute one frame.
    Complete(Header),
    /// At least `at_least` bytes are needed before retrying.
    Incomplete { at_least: usize },
}

/// A parsed WebSocket frame header. The payload lives at
/// `buf[header_len .. header_len + payload_len]` of the parsed input.
#[derive(Debug, Clone, Copy)]
pub struct Header {
    /// FIN bit (final fragment).
    pub fin: bool,
    /// Frame opcode.
    pub opcode: OpCode,
    /// Masking key if the frame is masked.
    pub mask: Option<[u8; 4]>,
    /// Number of bytes the header occupies: 2 fixed bytes, the extended
    /// length (0, 2 or 8 bytes) and the 4 mask bytes if present.
    pub header_len: usize,
    /// Length of the payload in bytes.
    pub payload_len: usize,
}

impl Header {
    /// Total frame length on the wire, header plus payload.
    pub fn total_len(&self) -> (r: usize)
        requires
            self.header_len + self.payload_len <= usize::MAX,
        ensures
            r == self.header_len + self.payload_len,
    {
        self.header_len + self.payload_len
    }
}

/// Big-endian value of two bytes.
pub open spec fn be16(b0: u8, b1: u8) -> u16 {
    ((b0 as u16) << 8u16) | (b1 as u16)
}

/// Big-endian value of the eight bytes of `b` starting at `o`.
pub open spec fn be64(b: Seq<u8>, o: int) -> u64 {
    ((b[o] as u64) << 56u64) | ((b[o + 1] as u64) << 48u64) | ((b[o + 2] as u64) << 40u64) | ((
    b[o + 3] as u64) << 32u64) | ((b[o + 4] as u64) << 24u64) | ((b[o + 5] as u64) << 16u64) | ((
    b[o + 6] as u64) << 8u64) | (b[o + 7] as u64)
}

/// The four bytes of `b` starting at `o`, as a masking key.
pub open spec fn key_at(b: Seq<u8>, o: int) -> [u8; 4] {
    [b[o], b[o + 1], b[o + 2], b[o + 3]]
}

/// Number of extended-length bytes that the 7-bit length code announces.
pub open spec fn ext_len_bytes(len_code: u8) -> int {
    if len_code < 126 {
        0
    } else if len_code == 126 {
        2
    } else {
        8
    }
}

/// What the header at the start of `buf` says (RFC 6455 section 5.2),
/// whether or not its payload follows: the first two bytes give FIN, the
/// reserved bits, the opcode, the mask bit and the 7-bit length code; an
/// extended 16- or 64-bit big-endian length and the 4-byte masking key may
/// follow.
pub open spec fn spec_parse_head(buf: Seq<u8>) -> Result<HeaderParse, WebSocketError> {
    if buf.len() < 2 {
        Ok(HeaderParse::Incomplete { at_least: 2 })
    } else if buf[0] & 0x70u8 != 0 {
        Err(WebSocketError::ReservedBitsNotZero)
    } else {
        match opcode_from_value(buf[0] & 0x0fu8) {
            None => Err(WebSocketError::InvalidValue),
            Some(op) => {
                let fin = buf[0] & 0x80u8 != 0;
                let masked = buf[1] & 0x80u8 != 0;
                let len_code = buf[1] & 0x7fu8;
                if len_code == 126 && buf.len() < 4 {
                    Ok(HeaderParse::Incomplete { at_least: 4 })
                } else if len_code == 127 && buf.len() < 10 {
                    Ok(HeaderParse::Incomplete { at_least: 10 })
                } else if len_code == 127 && be64(buf, 2) > usize::MAX {
                    Err(WebSocketError::FrameTooLarge)
                } else {
                    let payload_len: usize = if len_code < 126 {
                        len_code as usize
                    } else if len_code == 126 {
                        be16(buf[2], buf[3]) as usize
                    } else {
                        be64(buf, 2) as usize
                    };
                    let mask_off = 2 + ext_len_bytes(len_code);
                    let header_len = mask_off + if masked { 4int } else { 0int };
                    if buf.len() < header_len {
                        Ok(HeaderParse::Incomplete { at_least: header_len as usize })
                    } else if spec_is_control(op) && !fin {
                        Err(WebSocketError::ControlFrameFragmented)
                    } else if op == OpCode::Ping && payload_len > 125 {
                        Err(WebSocketError::PingFrameTooLarge)
                    } else {
                        Ok(
                            HeaderParse::Complete(
                                Header {
                                    fin,
                                    opcode: op,
                                    mask: if masked { Some(key_at(buf, mask_off)) } else { None },
                                    header_len: header_len as usize,
                                    payload_len,
                                },
                            ),
                        )
                    }
                }
            }
        }
    }
}

/// Parses the frame header at the start of `buf`, as soon as the header
/// bytes are there (the payload may still be to come). Only the header's own
/// RFC 6455 invariants are checked (reserved bits, opcode, control-frame
/// fragmentation, ping size).
pub fn parse_head(buf: &[u8]) -> (r: Result<HeaderParse, WebSocketError>)
    ensures
        r == spec_parse_head(buf@),
{
    if buf.len() < 2 {
        return Ok(HeaderParse::Incomplete { at_least: 2 });
    }
    let b0 = buf[0];
    let b1 = buf[1];
    if b0 & 0x70 != 0 {
        return Err(WebSocketError::ReservedBitsNotZero);
    }
    let opcode = match OpCode::try_from(b0 & 0x0f) {
        Ok(op) => op,
        Err(e) => return Err(e),
    };
    let fin = (b0 & 0x80) != 0;
    let masked = (b1 & 0x80) != 0;
    let len_code = b1 & 0x7f;
    assert(len_code <= 127) by (bit_vector)
        requires
            len_code == b1 & 0x7f,
    ;
    let length_bytes: usize;
    let payload_len: usize;
    if len_code < 126 {
        length_bytes = 0;
        payload_len = len_code as usize;
    } else if len_code == 126 {
        if buf.len() < 4 {
            return Ok(HeaderParse::Incomplete { at_least: 4 });
        }
        length_bytes = 2;
        let v: u16 = ((buf[2] as u16) << 8u16) | (buf[3] as u16);
        payload_len = v as usize;
    } else {
        if buf.len() < 10 {
            return Ok(HeaderParse::Incomplete { at_least: 10 });
        }
        let v: u64 = ((buf[2] as u64) << 56u64) | ((buf[3] as u64) << 48u64) | ((buf[4] as u64)
            << 40u64) | ((buf[5] as u64) << 32u64) | ((buf[6] as u64) << 24u64) | ((buf[7] as u64)
            << 16u64) | ((buf[8] as u64) << 8u64) | (buf[9] as u64);
        if v > usize::MAX as u64 {
            return Err(WebSocketError::FrameTooLarge);
        }
        length_bytes = 8;
        payload_len = v as usize;
    }
    let mask_off: usize = 2 + length_bytes;
    let header_len: usize = mask_off + if masked { 4 } else { 0 };
    if buf.len() < header_len {
        return Ok(HeaderParse::Incomplete { at_least: header_len });
    }
    let mask = if masked {
        Some([buf[mask_off], buf[mask_off + 1], buf[mask_off + 2], buf[mask_off + 3]])
    } else {
        None
    };
    if is_control(opcode) && !fin {
        return Err(WebSocketError::ControlFrameFragmented);
    }
    if opcode == OpCode::Ping && payload_len > 125 {
        return Err(WebSocketError::PingFrameTooLarge);
    }
    Ok(HeaderParse::Complete(Header { fin, opcode, mask, header_len, payload_len }))
}


/// Bytes a frame with header `h` takes up, header and payload, or
/// `usize::MAX` when that does not fit in a `usize`.
pub open spec fn frame_total(h: Header) -> usize {
    if h.header_len + h.payload_len <= usize::MAX {
        (h.header_len + h.payload_len) as usize
    } else {
        usize::MAX
    }
}

/// What [`parse_header`] makes of the bytes `buf`: the header at its start,
/// once the whole frame (`total_len()` bytes) is there; until then, how many
/// bytes are needed.
pub open spec fn spec_parse_header(buf: Seq<u8>) -> Result<HeaderParse, WebSocketError> {
    match spec_parse_head(buf) {
        Ok(HeaderParse::Complete(h)) => if h.payload_len > buf.len() - h.header_len {
            Ok(HeaderParse::Incomplete { at_least: frame_total(h) })
        } else {
            Ok(HeaderParse::Complete(h))
        },
        other => other,
    }
}

/// Synchronously parses a WebSocket frame header from a byte slice, without
/// consuming or changing it: `Complete` once at least `total_len()` bytes
/// have been seen and the header is well-formed, `Incomplete` with the
/// number of bytes needed while the slice is too short, an error on a
/// malformed header. Only the header's own RFC 6455 invariants are checked
/// (reserved bits, opcode, control-frame fragmentation, ping size); payload
/// validation is the caller's business.
pub fn parse_header(buf: &[u8]) -> (r: Result<HeaderParse, WebSocketError>)
    ensures
        r == spec_parse_header(buf@),
{
    proof {
        lemma_parse_head_progress(buf@);
    }
    match parse_head(buf) {
        Ok(HeaderParse::Complete(h)) => {
            if h.payload_len > buf.len() - h.header_len {
                let at_least = if h.payload_len <= usize::MAX - h.header_len {
                    h.header_len + h.payload_len
                } else {
                    usize::MAX
                };
                Ok(HeaderParse::Incomplete { at_least })
            } else {
                Ok(HeaderParse::Complete(h))
            }
        },
        other => other,
    }
}

/// A frame payload: borrowed mutably, borrowed, owned, or a buffer split
/// off the read buffer.
pub enum Payload<'a> {
    BorrowedMut(&'a mut [u8]),
    Borrowed(&'a [u8]),
    Owned(Vec<u8>),
    Bytes(bytes::BytesMut),
}

impl<'a> View for Payload<'a> {
    type V = Seq<u8>;

    open spec fn view(&self) -> Seq<u8> {
        match self {
            Payload::BorrowedMut(b) => b@,
            Payload::Borrowed(b) => b@,
            Payload::Owned(v) => v@,
            Payload::Bytes(b) => bytes_contents(*b),
        }
    }
}

impl<'a> Payload<'a> {
    /// The payload bytes.
    pub fn as_slice(&self) -> (r: &[u8])
        ensures
            r@ == self@,
    {
        match self {
            Payload::BorrowedMut(b) => &**b,
            Payload::Borrowed(b) => *b,
            Payload::Owned(v) => v.as_slice(),
            Payload::Bytes(b) => bytes_as_slice(b),
        }
    }

    /// Number of payload bytes.
    pub fn len(&self) -> (r: usize)
        ensures
            r == self@.len(),
    {
        self.as_slice().len()
    }

    /// Mutable access to the payload bytes; a borrowed (read-only) payload is
    /// first copied into an owned buffer.
    pub fn to_mut(&mut self) -> (r: &mut [u8])
        ensures
            r@ == old(self)@,
            final(self)@ == final(r)@,
            *old(self) is Borrowed ==> *final(self) is Owned,
            *old(self) is Owned ==> *final(self) is Owned,
            *old(self) is BorrowedMut ==> *final(self) is BorrowedMut,
            *old(self) is Bytes ==> *final(self) is Bytes,
    {
        if let Payload::Borrowed(b) = self {
            let v = vstd::slice::slice_to_vec(*b);
            *self = Payload::Owned(v);
        }
        match self {
            Payload::BorrowedMut(b) => &mut **b,
            Payload::Owned(v) => v.as_mut_slice(),
            Payload::Bytes(b) => bytes_as_mut(b),
            Payload::Borrowed(_) => vstd::pervasive::unreached(),
        }
    }
}

impl<'a> core::ops::Deref for Payload<'a> {
    type Target = [u8];

    fn deref(&self) -> (r: &[u8])
        ensures
            r@ == self@,
    {
        self.as_slice()
    }
}


impl<'a> From<&'a [u8]> for Payload<'a> {
    fn from(borrowed: &'a [u8]) -> (r: Payload<'a>) {
        Payload::Borrowed(borrowed)
    }
}

impl<'a> vstd::std_specs::convert::FromSpecImpl<&'a [u8]> for Payload<'a> {
    open spec fn obeys_from_spec() -> bool {
        true
    }

    open spec fn from_spec(borrowed: &'a [u8]) -> Payload<'a> {
        Payload::Borrowed(borrowed)
    }
}

impl<'a> From<Vec<u8>> for Payload<'a> {
    fn from(owned: Vec<u8>) -> (r: Payload<'a>) {
        Payload::Owned(owned)
    }
}

impl<'a> vstd::std_specs::convert::FromSpecImpl<Vec<u8>> for Payload<'a> {
    open spec fn obeys_from_spec() -> bool {
        true
    }

    open spec fn from_spec(owned: Vec<u8>) -> Payload<'a> {
        Payload::Owned(owned)
    }
}

impl<'a> From<Payload<'a>> for Vec<u8> {
    fn from(payload: Payload<'a>) -> (r: Vec<u8>)
        ensures
            r@ == payload@,
    {
        match payload {
            Payload::Owned(owned) => owned,
            Payload::Bytes(b) => bytes_into_vec(b),
            other => vstd::slice::slice_to_vec(other.as_slice()),
        }
    }
}

/// A `Vec` is not fixed by its bytes alone (its capacity may differ), so
/// the conversion has no spec-level result; its bytes are stated on `from`.
impl<'a> vstd::std_specs::convert::FromSpecImpl<Payload<'a>> for Vec<u8> {
    open spec fn obeys_from_spec() -> bool {
        false
    }

    open spec fn from_spec(payload: Payload<'a>) -> Vec<u8> {
        vstd::pervasive::arbitrary()
    }
}

/// Whether `a` and `b` hold the same bytes.
fn bytes_eq(a: &[u8], b: &[u8]) -> (r: bool)
    ensures
        r == (a@ == b@),
{
    if a.len() != b.len() {
        return false;
    }
    let mut i: usize = 0;
    while i < a.len()
        invariant
            a@.len() == b@.len(),
            i <= a@.len(),
            forall|j: int| 0 <= j < i ==> a@[j] == b@[j],
        decreases a@.len() - i,
    {
        if a[i] != b[i] {
            return false;
        }
        i = i + 1;
    }
    assert(a@ =~= b@);
    true
}

impl<'a, 'b> PartialEq<&'b [u8]> for Payload<'a> {
    fn eq(&self, other: &&'b [u8]) -> (r: bool) {
        bytes_eq(self.as_slice(), *other)
    }
}

impl<'a, 'b> PartialEqSpecImpl<&'b [u8]> for Payload<'a> {
    open spec fn obeys_eq_spec() -> bool {
        true
    }

    open spec fn eq_spec(&self, other: &&'b [u8]) -> bool {
        self@ == other@
    }
}

impl<'a, 'b, const N: usize> PartialEq<&'b [u8; N]> for Payload<'a> {
    fn eq(&self, other: &&'b [u8; N]) -> (r: bool) {
        bytes_eq(self.as_slice(), other.as_slice())
    }
}

impl<'a, 'b, const N: usize> PartialEqSpecImpl<&'b [u8; N]> for Payload<'a> {
    open spec fn obeys_eq_spec() -> bool {
        true
    }

    open spec fn eq_spec(&self, other: &&'b [u8; N]) -> bool {
        self@ == other@
    }
}

/// Big-endian bytes of a 16-bit value.
pub open spec fn be16_bytes(v: u16) -> Seq<u8> {
    seq![(v >> 8u16) as u8, v as u8]
}

/// Big-endian bytes of a 64-bit value.
pub open spec fn be64_bytes(v: u64) -> Seq<u8> {
    seq![
        (v >> 56u64) as u8,
        (v >> 48u64) as u8,
        (v >> 40u64) as u8,
        (v >> 32u64) as u8,
        (v >> 24u64) as u8,
        (v >> 16u64) as u8,
        (v >> 8u64) as u8,
        v as u8,
    ]
}

/// The first header byte: FIN bit and opcode (reserved bits clear).
pub open spec fn first_byte(fin: bool, op: OpCode) -> u8 {
    (if fin { 0x80u8 } else { 0u8 }) | opcode_value(op)
}

/// Length code and extended length for a payload of `len` bytes, the mask
/// bit set when `masked`: the 7-bit code itself below 126, code 126 and a
/// 16-bit length below 65536, else code 127 and a 64-bit length.
pub open spec fn length_bytes(len: usize, masked: bool) -> Seq<u8> {
    let m: u8 = if masked { 0x80u8 } else { 0u8 };
    if len < 126 {
        seq![(len as u8) | m]
    } else if len < 65536 {
        seq![126u8 | m] + be16_bytes(len as u16)
    } else {
        seq![127u8 | m] + be64_bytes(len as u64)
    }
}

/// The wire header of a frame with the given FIN bit, opcode, optional
/// masking key and payload length.
pub open spec fn frame_head(fin: bool, op: OpCode, mask: Option<[u8; 4]>, len: usize) -> Seq<u8> {
    let base = seq![first_byte(fin, op)] + length_bytes(len, mask is Some);
    match mask {
        Some(m) => base + m@,
        None => base,
    }
}

/// Size facts about [`frame_head`].
pub proof fn lemma_frame_head_len(fin: bool, op: OpCode, mask: Option<[u8; 4]>, len: usize)
    ensures
        frame_head(fin, op, mask, len).len() == 1 + length_bytes(len, mask is Some).len() + if mask is Some { 4int } else { 0int },
        length_bytes(len, mask is Some).len() == if len < 126 { 1int } else if len < 65536 { 3int } else { 9int },
        2 <= frame_head(fin, op, mask, len).len() <= 14,
{
}

/// Writes the length code (mask bit as given) and extended length into
/// `head[1..]`, returning the index just past them.
pub(crate) fn put_length(head: &mut [u8], len: usize, masked: bool) -> (r: usize)
    requires
        old(head)@.len() >= 1 + length_bytes(len, masked).len(),
    ensures
        r == 1 + length_bytes(len, masked).len(),
        final(head)@.len() == old(head)@.len(),
        final(head)@[0] == old(head)@[0],
        final(head)@.subrange(1, r as int) == length_bytes(len, masked),
        forall|j: int| r <= j < old(head)@.len() ==> final(head)@[j] == old(head)@[j],
{
    let m: u8 = if masked { 0x80u8 } else { 0u8 };
    if len < 126 {
        head[1] = (len as u8) | m;
        assert(head@.subrange(1, 2) =~= length_bytes(len, masked));
        2
    } else if len < 65536 {
        head[1] = 126u8 | m;
        let v: u16 = len as u16;
        head[2] = (v >> 8u16) as u8;
        head[3] = v as u8;
        assert(head@.subrange(1, 4) =~= length_bytes(len, masked));
        4
    } else {
        head[1] = 127u8 | m;
        let v: u64 = len as u64;
        head[2] = (v >> 56u64) as u8;
        head[3] = (v >> 48u64) as u8;
        head[4] = (v >> 40u64) as u8;
        head[5] = (v >> 32u64) as u8;
        head[6] = (v >> 24u64) as u8;
        head[7] = (v >> 16u64) as u8;
        head[8] = (v >> 8u64) as u8;
        head[9] = v as u8;
        assert(head@.subrange(1, 10) =~= length_bytes(len, masked));
        10
    }
}

/// Represents a WebSocket frame.
pub struct Frame<'f> {
    /// Indicates if this is the final frame in a message.
    pub fin: bool,
    /// The opcode of the frame.
    pub opcode: OpCode,
    /// The masking key of the frame, if any.
    pub mask: Option<[u8; 4]>,
    /// The payload of the frame.
    pub payload: Payload<'f>,
}

/// A fresh random masking key.
fn random_mask() -> [u8; 4] {
    let b = random_bytes();
    [b[0], b[1], b[2], b[3]]
}

impl<'f> Frame<'f> {
    /// Creates a new WebSocket `Frame`.
    pub fn new(fin: bool, opcode: OpCode, mask: Option<[u8; 4]>, payload: Payload<'f>) -> (r: Self)
        ensures
            r.fin == fin,
            r.opcode == opcode,
            r.mask == mask,
            r.payload == payload,
    {
        Frame { fin, opcode, mask, payload }
    }

    /// A final, unmasked Text frame. The payload is not checked for UTF-8.
    pub fn text(payload: Payload<'f>) -> (r: Self)
        ensures
            r.fin,
            r.opcode == OpCode::Text,
            r.mask is None,
            r.payload == payload,
    {
        Frame { fin: true, opcode: OpCode::Text, mask: None, payload }
    }

    /// A final, unmasked Binary frame.
    pub fn binary(payload: Payload<'f>) -> (r: Self)
        ensures
            r.fin,
            r.opcode == OpCode::Binary,
            r.mask is None,
            r.payload == payload,
    {
        Frame { fin: true, opcode: OpCode::Binary, mask: None, payload }
    }

    /// A final, unmasked Close frame whose payload is the big-endian `code`
    /// followed by `reason`. Neither is checked.
    pub fn close(code: u16, reason: &[u8]) -> (r: Self)
        ensures
            r.fin,
            r.opcode == OpCode::Close,
            r.mask is None,
            r.payload is Owned,
            r.payload@ == be16_bytes(code) + reason@,
    {
        let mut payload: Vec<u8> = Vec::new();
        payload.push((code >> 8u16) as u8);
        payload.push(code as u8);
        let mut i: usize = 0;
        while i < reason.len()
            invariant
                i <= reason@.len(),
                payload@ == be16_bytes(code) + reason@.subrange(0, i as int),
            decreases reason@.len() - i,
        {
            payload.push(reason[i]);
            i = i + 1;
            assert(reason@.subrange(0, i as int) == reason@.subrange(0, i - 1) + seq![reason@[i - 1]]);
        }
        assert(reason@.subrange(0, reason@.len() as int) == reason@);
        Frame { fin: true, opcode: OpCode::Close, mask: None, payload: Payload::Owned(payload) }
    }

    /// A final, unmasked Close frame with a raw payload.
    pub fn close_raw(payload: Payload<'f>) -> (r: Self)
        ensures
            r.fin,
            r.opcode == OpCode::Close,
            r.mask is None,
            r.payload == payload,
    {
        Frame { fin: true, opcode: OpCode::Close, mask: None, payload }
    }

    /// A final, unmasked Pong frame.
    pub fn pong(payload: Payload<'f>) -> (r: Self)
        ensures
            r.fin,
            r.opcode == OpCode::Pong,
            r.mask is None,
            r.payload == payload,
    {
        Frame { fin: true, opcode: OpCode::Pong, mask: None, payload }
    }

    /// A final, unmasked Ping frame.
    pub fn ping(payload: Payload<'f>) -> (r: Self)
        ensures
            r.fin,
            r.opcode == OpCode::Ping,
            r.mask is None,
            r.payload == payload,
    {
        Frame { fin: true, opcode: OpCode::Ping, mask: None, payload }
    }

    /// Whether the payload is valid UTF-8.
    pub fn is_utf8(&self) -> (r: bool)
        ensures
            r == valid_utf8(self.payload@),
    {
        is_valid_utf8(self.payload.as_slice())
    }

    /// Masks the payload in place: with the frame's own key if it has one,
    /// else with a fresh random key that the frame then carries.
    pub fn mask(&mut self)
        ensures
            final(self).fin == old(self).fin,
            final(self).opcode == old(self).opcode,
            final(self).mask is Some,
            old(self).mask is Some ==> final(self).mask == old(self).mask,
            final(self).payload@ == masked(old(self).payload@, final(self).mask.unwrap()),
    {
        let key = match self.mask {
            Some(m) => m,
            None => random_mask(),
        };
        unmask(self.payload.to_mut(), key);
        self.mask = Some(key);
    }

    /// Formats the frame header into the start of `head` and returns its
    /// size: 2 bytes, plus 2 or 8 extended-length bytes, plus 4 mask bytes
    /// if the frame carries a masking key. The payload is not written.
    pub fn fmt_head(&mut self, head: &mut [u8]) -> (r: usize)
        requires
            old(head)@.len() >= frame_head(
                old(self).fin,
                old(self).opcode,
                old(self).mask,
                old(self).payload@.len() as usize,
            ).len(),
        ensures
            *final(self) == *old(self),
            r == frame_head(old(self).fin, old(self).opcode, old(self).mask, old(self).payload@.len() as usize).len(),
            final(head)@.len() == old(head)@.len(),
            final(head)@.subrange(0, r as int) == frame_head(
                old(self).fin,
                old(self).opcode,
                old(self).mask,
                old(self).payload@.len() as usize,
            ),
            final(head)@.subrange(r as int, final(head)@.len() as int) == old(head)@.subrange(
                r as int,
                old(head)@.len() as int,
            ),
    {
        let ghost h0 = head@;
        let ghost fh = frame_head(self.fin, self.opcode, self.mask, self.payload@.len() as usize);
        proof {
            lemma_frame_head_len(self.fin, self.opcode, self.mask, self.payload@.len() as usize);
        }
        let op = self.opcode.to_u8();
        let fb: u8 = if self.fin { 0x80u8 } else { 0u8 };
        head[0] = fb | op;
        let len = self.payload.len();
        let masked = self.mask.is_some();
        let size = put_length(head, len, masked);
        let r = match self.mask {
            Some(m) => {
                head[size] = m[0];
                head[size + 1] = m[1];
                head[size + 2] = m[2];
                head[size + 3] = m[3];
                size + 4
            },
            None => size,
        };
        assert(head@.subrange(0, r as int) =~= fh);
        assert(head@.subrange(r as int, head@.len() as int) =~= h0.subrange(r as int, h0.len() as int));
        r
    }

    /// Writes the frame (header, then payload as it stands) to the start of
    /// `buf`, growing `buf` to at least payload length + 16 bytes, and returns
    /// the written part.
    pub fn write<'a>(&mut self, buf: &'a mut Vec<u8>) -> (r: &'a [u8])
        requires
            old(self).payload@.len() + 16 <= usize::MAX,
        ensures
            *final(self) == *old(self),
            r@ == frame_head(old(self).fin, old(self).opcode, old(self).mask, old(self).payload@.len() as usize) + old(self).payload@,
            final(buf)@.subrange(0, r@.len() as int) == r@,
            final(buf)@.len() >= old(self).payload@.len() + 16,
            final(buf)@.len() >= old(buf)@.len(),
    {
        let len = self.payload.len();
        proof {
            lemma_frame_head_len(self.fin, self.opcode, self.mask, len);
        }
        if buf.len() < len + 16 {
            buf.resize(len + 16, 0u8);
        }
        let size = self.fmt_head(buf.as_mut_slice());
        let ghost fh = buf@.subrange(0, size as int);
        let ghost blen = buf@.len();
        let p = self.payload.as_slice();
        let mut i: usize = 0;
        while i < len
            invariant
                len == p@.len(),
                size <= 14,
                len + 16 <= usize::MAX,
                i <= len,
                buf@.len() >= len + 16,
                buf@.len() == blen,
                buf@.subrange(0, size as int) == fh,
                forall|j: int| 0 <= j < i ==> buf@[size + j] == p@[j],
            decreases len - i,
        {
            buf[size + i] = p[i];
            i = i + 1;
            assert(buf@.subrange(0, size as int) =~= fh);
        }
        assert(buf@.subrange(0, (size + len) as int) =~= fh + p@);
        let out: &'a [u8] = buf.as_slice();
        vstd::slice::slice_subrange(out, 0, size + len)
    }

    /// Unmasks the payload in place and clears the masking key, so that a
    /// later header carries no mask. Does nothing to an unmasked frame.
    pub fn unmask(&mut self)
        ensures
            final(self).fin == old(self).fin,
            final(self).opcode == old(self).opcode,
            final(self).mask is None,
            old(self).mask is None ==> final(self).payload == old(self).payload,
            old(self).mask is Some ==> final(self).payload@ == masked(
                old(self).payload@,
                old(self).mask.unwrap(),
            ),
    {
        if let Some(key) = self.mask {
            unmask(self.payload.to_mut(), key);
            self.mask = None;
        }
    }
}


proof fn lemma_first_byte(fin: bool, op: OpCode)
    ensures
        first_byte(fin, op) & 0x70u8 == 0,
        first_byte(fin, op) & 0x0fu8 == opcode_value(op),
        (first_byte(fin, op) & 0x80u8 != 0) == fin,
{
    let v = opcode_value(op);
    let f: u8 = if fin { 0x80u8 } else { 0u8 };
    assert(v <= 15);
    assert((f == 0x80u8 || f == 0u8) && v <= 15 ==> (f | v) & 0x70u8 == 0 && (f | v) & 0x0fu8 == v
        && ((f | v) & 0x80u8 != 0) == (f == 0x80u8)) by (bit_vector);
}

proof fn lemma_length_byte(c: u8, masked: bool)
    requires
        c <= 127,
    ensures
        (c | (if masked { 0x80u8 } else { 0u8 })) & 0x7fu8 == c,
        ((c | (if masked { 0x80u8 } else { 0u8 })) & 0x80u8 != 0) == masked,
{
    let m: u8 = if masked { 0x80u8 } else { 0u8 };
    assert((m == 0x80u8 || m == 0u8) && c <= 127 ==> (c | m) & 0x7fu8 == c && ((c | m) & 0x80u8
        != 0) == (m == 0x80u8)) by (bit_vector);
}

proof fn lemma_be16(v: u16)
    ensures
        be16((v >> 8u16) as u8, v as u8) == v,
{
    assert(((((v >> 8u16) as u8) as u16) << 8u16) | ((v as u8) as u16) == v) by (bit_vector);
}

proof fn lemma_be64(v: u64, rest: Seq<u8>)
    ensures
        be64(be64_bytes(v) + rest, 0) == v,
{
    let b = be64_bytes(v) + rest;
    assert(b[0] == (v >> 56u64) as u8);
    assert(b[7] == v as u8);
    assert(((((v >> 56u64) as u8) as u64) << 56u64) | ((((v >> 48u64) as u8) as u64) << 48u64) | ((
    ((v >> 40u64) as u8) as u64) << 40u64) | ((((v >> 32u64) as u8) as u64) << 32u64) | ((((v
        >> 24u64) as u8) as u64) << 24u64) | ((((v >> 16u64) as u8) as u64) << 16u64) | ((((v
        >> 8u64) as u8) as u64) << 8u64) | ((v as u8) as u64) == v) by (bit_vector);
}

/// A header that [`Frame::fmt_head`] writes is parsed back by
/// [`parse_head`] into the same FIN bit, opcode, masking key and payload
/// length, whatever bytes follow it, for every frame that RFC 6455 allows
/// (control frames are final; ping payloads hold at most 125 bytes).
pub proof fn lemma_head_parse_roundtrip(
    fin: bool,
    op: OpCode,
    mask: Option<[u8; 4]>,
    len: usize,
    rest: Seq<u8>,
)
    requires
        spec_is_control(op) ==> fin,
        op == OpCode::Ping ==> len <= 125,
    ensures
        spec_parse_head(frame_head(fin, op, mask, len) + rest) == Ok::<HeaderParse, WebSocketError>(
            HeaderParse::Complete(
                Header {
                    fin,
                    opcode: op,
                    mask,
                    header_len: frame_head(fin, op, mask, len).len() as usize,
                    payload_len: len,
                },
            ),
        ),
{
    let h = frame_head(fin, op, mask, len);
    let b = h + rest;
    let masked = mask is Some;
    lemma_frame_head_len(fin, op, mask, len);
    lemma_first_byte(fin, op);
    assert(b[0] == first_byte(fin, op));
    assert(opcode_from_value(opcode_value(op)) == Some(op));
    if len < 126 {
        lemma_length_byte(len as u8, masked);
        assert(b[1] == (len as u8) | (if masked { 0x80u8 } else { 0u8 }));
        if let Some(m) = mask {
            assert(key_at(b, 2) =~= m);
        }
    } else if len < 65536 {
        lemma_length_byte(126u8, masked);
        assert(b[1] == 126u8 | (if masked { 0x80u8 } else { 0u8 }));
        lemma_be16(len as u16);
        assert(b[2] == ((len as u16) >> 8u16) as u8);
        assert(b[3] == (len as u16) as u8);
        if let Some(m) = mask {
            assert(key_at(b, 4) =~= m);
        }
    } else {
        lemma_length_byte(127u8, masked);
        assert(b[1] == 127u8 | (if masked { 0x80u8 } else { 0u8 }));
        let tail = b.subrange(2, b.len() as int);
        assert(tail =~= be64_bytes(len as u64) + b.subrange(10, b.len() as int));
        lemma_be64(len as u64, b.subrange(10, b.len() as int));
        assert(be64(b, 2) == be64(tail, 0));
        if let Some(m) = mask {
            assert(key_at(b, 10) =~= m);
        }
    }
}

/// [`parse_head`] asks for more bytes only when it has fewer than it asks
/// for, and never for more than the longest header (14 bytes); a complete
/// header fits inside the bytes parsed.
pub proof fn lemma_parse_head_progress(buf: Seq<u8>)
    ensures
        spec_parse_head(buf) matches Ok(HeaderParse::Incomplete { at_least }) ==> buf.len()
            < at_least <= 14,
        spec_parse_head(buf) matches Ok(HeaderParse::Complete(h)) ==> 2 <= h.header_len
            <= buf.len() && h.header_len <= 14,
{
}

/// [`parse_header`] asks for more bytes only when it has fewer than it
/// asks for (or asks for `usize::MAX`, a frame too long to fit in memory);
/// a complete frame (header and payload) fits inside the bytes parsed.
pub proof fn lemma_parse_header_progress(buf: Seq<u8>)
    ensures
        spec_parse_header(buf) matches Ok(HeaderParse::Incomplete { at_least }) ==> buf.len()
            < at_least || at_least == usize::MAX,
        spec_parse_header(buf) matches Ok(HeaderParse::Complete(h)) ==> 2 <= h.header_len
            <= buf.len() && h.header_len <= 14 && h.header_len + h.payload_len <= buf.len(),
{
    lemma_parse_head_progress(buf);
}

/// Once [`parse_head`] has decided (a complete header or an error), more
/// bytes after the input do not change its answer.
pub proof fn lemma_parse_head_prefix_stable(buf: Seq<u8>, extra: Seq<u8>)
    requires
        !(spec_parse_head(buf) is Ok && spec_parse_head(buf).unwrap() is Incomplete),
    ensures
        spec_parse_head(buf + extra) == spec_parse_head(buf),
{
    let b = buf + extra;
    assert(buf.len() >= 2);
    assert(b[0] == buf[0] && b[1] == buf[1]);
    let len_code = buf[1] & 0x7fu8;
    if buf.len() >= 4 {
        assert(b[2] == buf[2] && b[3] == buf[3]);
    }
    if buf.len() >= 10 {
        assert(forall|i: int| 0 <= i < 10 ==> b[i] == buf[i]);
        assert(be64(b, 2) == be64(buf, 2));
    }
    if buf.len() >= 14 {
        assert(forall|i: int| 0 <= i < 14 ==> b[i] == buf[i]);
    }
    if buf.len() >= 6 {
        assert(forall|i: int| 0 <= i < 6 ==> b[i] == buf[i]);
        assert(key_at(b, 2) == key_at(buf, 2));
    }
    if buf.len() >= 8 {
        assert(forall|i: int| 0 <= i < 8 ==> b[i] == buf[i]);
        assert(key_at(b, 4) == key_at(buf, 4));
    }
    if buf.len() >= 14 {
        assert(key_at(b, 10) == key_at(buf, 10));
    }
}

/// A frame as [`Frame::write`] writes it (header, then payload) parses
/// back with [`parse_header`] into the same FIN bit, opcode, masking key
/// and payload length, as a whole frame of exactly the bytes written, whose
/// payload follows the header; for every frame that RFC 6455 allows
/// (control frames are final; ping payloads hold at most 125 bytes) and
/// that [`Frame::write`] can write (payload length plus 16 fits in usize).
pub proof fn lemma_written_frame_parses_back(
    fin: bool,
    op: OpCode,
    mask: Option<[u8; 4]>,
    payload: Seq<u8>,
)
    requires
        payload.len() + 16 <= usize::MAX,
        spec_is_control(op) ==> fin,
        op == OpCode::Ping ==> payload.len() <= 125,
    ensures
        ({
            let head = frame_head(fin, op, mask, payload.len() as usize);
            let w = head + payload;
            let h = Header {
                fin,
                opcode: op,
                mask,
                header_len: head.len() as usize,
                payload_len: payload.len() as usize,
            };
            &&& spec_parse_header(w) == Ok::<HeaderParse, WebSocketError>(HeaderParse::Complete(h))
            &&& frame_total(h) == w.len()
            &&& w.skip(h.header_len as int) == payload
        }),
{
    let head = frame_head(fin, op, mask, payload.len() as usize);
    let w = head + payload;
    lemma_frame_head_len(fin, op, mask, payload.len() as usize);
    lemma_head_parse_roundtrip(fin, op, mask, payload.len() as usize, payload);
    assert(w.skip(head.len() as int) =~= payload);
}

/// Once [`parse_header`] has decided (a whole frame or an error), more
/// bytes after the input do not change its answer.
pub proof fn lemma_parse_header_prefix_stable(buf: Seq<u8>, extra: Seq<u8>)
    requires
        !(spec_parse_header(buf) is Ok && spec_parse_header(buf).unwrap() is Incomplete),
    ensures
        spec_parse_header(buf + extra) == spec_parse_header(buf),
{
    lemma_parse_head_prefix_stable(buf, extra);
}

} // verus!
