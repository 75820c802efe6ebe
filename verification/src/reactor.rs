//! The protocol side of the single-thread reactor: the HTTP upgrade request
//! scan and response, the per-frame handle that user handlers get, and the
//! outbound bytes it queues. The event loop, sockets and queues that drive
//! these stay with the caller.
use vstd::prelude::*;

use crate::accept::{accept_key_bytes, sec_websocket_protocol};
use crate::frame::OpCode;
use crate::text::{ascii_bytes, ascii_of};
use crate::sync_server::{fmt_server_head, server_head};

verus! {

broadcast use vstd::string::group_string_axioms;

/// Handle to a session inside the reactor: its slot in the session table
/// plus one.
#[derive(Debug, Clone, Copy, PartialEq, Eq, Hash)]
pub struct SessionId(pub usize);

/// Per-frame outbound actions queued by the user handler.
#[derive(Default)]
pub struct Outbound {
    /// Set by [`Connection::echo`]: send the frame's payload back.
    pub echo: bool,
    /// Set by [`Connection::close`]: close once queued bytes are written.
    pub close: bool,
    /// Frames queued by [`Connection::send`], headers included.
    pub sends: Vec<u8>,
}

/// Per-frame handle the reactor passes to a [`Handler`]: identifies the
/// session and records what the handler wants sent.
pub struct Connection<'a> {
    pub id: SessionId,
    pub out: &'a mut Outbound,
}

impl<'a> Connection<'a> {
    /// Stable identifier for this session.
    pub fn id(&self) -> (r: SessionId)
        ensures
            r == self.id,
    {
        self.id
    }

    /// Echo this frame's payload back, with the same opcode. Calling it more
    /// than once has no extra effect.
    pub fn echo(&mut self)
        ensures
            final(self).id == old(self).id,
            final(self).out.echo,
            final(self).out.close == old(self).out.close,
            final(self).out.sends == old(self).out.sends,
    {
        self.out.echo = true;
    }

    /// Queue a final, unmasked frame with `opcode` and a copy of `payload`,
    /// after any frames queued before.
    pub fn send(&mut self, opcode: OpCode, payload: &[u8])
        ensures
            final(self).id == old(self).id,
            final(self).out.echo == old(self).out.echo,
            final(self).out.close == old(self).out.close,
            final(self).out.sends@ == old(self).out.sends@ + server_head(opcode, payload@.len() as usize)
                + payload@,
    {
        append_server_frame(&mut self.out.sends, opcode, payload);
    }

    /// Start a graceful close once the queued bytes are written.
    pub fn close(&mut self)
        ensures
            final(self).id == old(self).id,
            final(self).out.echo == old(self).out.echo,
            final(self).out.close,
            final(self).out.sends == old(self).out.sends,
    {
        self.out.close = true;
    }
}

/// Appends a final, unmasked frame with `opcode` and `payload` to `out`.
fn append_server_frame(out: &mut Vec<u8>, opcode: OpCode, payload: &[u8])
    ensures
        final(out)@ == old(out)@ + server_head(opcode, payload@.len() as usize) + payload@,
{
    let mut hdr = [0u8; 10];
    proof {
        crate::frame::lemma_frame_head_len(true, opcode, None, payload@.len() as usize);
    }
    let n = fmt_server_head(&mut hdr, opcode, payload.len());
    out.extend_from_slice(vstd::slice::slice_subrange(&hdr, 0, n));
    out.extend_from_slice(payload);
}

/// User code that implements WebSocket server logic on top of the
/// reactor. All three callbacks run inline on the reactor thread.
pub trait Handler {
    /// Called once per session, after the handshake succeeds.
    fn on_open(&mut self, conn: &mut Connection<'_>) {
    }

    /// Called for each Text or Binary frame; `payload` is the unmasked body,
    /// which the handler may change before calling [`Connection::echo`].
    fn on_frame(&mut self, conn: &mut Connection<'_>, payload: &mut [u8], opcode: OpCode);

    /// Called once per session, after it has closed.
    fn on_close(&mut self, id: SessionId) {
    }
}

/// Whether `b` holds CR LF CR LF (the end of an HTTP head) at `p`.
pub open spec fn blank_line_at(b: Seq<u8>, p: int) -> bool {
    0 <= p && p + 4 <= b.len() && b[p] == 13 && b[p + 1] == 10 && b[p + 2] == 13 && b[p + 3]
        == 10
}

/// The first position at or after `from` where `b` holds CR LF CR LF.
pub open spec fn find_blank_line(b: Seq<u8>, from: int) -> Option<int>
    decreases b.len() - from,
{
    if from < 0 || from + 4 > b.len() {
        None
    } else if blank_line_at(b, from) {
        Some(from)
    } else {
        find_blank_line(b, from + 1)
    }
}

proof fn lemma_find_blank_line_at(b: Seq<u8>, from: int, i: int)
    requires
        0 <= from <= i,
        forall|j: int| from <= j < i ==> !#[trigger] blank_line_at(b, j),
        i + 4 > b.len() || blank_line_at(b, i),
    ensures
        find_blank_line(b, from) == if i + 4 <= b.len() { Some(i) } else { None::<int> },
    decreases i - from,
{
    if from < i {
        lemma_find_blank_line_at(b, from + 1, i);
    }
}

/// The length of the HTTP head at the start of `buf`, up to and including
/// the first CR LF CR LF; `None` while there is none.
pub fn find_double_crlf(buf: &[u8]) -> (r: Option<usize>)
    ensures
        match r {
            Some(e) => 4 <= e <= buf@.len() && find_blank_line(buf@, 0) == Some(e - 4),
            None => find_blank_line(buf@, 0) is None,
        },
{
    let n = buf.len();
    if n < 4 {
        proof {
            lemma_find_blank_line_at(buf@, 0, 0);
        }
        return None;
    }
    let mut i: usize = 0;
    while i <= n - 4
        invariant
            n == buf@.len(),
            n >= 4,
            i <= n - 3,
            forall|j: int| 0 <= j < i ==> !#[trigger] blank_line_at(buf@, j),
        decreases n - i,
    {
        if buf[i] == 13 && buf[i + 1] == 10 && buf[i + 2] == 13 && buf[i + 3] == 10 {
            proof {
                lemma_find_blank_line_at(buf@, 0, i as int);
            }
            return Some(i + 4);
        }
        i = i + 1;
    }
    proof {
        lemma_find_blank_line_at(buf@, 0, i as int);
    }
    None
}

/// Whether `b` holds CR LF at `p`.
pub open spec fn crlf_at(b: Seq<u8>, p: int) -> bool {
    0 <= p && p + 2 <= b.len() && b[p] == 13 && b[p + 1] == 10
}

/// The first position at or after `from` where `b` holds CR LF.
pub open spec fn find_crlf(b: Seq<u8>, from: int) -> Option<int>
    decreases b.len() - from,
{
    if from < 0 || from + 2 > b.len() {
        None
    } else if crlf_at(b, from) {
        Some(from)
    } else {
        find_crlf(b, from + 1)
    }
}

proof fn lemma_find_crlf_at(b: Seq<u8>, from: int, i: int)
    requires
        0 <= from <= i,
        forall|j: int| from <= j < i ==> !#[trigger] crlf_at(b, j),
        i + 2 > b.len() || crlf_at(b, i),
    ensures
        find_crlf(b, from) == if i + 2 <= b.len() { Some(i) } else { None::<int> },
    decreases i - from,
{
    if from < i {
        lemma_find_crlf_at(b, from + 1, i);
    }
}

/// The first position in `from..end` where `b` holds the byte `x`.
pub open spec fn find_byte(b: Seq<u8>, from: int, end: int, x: u8) -> Option<int>
    decreases end - from,
{
    if from >= end {
        None
    } else if b[from] == x {
        Some(from)
    } else {
        find_byte(b, from + 1, end, x)
    }
}

proof fn lemma_find_byte_at(b: Seq<u8>, from: int, end: int, x: u8, i: int)
    requires
        from <= i <= end,
        forall|j: int| from <= j < i ==> b[j] != x,
        i == end || b[i] == x,
    ensures
        find_byte(b, from, end, x) == if i < end { Some(i) } else { None::<int> },
    decreases i - from,
{
    if from < i {
        lemma_find_byte_at(b, from + 1, end, x, i);
    }
}

/// `c` with ASCII upper-case letters mapped to lower case.
pub open spec fn ascii_lower(c: u8) -> u8 {
    if 65 <= c <= 90 {
        (c + 32) as u8
    } else {
        c
    }
}

/// Whether `a` and `b` are equal when ASCII letters are compared without
/// regard to case.
pub open spec fn eq_ignore_ascii_case(a: Seq<u8>, b: Seq<u8>) -> bool {
    a.len() == b.len() && forall|i: int| 0 <= i < a.len() ==> ascii_lower(a[i]) == ascii_lower(
        b[i],
    )
}

/// The first position in `from..end` that is neither a space nor a tab.
pub open spec fn skip_blanks(b: Seq<u8>, from: int, end: int) -> int
    decreases end - from,
{
    if from < end && (b[from] == 32 || b[from] == 9) {
        skip_blanks(b, from + 1, end)
    } else {
        from
    }
}

/// The end of the line that starts at `start`: the next CR LF, or the end
/// of `b`.
pub open spec fn line_end(b: Seq<u8>, start: int) -> int {
    match find_crlf(b, start) {
        Some(p) => p,
        None => b.len() as int,
    }
}

pub proof fn lemma_find_crlf_bound(b: Seq<u8>, from: int)
    requires
        0 <= from,
    ensures
        find_crlf(b, from) matches Some(p) ==> from <= p && p + 2 <= b.len(),
    decreases b.len() - from,
{
    if from + 2 <= b.len() && !crlf_at(b, from) {
        lemma_find_crlf_bound(b, from + 1);
    }
}

/// Where the value of header `name` lies in the HTTP head `b`, looking at
/// the lines from `start` on: the first line whose text before its first
/// `:` equals `name` (ASCII case ignored) gives the rest of that line with
/// leading spaces and tabs skipped.
pub open spec fn header_value_from(b: Seq<u8>, name: Seq<u8>, start: int) -> Option<(int, int)>
    decreases b.len() + 2 - start,
{
    if start < 0 || start >= b.len() {
        None
    } else {
        let e = line_end(b, start);
        proof {
            lemma_find_crlf_bound(b, start);
        }
        match find_byte(b, start, e, 58u8) {
            Some(c) => if eq_ignore_ascii_case(b.subrange(start, c), name) {
                Some((skip_blanks(b, c + 1, e), e))
            } else {
                header_value_from(b, name, e + 2)
            },
            None => header_value_from(b, name, e + 2),
        }
    }
}

fn find_crlf_from(buf: &[u8], from: usize) -> (r: Option<usize>)
    requires
        from <= buf@.len(),
    ensures
        match r {
            Some(p) => from <= p && p + 2 <= buf@.len() && find_crlf(buf@, from as int) == Some(
                p as int,
            ),
            None => find_crlf(buf@, from as int) is None,
        },
{
    let n = buf.len();
    let mut i = from;
    while i < n && n - i >= 2
        invariant
            n == buf@.len(),
            from <= i <= n,
            forall|j: int| from <= j < i ==> !#[trigger] crlf_at(buf@, j),
        decreases n - i,
    {
        if buf[i] == 13 && buf[i + 1] == 10 {
            proof {
                lemma_find_crlf_at(buf@, from as int, i as int);
            }
            return Some(i);
        }
        i = i + 1;
    }
    proof {
        lemma_find_crlf_at(buf@, from as int, i as int);
    }
    None
}

fn find_byte_in(buf: &[u8], from: usize, end: usize, x: u8) -> (r: Option<usize>)
    requires
        from <= end <= buf@.len(),
    ensures
        match r {
            Some(p) => from <= p < end && find_byte(buf@, from as int, end as int, x) == Some(
                p as int,
            ),
            None => find_byte(buf@, from as int, end as int, x) is None,
        },
{
    let mut i = from;
    while i < end
        invariant
            from <= i <= end <= buf@.len(),
            forall|j: int| from <= j < i ==> buf@[j] != x,
        decreases end - i,
    {
        if buf[i] == x {
            proof {
                lemma_find_byte_at(buf@, from as int, end as int, x, i as int);
            }
            return Some(i);
        }
        i = i + 1;
    }
    proof {
        lemma_find_byte_at(buf@, from as int, end as int, x, i as int);
    }
    None
}

fn to_ascii_lower(c: u8) -> (r: u8)
    ensures
        r == ascii_lower(c),
{
    if 65 <= c && c <= 90 {
        c + 32
    } else {
        c
    }
}

/// `buf[from..to]` and `name` compared with ASCII case ignored.
pub(crate) fn range_eq_ignore_ascii_case(buf: &[u8], from: usize, to: usize, name: &[u8]) -> (r: bool)
    requires
        from <= to <= buf@.len(),
    ensures
        r == eq_ignore_ascii_case(buf@.subrange(from as int, to as int), name@),
{
    if to - from != name.len() {
        return false;
    }
    let mut i: usize = 0;
    while i < name.len()
        invariant
            from <= to <= buf@.len(),
            to - from == name@.len(),
            i <= name@.len(),
            forall|j: int| 0 <= j < i ==> ascii_lower(buf@[from + j]) == ascii_lower(name@[j]),
        decreases name@.len() - i,
    {
        if to_ascii_lower(buf[from + i]) != to_ascii_lower(name[i]) {
            return false;
        }
        i = i + 1;
    }
    true
}

fn skip_blanks_in(buf: &[u8], from: usize, end: usize) -> (r: usize)
    requires
        from <= end <= buf@.len(),
    ensures
        r == skip_blanks(buf@, from as int, end as int),
        from <= r <= end,
    decreases end - from,
{
    if from < end && (buf[from] == 32 || buf[from] == 9) {
        skip_blanks_in(buf, from + 1, end)
    } else {
        from
    }
}

/// The value of header `name` in the HTTP head `buf`: on the first line
/// whose field name equals `name` (ASCII case ignored), the text after the
/// `:`, leading spaces and tabs skipped, up to the end of the line.
pub fn find_header_value<'a>(buf: &'a [u8], name: &[u8]) -> (r: Option<&'a [u8]>)
    ensures
        match header_value_from(buf@, name@, 0) {
            Some((vs, ve)) => r matches Some(v) && v@ == buf@.subrange(vs, ve),
            None => r is None,
        },
{
    let n = buf.len();
    let mut start: usize = 0;
    while start < n
        invariant
            n == buf@.len(),
            header_value_from(buf@, name@, start as int) == header_value_from(buf@, name@, 0),
        decreases n - start,
    {
        proof {
            lemma_find_crlf_bound(buf@, start as int);
        }
        let e = match find_crlf_from(buf, start) {
            Some(p) => p,
            None => n,
        };
        assert(e == line_end(buf@, start as int));
        if let Some(c) = find_byte_in(buf, start, e, 58) {
            if range_eq_ignore_ascii_case(buf, start, c, name) {
                let vs = skip_blanks_in(buf, c + 1, e);
                assert(header_value_from(buf@, name@, start as int) == Some((vs as int, e as int)));
                return Some(vstd::slice::slice_subrange(buf, vs, e));
            }
        }
        assert(header_value_from(buf@, name@, start as int) == header_value_from(
            buf@,
            name@,
            e + 2,
        ));
        if e >= n {
            assert(header_value_from(buf@, name@, e + 2) is None);
            return None;
        }
        start = e + 2;
    }
    None
}

/// The `Sec-WebSocket-Accept` value for `key`, as its 28 ASCII bytes.
pub fn sec_websocket_accept(key: &[u8]) -> (r: [u8; 28])
    ensures
        r@ == accept_key_bytes(key@),
{
    let text = sec_websocket_protocol(key);
    let bytes = text.as_str().as_bytes();
    proof {
        vstd::utf8::is_ascii_chars_encode_utf8(text@);
    }
    let mut out = [0u8; 28];
    let mut i: usize = 0;
    while i < 28
        invariant
            bytes@ == accept_key_bytes(key@),
            bytes@.len() == 28,
            i <= 28,
            forall|j: int| 0 <= j < i ==> out@[j] == bytes@[j],
        decreases 28 - i,
    {
        out[i] = bytes[i];
        i = i + 1;
    }
    assert(out@ =~= bytes@);
    out
}

/// The start of the 101 response to an upgrade request; the accept value
/// and a blank line follow it.
pub const HANDSHAKE_RESPONSE_PREFIX: &'static str = "HTTP/1.1 101 Switching Protocols\r\nconnection: upgrade\r\nupgrade: websocket\r\nsec-websocket-accept: ";

/// The 101 response that accepts an upgrade request with key `key`.
pub open spec fn upgrade_response(key: Seq<u8>) -> Seq<u8> {
    vstd::utf8::encode_utf8(HANDSHAKE_RESPONSE_PREFIX@) + accept_key_bytes(key) + seq![13u8, 10u8, 13u8, 10u8]
}

/// What the reactor does with the bytes of an upgrade request received so
/// far.
pub enum UpgradeReply {
    /// The request head is not complete yet.
    Incomplete,
    /// The head has no `Sec-WebSocket-Key`: the session is dropped.
    Reject,
    /// Send `response`; WebSocket frames start `consumed` bytes in.
    Accept { response: Vec<u8>, consumed: usize },
}

/// Answers an HTTP upgrade request whose bytes so far are `buf`: nothing
/// until the head (up to the first blank line) is complete; then the 101
/// response carrying the accept value for its `Sec-WebSocket-Key`, or a
/// refusal when it has none. Nothing else in the head is checked.
pub fn upgrade_reply(buf: &[u8]) -> (r: UpgradeReply)
    ensures
        match find_blank_line(buf@, 0) {
            None => r is Incomplete,
            Some(p) => {
                let head = buf@.subrange(0, p + 4);
                match header_value_from(head, ascii_bytes(SEC_WEBSOCKET_KEY), 0) {
                    None => r is Reject,
                    Some((vs, ve)) => r matches UpgradeReply::Accept { response, consumed } && consumed == p + 4
                        && response@ == upgrade_response(head.subrange(vs, ve)),
                }
            },
        },
{
    let eom = match find_double_crlf(buf) {
        None => {
            return UpgradeReply::Incomplete;
        },
        Some(e) => e,
    };
    let head = vstd::slice::slice_subrange(buf, 0, eom);
    proof {
        reveal_strlit("Sec-WebSocket-Key");
    }
    let name = ascii_of(SEC_WEBSOCKET_KEY);
    let key = match find_header_value(head, name.as_slice()) {
        None => {
            return UpgradeReply::Reject;
        },
        Some(k) => k,
    };
    let accept = sec_websocket_accept(key);
    let prefix = HANDSHAKE_RESPONSE_PREFIX.as_bytes();
    let mut response: Vec<u8> = Vec::new();
    response.extend_from_slice(prefix);
    response.extend_from_slice(&accept);
    response.push(13);
    response.push(10);
    response.push(13);
    response.push(10);
    assert(response@ =~= upgrade_response(key@));
    UpgradeReply::Accept { response, consumed: eom }
}

/// The header that carries the client's key.
pub const SEC_WEBSOCKET_KEY: &'static str = "Sec-WebSocket-Key";


/// Where a session of the reactor stands.
#[derive(Debug, Clone, Copy, PartialEq, Eq, Structural)]
pub enum Phase {
    /// Waiting for the HTTP upgrade request.
    Handshake,
    /// Exchanging WebSocket frames.
    Echoing,
    /// Closing: nothing more is read, queued bytes are still written.
    Closed,
}

/// Work posted to a running reactor from another thread.
pub enum Command {
    /// Send a final, unmasked frame with `opcode` and `payload`.
    Send { id: SessionId, opcode: OpCode, payload: Vec<u8> },
    /// Close the session once its queued bytes are written.
    Close { id: SessionId },
}

/// What the reactor does with a command for a session it still has.
pub enum CommandPlan {
    /// Nothing: the session has not finished its handshake, or is closing.
    Ignore,
    /// Append these bytes (a whole frame) to the session's write queue.
    Queue(Vec<u8>),
    /// Drop the session now and report it closed: nothing is left to write.
    Drop,
    /// Keep the session, now closing, until its write queue is drained.
    DrainThenDrop,
}

/// Decides what a command does to a session in `phase` whose write queue
/// is empty or not: a Send to a session past its handshake and not closing
/// queues the frame (header and payload), and is ignored otherwise; a Close
/// marks the session closing and drops it at once when nothing is queued,
/// else once the queue drains. Returns the session's next phase and the plan.
pub fn plan_command(phase: Phase, queue_empty: bool, cmd: Command) -> (r: (Phase, CommandPlan))
    ensures
        match cmd {
            Command::Send { opcode, payload, .. } => if phase == Phase::Echoing {
                &&& r.0 == phase
                &&& r.1 matches CommandPlan::Queue(b) && b@ == server_head(
                    opcode,
                    payload@.len() as usize,
                ) + payload@
            } else {
                r.0 == phase && r.1 is Ignore
            },
            Command::Close { .. } => r.0 == Phase::Closed && if queue_empty {
                r.1 is Drop
            } else {
                r.1 is DrainThenDrop
            },
        },
{
    match cmd {
        Command::Send { opcode, payload, .. } => {
            if phase == Phase::Handshake || phase == Phase::Closed {
                return (phase, CommandPlan::Ignore);
            }
            let mut bytes: Vec<u8> = Vec::new();
            append_server_frame(&mut bytes, opcode, payload.as_slice());
            assert(bytes@ =~= server_head(opcode, payload@.len() as usize) + payload@);
            (phase, CommandPlan::Queue(bytes))
        },
        Command::Close { .. } => {
            if queue_empty {
                (Phase::Closed, CommandPlan::Drop)
            } else {
                (Phase::Closed, CommandPlan::DrainThenDrop)
            }
        },
    }
}

/// What the reactor does next with a session that has bytes to read.
pub enum SessionAction {
    /// The upgrade request is not complete yet: keep the bytes and wait.
    Wait,
    /// The upgrade request has no key: drop the session.
    Close,
    /// Go on: send `response` (the 101 answer, when the handshake was just
    /// accepted), then fire the handler's `on_open` when `open`, then read
    /// WebSocket frames from byte `frames_at` of what was read.
    Proceed { response: Option<Vec<u8>>, frames_at: usize, open: bool },
}

/// The outcome of one session step in `phase`, with `on_open` still to
/// fire when `needs_open`, given `reply`: the next phase, whether `on_open`
/// is still to fire, whether the session goes on, and whether `on_open`
/// fires in this step.
pub open spec fn session_next(phase: Phase, needs_open: bool, reply: UpgradeReply) -> (
    Phase,
    bool,
    bool,
    bool,
) {
    if phase != Phase::Handshake {
        (phase, false, true, needs_open)
    } else {
        match reply {
            UpgradeReply::Accept { .. } => (Phase::Echoing, false, true, needs_open),
            _ => (phase, needs_open, false, false),
        }
    }
}

/// The phase and the `needs_open` flag of a session after the first `n`
/// steps of a run from `(phase, needs_open)` over `replies`.
pub open spec fn session_after(phase: Phase, needs_open: bool, replies: Seq<UpgradeReply>, n: nat) -> (
    Phase,
    bool,
)
    decreases n,
{
    if n == 0 {
        (phase, needs_open)
    } else {
        let s = session_after(phase, needs_open, replies, (n - 1) as nat);
        let x = session_next(s.0, s.1, replies[n - 1]);
        (x.0, x.1)
    }
}

/// Whether step `i` of that run goes on (and so reads frames).
pub open spec fn session_goes_on_at(
    phase: Phase,
    needs_open: bool,
    replies: Seq<UpgradeReply>,
    i: nat,
) -> bool {
    let s = session_after(phase, needs_open, replies, i);
    session_next(s.0, s.1, replies[i as int]).2
}

/// Whether `on_open` fires in step `i` of that run.
pub open spec fn session_opens_at(phase: Phase, needs_open: bool, replies: Seq<UpgradeReply>, i: nat) -> bool {
    let s = session_after(phase, needs_open, replies, i);
    session_next(s.0, s.1, replies[i as int]).3
}

proof fn lemma_needs_open_until_first_go(
    phase: Phase,
    needs_open: bool,
    replies: Seq<UpgradeReply>,
    n: nat,
)
    requires
        n <= replies.len(),
    ensures
        session_after(phase, needs_open, replies, n).1 == (needs_open && forall|j: nat|
            j < n ==> !#[trigger] session_goes_on_at(phase, needs_open, replies, j)),
    decreases n,
{
    if n > 0 {
        let m = (n - 1) as nat;
        lemma_needs_open_until_first_go(phase, needs_open, replies, m);
        if session_goes_on_at(phase, needs_open, replies, m) {
            assert(!(forall|j: nat| j < n ==> !#[trigger] session_goes_on_at(phase, needs_open, replies, j)));
        } else {
            assert forall|j: nat| j < n && !(j < m) implies !#[trigger] session_goes_on_at(
                phase,
                needs_open,
                replies,
                j,
            ) by {
                assert(j == m);
            }
        }
    }
}

/// Over any run of session steps, `on_open` fires in a step exactly when
/// it had not fired before the run, the session goes on in that step, and
/// in no earlier step: once, in the step that accepts the handshake (or the
/// first step past it), before that step reads any frame; never again.
pub proof fn lemma_open_fires_once(phase: Phase, needs_open: bool, replies: Seq<UpgradeReply>, i: nat)
    requires
        i < replies.len(),
    ensures
        session_opens_at(phase, needs_open, replies, i) == (needs_open && session_goes_on_at(
            phase,
            needs_open,
            replies,
            i,
        ) && forall|j: nat| j < i ==> !#[trigger] session_goes_on_at(phase, needs_open, replies, j)),
{
    lemma_needs_open_until_first_go(phase, needs_open, replies, i);
}

/// One step of a session with bytes to read, in `phase`, whose `on_open`
/// has not fired yet when `needs_open`, given `reply`, what
/// [`upgrade_reply`] made of the bytes read (looked at only while the
/// handshake is pending). While the handshake is pending, an incomplete
/// request waits and a refused one closes the session, both leaving the
/// state as it is; an accepted one moves to `Echoing`, sends the response
/// and starts the frames after the request. Past the handshake, frames
/// start at the first byte. Whenever the session goes on, `on_open` fires
/// exactly when it had not fired yet, and never again. Returns the next
/// phase, whether `on_open` is still to fire, and the action.
pub fn session_step(phase: Phase, needs_open: bool, reply: UpgradeReply) -> (r: (
    Phase,
    bool,
    SessionAction,
))
    ensures
        r.0 == session_next(phase, needs_open, reply).0,
        r.1 == session_next(phase, needs_open, reply).1,
        (r.2 is Proceed) == session_next(phase, needs_open, reply).2,
        r.2 matches SessionAction::Proceed { open, .. } ==> open == session_next(phase, needs_open, reply).3,
        phase == Phase::Handshake ==> match reply {
            UpgradeReply::Incomplete => r.0 == phase && r.1 == needs_open && r.2 is Wait,
            UpgradeReply::Reject => r.0 == phase && r.1 == needs_open && r.2 is Close,
            UpgradeReply::Accept { response, consumed } => {
                &&& r.0 == Phase::Echoing
                &&& !r.1
                &&& r.2 matches SessionAction::Proceed { response: Some(b), frames_at, open }
                    && b@ == response@ && frames_at == consumed && open == needs_open
            },
        },
        phase != Phase::Handshake ==> {
            &&& r.0 == phase
            &&& !r.1
            &&& r.2 matches SessionAction::Proceed { response: None, frames_at, open }
                && frames_at == 0 && open == needs_open
        },
{
    if phase != Phase::Handshake {
        return (phase, false, SessionAction::Proceed { response: None, frames_at: 0, open: needs_open });
    }
    match reply {
        UpgradeReply::Incomplete => (phase, needs_open, SessionAction::Wait),
        UpgradeReply::Reject => (phase, needs_open, SessionAction::Close),
        UpgradeReply::Accept { response, consumed } => (
            Phase::Echoing,
            false,
            SessionAction::Proceed { response: Some(response), frames_at: consumed, open: needs_open },
        ),
    }
}

} // verus!
