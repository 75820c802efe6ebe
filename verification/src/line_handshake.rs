//! A line-oriented server handshake: the key picked out of the request's
//! header lines, and the 101 response text for it.
use vstd::prelude::*;

use crate::accept::{accept_key, sec_websocket_protocol};
use crate::extensions::{
    find_char, find_in, is_unicode_whitespace, lemma_find_char_bound, split_chars, trim_chars,
    trim_end_chars, trim_start_chars, trimmed, trim_range,
};
use crate::text::{chars_of, str_eq};

verus! {

broadcast use vstd::string::group_string_axioms;

/// What a request line carrying the key starts with.
pub const KEY_LINE_PREFIX: &'static str = "Sec-WebSocket-Key:";

/// The error for a request without a key line.
pub const MISSING_KEY: &'static str = "Invalid request: missing Sec-WebSocket-Key header";

/// Whether `line` starts with `Sec-WebSocket-Key:`.
pub open spec fn is_key_line(line: Seq<char>) -> bool {
    line.len() >= KEY_LINE_PREFIX@.len() && line.take(KEY_LINE_PREFIX@.len() as int)
        == KEY_LINE_PREFIX@
}

/// The key on a key line: the line trimmed, the text between its first
/// and second `:` (or its end), trimmed.
pub open spec fn key_of_line(line: Seq<char>) -> Seq<char> {
    trim_chars(split_chars(trim_chars(line), ':')[1])
}

/// The position of the first key line among `lines`, if any.
pub open spec fn first_key_line(lines: Seq<Seq<char>>) -> Option<int>
    decreases lines.len(),
{
    if lines.len() == 0 {
        None
    } else if is_key_line(lines[0]) {
        Some(0)
    } else {
        match first_key_line(lines.drop_first()) {
            Some(i) => Some(i + 1),
            None => None,
        }
    }
}

proof fn lemma_first_key_line_at(lines: Seq<Seq<char>>, i: int)
    requires
        0 <= i <= lines.len(),
        forall|j: int| 0 <= j < i ==> !is_key_line(#[trigger] lines[j]),
        i == lines.len() || is_key_line(lines[i]),
    ensures
        first_key_line(lines) == if i < lines.len() { Some(i) } else { None::<int> },
    decreases i,
{
    if i > 0 {
        lemma_first_key_line_at(lines.drop_first(), i - 1);
    }
}

/// Trimming the end keeps every character up to one that is not white
/// space.
proof fn lemma_trim_end_keeps(s: Seq<char>, k: int)
    requires
        0 <= k < s.len(),
        !is_unicode_whitespace(s[k]),
    ensures
        k < trim_end_chars(s).len() <= s.len(),
        trim_end_chars(s) == s.take(trim_end_chars(s).len() as int),
    decreases s.len(),
{
    if is_unicode_whitespace(s.last()) {
        assert(s.drop_last()[k] == s[k]);
        lemma_trim_end_keeps(s.drop_last(), k);
        assert(s.drop_last().take(trim_end_chars(s).len() as int) =~= s.take(
            trim_end_chars(s).len() as int,
        ));
    } else {
        assert(s.take(s.len() as int) =~= s);
    }
}

/// The pieces of `s` split at `c` start with the text before the first `c`.
proof fn lemma_split_first(s: Seq<char>, c: char)
    ensures
        split_chars(s, c).len() >= 1,
        split_chars(s, c)[0] == match find_char(s, c) {
            Some(i) => s.take(i),
            None => s,
        },
{
    lemma_find_char_bound(s, c);
}

/// The key of a key line, out of `line`.
fn line_key(line: &str) -> (r: String)
    requires
        is_key_line(line@),
    ensures
        r@ == key_of_line(line@),
{
    proof {
        reveal_strlit("Sec-WebSocket-Key:");
    }
    let cs = chars_of(line);
    let n = cs.len();
    assert(cs@.subrange(0, n as int) =~= line@);
    let (a, b) = trim_range(&cs, 0, n);
    let ghost t = cs@.subrange(a as int, b as int);
    proof {
        assert(line@.take(18)[0] == 'S');
        assert(line@.take(18)[17] == ':');
        assert(trim_start_chars(line@) == line@);
        lemma_trim_end_keeps(line@, 17);
        assert(t == trim_chars(line@));
        assert forall|j: int| 0 <= j < 17 implies t[j] != ':' by {
            assert(t[j] == line@[j]);
            assert(line@[j] == line@.take(18)[j]);
        }
        assert(t[17] == ':');
        crate::extensions::lemma_find_char_at(t, ':', 17);
    }
    let c = match find_in(&cs, a, b, ':') {
        Some(c) => c,
        None => {
            proof {
                assert(false);
            }
            0
        },
    };
    let e = match find_in(&cs, c + 1, b, ':') {
        Some(e) => e,
        None => b,
    };
    proof {
        let u = t.skip(c - a + 1);
        assert(u =~= cs@.subrange(c + 1, b as int));
        assert(split_chars(t, ':')[1] == split_chars(u, ':')[0]);
        lemma_split_first(u, ':');
        assert(split_chars(u, ':')[0] =~= cs@.subrange(c + 1, e as int));
    }
    let k = trimmed(line, &cs, c + 1, e);
    String::from_str(k)
}

/// Whether `line` starts with `Sec-WebSocket-Key:`.
fn starts_with_key_prefix(line: &str) -> (r: bool)
    ensures
        r == is_key_line(line@),
{
    let cs = chars_of(line);
    let ps = chars_of(KEY_LINE_PREFIX);
    if cs.len() < ps.len() {
        return false;
    }
    let mut i: usize = 0;
    while i < ps.len()
        invariant
            cs@ == line@,
            ps@ == KEY_LINE_PREFIX@,
            ps@.len() <= cs@.len(),
            i <= ps@.len(),
            forall|j: int| 0 <= j < i ==> cs@[j] == ps@[j],
        decreases ps@.len() - i,
    {
        if cs[i] != ps[i] {
            proof {
                assert(line@.take(ps@.len() as int)[i as int] != KEY_LINE_PREFIX@[i as int]);
            }
            return false;
        }
        i = i + 1;
    }
    assert(line@.take(ps@.len() as int) =~= KEY_LINE_PREFIX@);
    true
}

/// The request lines as character sequences.
pub open spec fn lines_view(lines: Seq<String>) -> Seq<Seq<char>> {
    lines.map_values(|l: String| l@)
}

/// The `Sec-WebSocket-Key` value of a request given as its header lines:
/// the key on the first line that starts with `Sec-WebSocket-Key:`, or an
/// error message when there is none.
pub fn extract_key(request: Vec<String>) -> (r: Result<String, &'static str>)
    ensures
        match first_key_line(lines_view(request@)) {
            Some(i) => r matches Ok(k) && k@ == key_of_line(request@[i]@),
            None => r == Err::<String, &'static str>(MISSING_KEY),
        },
{
    let ghost lv = lines_view(request@);
    let mut i: usize = 0;
    while i < request.len()
        invariant
            i <= request@.len(),
            lv == lines_view(request@),
            forall|j: int| 0 <= j < i ==> !is_key_line(#[trigger] lv[j]),
        decreases request@.len() - i,
    {
        let line = request[i].as_str();
        assert(lv[i as int] == request@[i as int]@);
        if starts_with_key_prefix(line) {
            proof {
                lemma_first_key_line_at(lv, i as int);
            }
            return Ok(line_key(line));
        }
        i = i + 1;
    }
    proof {
        lemma_first_key_line_at(lv, i as int);
    }
    Err(MISSING_KEY)
}

/// The 101 response text that accepts a handshake with key `key`.
pub open spec fn handshake_response(key: Seq<u8>) -> Seq<char> {
    RESPONSE_HEAD@ + accept_key(key) + seq!['\r', '\n', '\r', '\n']
}

/// The status line and headers of the response, up to the accept value.
pub const RESPONSE_HEAD: &'static str = "HTTP/1.1 101 Switching Protocols\r\nUpgrade: websocket\r\nConnection: Upgrade\r\nSec-WebSocket-Accept: ";

/// The 101 response that accepts a handshake with key `key`.
pub fn generate_response(key: &str) -> (r: String)
    ensures
        r@ == handshake_response(vstd::utf8::encode_utf8(key@)),
{
    let accept = sec_websocket_protocol(key.as_bytes());
    let mut response = String::from_str(RESPONSE_HEAD);
    response.append(accept.as_str());
    proof {
        reveal_strlit("\r\n\r\n");
    }
    response.append("\r\n\r\n");
    assert(response@ =~= handshake_response(vstd::utf8::encode_utf8(key@)));
    response
}

} // verus!
