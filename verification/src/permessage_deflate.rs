//! Negotiation of the permessage-deflate extension (RFC 7692): the
//! parameters a peer offered, checked and turned into settings, and the
//! settings written back as an extension header value.
use vstd::prelude::*;

use crate::extensions::{
    find_char, is_unicode_whitespace, lemma_find_char_at, param_view, params_view, parse_extension,
    parse_extensions, parse_param, parse_param_list, parse_params, split_chars, trim_chars,
    trim_end_chars, trim_start_chars, ExtensionParam, ParamView, WebSocketExtensionParams,
};
use crate::text::{chars_of, str_eq};

verus! {

broadcast use vstd::string::group_string_axioms;

/// Why an offered permessage-deflate parameter list was refused.
#[derive(Debug, PartialEq)]
pub enum PerMessageDeflateExtensionError {
    InvalidParam,
    Unknown,
}

/// The permessage deflate extension as defined in RFC 7692.
#[derive(Debug, Clone, Copy, PartialEq)]
pub struct PermessageDeflateWebSocketExtension {
    /// Whether the server may keep its compression context between messages.
    pub server_context_takeover: bool,
    /// The "server_max_window_bits" parameter (RFC 7692 section 7.1.2.1).
    pub server_max_window_bits: Option<u8>,
    /// Whether the client may keep its compression context between messages.
    pub client_context_takeover: bool,
    /// The "client_max_window_bits" parameter (RFC 7692 section 7.1.2.2):
    /// absent, present without a value, or present with a value.
    pub client_max_window_bits: Option<Option<u8>>,
}

/// The extension token.
pub const PERMESSAGE_DEFLATE: &'static str = "permessage-deflate";

/// Parameter names (RFC 7692 section 7.1).
pub const SERVER_NO_CONTEXT_TAKEOVER: &'static str = "server_no_context_takeover";

pub const CLIENT_NO_CONTEXT_TAKEOVER: &'static str = "client_no_context_takeover";

pub const SERVER_MAX_WINDOW_BITS: &'static str = "server_max_window_bits";

pub const CLIENT_MAX_WINDOW_BITS: &'static str = "client_max_window_bits";

/// Whether this build of the library compresses messages. It does not
/// (permessage-deflate is not supported yet), so no offer is supported.
pub const DEFLATE_BUILT: bool = false;

/// Whether the deflate backend is miniz_oxide, which cannot use a window
/// other than the default one.
pub const MINIZ_OXIDE_BACKEND: bool = true;

/// Whether `c` is an ASCII decimal digit.
pub open spec fn is_digit(c: char) -> bool {
    '0' <= c <= '9'
}

/// The value of a string of decimal digits.
pub open spec fn decimal_value(d: Seq<char>) -> int
    decreases d.len(),
{
    if d.len() == 0 {
        0
    } else {
        decimal_value(d.drop_last()) * 10 + (d.last() as int - '0' as int)
    }
}

/// `s` without one leading `+`, if it has one.
pub open spec fn unsigned_digits(s: Seq<char>) -> Seq<char> {
    if s.len() > 0 && s[0] == '+' {
        s.drop_first()
    } else {
        s
    }
}

/// Whether every character of `d` is a decimal digit.
pub open spec fn all_digits(d: Seq<char>) -> bool {
    forall|i: int| 0 <= i < d.len() ==> is_digit(#[trigger] d[i])
}

/// What `str::parse::<u8>` makes of `s`: an optional `+`, then one or more
/// decimal digits whose value is at most 255.
pub open spec fn spec_parse_u8(s: Seq<char>) -> Option<u8> {
    let d = unsigned_digits(s);
    if d.len() > 0 && all_digits(d) && decimal_value(d) <= 255 {
        Some(decimal_value(d) as u8)
    } else {
        None
    }
}

proof fn lemma_decimal_nonneg(d: Seq<char>)
    requires
        forall|i: int| 0 <= i < d.len() ==> is_digit(#[trigger] d[i]),
    ensures
        decimal_value(d) >= 0,
    decreases d.len(),
{
    if d.len() > 0 {
        lemma_decimal_nonneg(d.drop_last());
    }
}

/// Parses an unsigned byte in decimal, as `str::parse::<u8>` does.
pub(crate) fn parse_u8(s: &str) -> (r: Option<u8>)
    ensures
        r == spec_parse_u8(s@),
{
    let cs = chars_of(s);
    let n = cs.len();
    let start: usize = if n > 0 && cs[0] == '+' { 1 } else { 0 };
    let ghost d = unsigned_digits(s@);
    assert(d =~= s@.subrange(start as int, n as int));
    if start == n {
        return None;
    }
    // `acc` is the value of the digits so far, or 256 once it exceeds 255.
    let mut acc: u32 = 0;
    let mut i = start;
    while i < n
        invariant
            start <= i <= n,
            n == cs@.len(),
            cs@ == s@,
            d == cs@.subrange(start as int, n as int),
            d == unsigned_digits(s@),
            forall|j: int| start <= j < i ==> is_digit(#[trigger] cs@[j]),
            acc == if decimal_value(cs@.subrange(start as int, i as int)) > 255 {
                256
            } else {
                decimal_value(cs@.subrange(start as int, i as int))
            },
        decreases n - i,
    {
        let c = cs[i];
        if !('0' <= c && c <= '9') {
            proof {
                assert(d[i - start] == c);
                assert(!is_digit(d[i - start]));
                assert(!all_digits(d));
            }
            return None;
        }
        let ghost prev = cs@.subrange(start as int, i as int);
        let ghost next = cs@.subrange(start as int, i + 1);
        proof {
            assert(next.drop_last() =~= prev);
            assert forall|j: int| 0 <= j < prev.len() implies is_digit(#[trigger] prev[j]) by {
                assert(prev[j] == cs@[start + j]);
            }
            lemma_decimal_nonneg(prev);
        }
        let v: u32 = (c as u32) - ('0' as u32);
        if acc == 256 {
            assert(decimal_value(next) > 255) by (nonlinear_arith)
                requires
                    decimal_value(next) == decimal_value(prev) * 10 + v,
                    decimal_value(prev) > 255,
                    v >= 0,
            ;
        } else {
            let t = acc * 10 + v;
            acc = if t > 255 { 256 } else { t };
        }
        i = i + 1;
    }
    assert(cs@.subrange(start as int, n as int) =~= d);
    if acc > 255 {
        None
    } else {
        Some(acc as u8)
    }
}

/// A window size given as a parameter value: a decimal from 8 to 15.
pub open spec fn window_bits_value(v: Seq<char>) -> Option<u8> {
    match spec_parse_u8(v) {
        Some(b) => if 8 <= b <= 15 {
            Some(b)
        } else {
            None
        },
        None => None,
    }
}

/// What the parameters seen so far have set: server_no_context_takeover,
/// client_no_context_takeover, server_max_window_bits,
/// client_max_window_bits (each `None` until seen).
pub type OfferState = (Option<bool>, Option<bool>, Option<u8>, Option<Option<u8>>);

/// One parameter of an offer applied to what earlier ones set: a known
/// parameter may appear once; the no-context-takeover flags take no value;
/// server_max_window_bits needs a window size, client_max_window_bits may
/// have one; any other parameter is refused.
pub open spec fn offer_step(st: OfferState, p: ParamView) -> Result<
    OfferState,
    PerMessageDeflateExtensionError,
> {
    let key = p.0;
    let value = p.1;
    if key == SERVER_NO_CONTEXT_TAKEOVER@ {
        if value is Some || st.0 is Some {
            Err(PerMessageDeflateExtensionError::InvalidParam)
        } else {
            Ok((Some(false), st.1, st.2, st.3))
        }
    } else if key == CLIENT_NO_CONTEXT_TAKEOVER@ {
        if value is Some || st.1 is Some {
            Err(PerMessageDeflateExtensionError::InvalidParam)
        } else {
            Ok((st.0, Some(false), st.2, st.3))
        }
    } else if key == SERVER_MAX_WINDOW_BITS@ {
        if st.2 is Some {
            Err(PerMessageDeflateExtensionError::InvalidParam)
        } else {
            match value {
                None => Err(PerMessageDeflateExtensionError::InvalidParam),
                Some(v) => match window_bits_value(v) {
                    None => Err(PerMessageDeflateExtensionError::InvalidParam),
                    Some(b) => Ok((st.0, st.1, Some(b), st.3)),
                },
            }
        }
    } else if key == CLIENT_MAX_WINDOW_BITS@ {
        if st.3 is Some {
            Err(PerMessageDeflateExtensionError::InvalidParam)
        } else {
            match value {
                None => Ok((st.0, st.1, st.2, Some(None))),
                Some(v) => match window_bits_value(v) {
                    None => Err(PerMessageDeflateExtensionError::InvalidParam),
                    Some(b) => Ok((st.0, st.1, st.2, Some(Some(b)))),
                },
            }
        }
    } else {
        Err(PerMessageDeflateExtensionError::InvalidParam)
    }
}

/// The parameters of an offer applied in order; the first refused one
/// decides the error.
pub open spec fn offer_state(params: Seq<ParamView>) -> Result<
    OfferState,
    PerMessageDeflateExtensionError,
>
    decreases params.len(),
{
    if params.len() == 0 {
        Ok((None, None, None, None))
    } else {
        match offer_state(params.drop_last()) {
            Err(e) => Err(e),
            Ok(st) => offer_step(st, params.last()),
        }
    }
}

/// Once a prefix of the parameters is refused, the whole offer is refused
/// with the same error.
proof fn lemma_offer_refusal_sticks(params: Seq<ParamView>, i: int)
    requires
        0 <= i <= params.len(),
        offer_state(params.take(i)) is Err,
    ensures
        offer_state(params) == offer_state(params.take(i)),
    decreases params.len() - i,
{
    if i < params.len() {
        assert(params.take(i + 1).drop_last() =~= params.take(i));
        lemma_offer_refusal_sticks(params, i + 1);
    } else {
        assert(params.take(i) =~= params);
    }
}

/// The settings that an offer with parameters `params` asks for, or why it
/// is refused. Context takeover stays allowed unless refused by a flag.
pub open spec fn negotiate(params: Seq<ParamView>) -> Result<
    PermessageDeflateWebSocketExtension,
    PerMessageDeflateExtensionError,
> {
    match offer_state(params) {
        Err(e) => Err(e),
        Ok(st) => Ok(
            PermessageDeflateWebSocketExtension {
                server_context_takeover: st.0.unwrap_or(true),
                server_max_window_bits: st.2,
                client_context_takeover: st.1.unwrap_or(true),
                client_max_window_bits: st.3,
            },
        ),
    }
}

/// A window size parameter value, checked.
fn window_bits(v: &str) -> (r: Option<u8>)
    ensures
        r == window_bits_value(v@),
{
    match parse_u8(v) {
        Some(b) => if 8 <= b && b <= 15 {
            Some(b)
        } else {
            None
        },
        None => None,
    }
}

impl Default for PermessageDeflateWebSocketExtension {
    /// Context takeover allowed both ways, no window sizes.
    fn default() -> (r: Self)
        ensures
            r.server_context_takeover,
            r.server_max_window_bits is None,
            r.client_context_takeover,
            r.client_max_window_bits is None,
    {
        PermessageDeflateWebSocketExtension {
            server_context_takeover: true,
            server_max_window_bits: None,
            client_context_takeover: true,
            client_max_window_bits: None,
        }
    }
}

impl<'a, 'b> TryFrom<&'b WebSocketExtensionParams<'a>> for PermessageDeflateWebSocketExtension {
    type Error = PerMessageDeflateExtensionError;

    /// Checks the parameters of a permessage-deflate offer and returns the
    /// settings it asks for.
    fn try_from(params: &'b WebSocketExtensionParams<'a>) -> (r: Result<
        Self,
        PerMessageDeflateExtensionError,
    >) {
        let mut server_context_takeover: Option<bool> = None;
        let mut client_context_takeover: Option<bool> = None;
        let mut server_max_window_bits: Option<u8> = None;
        let mut client_max_window_bits: Option<Option<u8>> = None;
        let mut i: usize = 0;
        while i < params.len()
            invariant
                i <= params@.len(),
                params_view(params@).len() == params@.len(),
                offer_state(params_view(params@).take(i as int)) == Ok::<
                    OfferState,
                    PerMessageDeflateExtensionError,
                >(
                    (
                        server_context_takeover,
                        client_context_takeover,
                        server_max_window_bits,
                        client_max_window_bits,
                    ),
                ),
            decreases params@.len() - i,
        {
            let ghost pv = params_view(params@);
            proof {
                assert(pv.take(i + 1).drop_last() =~= pv.take(i as int));
                assert(pv.take(i + 1).last() == param_view(params@[i as int]));
                if offer_state(pv.take(i + 1)) is Err {
                    lemma_offer_refusal_sticks(pv, i + 1);
                }
            }
            let (key, value) = params[i];
            if str_eq(key, SERVER_NO_CONTEXT_TAKEOVER) {
                if value.is_some() || server_context_takeover.is_some() {
                    return Err(PerMessageDeflateExtensionError::InvalidParam);
                }
                server_context_takeover = Some(false);
            } else if str_eq(key, CLIENT_NO_CONTEXT_TAKEOVER) {
                if value.is_some() || client_context_takeover.is_some() {
                    return Err(PerMessageDeflateExtensionError::InvalidParam);
                }
                client_context_takeover = Some(false);
            } else if str_eq(key, SERVER_MAX_WINDOW_BITS) {
                if server_max_window_bits.is_some() {
                    return Err(PerMessageDeflateExtensionError::InvalidParam);
                }
                let bits = match value {
                    None => {
                        return Err(PerMessageDeflateExtensionError::InvalidParam);
                    },
                    Some(v) => match window_bits(v) {
                        None => {
                            return Err(PerMessageDeflateExtensionError::InvalidParam);
                        },
                        Some(b) => b,
                    },
                };
                server_max_window_bits = Some(bits);
            } else if str_eq(key, CLIENT_MAX_WINDOW_BITS) {
                if client_max_window_bits.is_some() {
                    return Err(PerMessageDeflateExtensionError::InvalidParam);
                }
                let bits = match value {
                    None => None,
                    Some(v) => match window_bits(v) {
                        None => {
                            return Err(PerMessageDeflateExtensionError::InvalidParam);
                        },
                        Some(b) => Some(b),
                    },
                };
                client_max_window_bits = Some(bits);
            } else {
                return Err(PerMessageDeflateExtensionError::InvalidParam);
            }
            i = i + 1;
        }
        proof {
            assert(params_view(params@).take(params@.len() as int) =~= params_view(params@));
        }
        Ok(
            PermessageDeflateWebSocketExtension {
                server_context_takeover: match server_context_takeover {
                    Some(b) => b,
                    None => true,
                },
                server_max_window_bits,
                client_context_takeover: match client_context_takeover {
                    Some(b) => b,
                    None => true,
                },
                client_max_window_bits,
            },
        )
    }
}

impl<'a, 'b> vstd::std_specs::convert::TryFromSpecImpl<&'b WebSocketExtensionParams<'a>> for PermessageDeflateWebSocketExtension {
    open spec fn obeys_try_from_spec() -> bool {
        true
    }

    open spec fn try_from_spec(params: &'b WebSocketExtensionParams<'a>) -> Result<
        Self,
        PerMessageDeflateExtensionError,
    > {
        negotiate(params_view(params@))
    }
}

/// The decimal digit for `d` (below 10).
pub open spec fn digit_char(d: int) -> char {
    ('0' as int + d) as char
}

/// `b` written in decimal, without leading zeros.
pub open spec fn decimal_chars(b: u8) -> Seq<char> {
    if b < 10 {
        seq![digit_char(b as int)]
    } else if b < 100 {
        seq![digit_char((b / 10) as int), digit_char((b % 10) as int)]
    } else {
        seq![
            digit_char((b / 100) as int),
            digit_char(((b / 10) % 10) as int),
            digit_char((b % 10) as int),
        ]
    }
}

/// The extension header value that announces `ext`: the extension token,
/// then `;server_no_context_takeover` if the server gives up context
/// takeover, `;client_max_window_bits=N` if a client window size was set,
/// and `;client_no_context_takeover` if the client gives up context
/// takeover. The server window size is not written.
pub open spec fn deflate_header(ext: PermessageDeflateWebSocketExtension) -> Seq<char> {
    PERMESSAGE_DEFLATE@ + (if !ext.server_context_takeover {
        seq![';'] + SERVER_NO_CONTEXT_TAKEOVER@
    } else {
        Seq::empty()
    }) + (match ext.client_max_window_bits {
        Some(Some(b)) => seq![';'] + CLIENT_MAX_WINDOW_BITS@ + seq!['='] + decimal_chars(b),
        _ => Seq::empty(),
    }) + (if !ext.client_context_takeover {
        seq![';'] + CLIENT_NO_CONTEXT_TAKEOVER@
    } else {
        Seq::empty()
    })
}

/// The one-character string of decimal digit `d`.
fn digit_str(d: u8) -> (r: &'static str)
    requires
        d < 10,
    ensures
        r@ == seq![digit_char(d as int)],
{
    proof {
        reveal_strlit("0");
        reveal_strlit("1");
        reveal_strlit("2");
        reveal_strlit("3");
        reveal_strlit("4");
        reveal_strlit("5");
        reveal_strlit("6");
        reveal_strlit("7");
        reveal_strlit("8");
        reveal_strlit("9");
    }
    if d == 0 {
        "0"
    } else if d == 1 {
        "1"
    } else if d == 2 {
        "2"
    } else if d == 3 {
        "3"
    } else if d == 4 {
        "4"
    } else if d == 5 {
        "5"
    } else if d == 6 {
        "6"
    } else if d == 7 {
        "7"
    } else if d == 8 {
        "8"
    } else {
        "9"
    }
}

/// Appends `b` in decimal to `out`.
fn append_decimal(out: &mut String, b: u8)
    ensures
        final(out)@ == old(out)@ + decimal_chars(b),
{
    if b < 10 {
        out.append(digit_str(b));
    } else if b < 100 {
        out.append(digit_str(b / 10));
        out.append(digit_str(b % 10));
    } else {
        out.append(digit_str(b / 100));
        out.append(digit_str((b / 10) % 10));
        out.append(digit_str(b % 10));
    }
    assert(out@ =~= old(out)@ + decimal_chars(b));
}

impl PermessageDeflateWebSocketExtension {
    /// Whether this build can use these settings: only when it compresses
    /// at all, and not with a custom window size on the miniz_oxide backend.
    pub fn is_supported(&self) -> (r: bool)
        ensures
            r == (DEFLATE_BUILT && !(MINIZ_OXIDE_BACKEND && (self.server_max_window_bits is Some
                || self.client_max_window_bits matches Some(Some(_))))),
    {
        if !DEFLATE_BUILT {
            return false;
        }
        let with_window_bits = self.server_max_window_bits.is_some() || match self.client_max_window_bits {
            Some(Some(_)) => true,
            _ => false,
        };
        if with_window_bits && MINIZ_OXIDE_BACKEND {
            return false;
        }
        true
    }

    /// The extension header value that announces these settings.
    pub fn to_string(&self) -> (r: String)
        ensures
            r@ == deflate_header(*self),
    {
        proof {
            reveal_strlit(";");
            reveal_strlit("=");
        }
        let mut ext = String::from_str(PERMESSAGE_DEFLATE);
        if !self.server_context_takeover {
            ext.append(";");
            ext.append(SERVER_NO_CONTEXT_TAKEOVER);
        }
        if let Some(Some(bits)) = self.client_max_window_bits {
            ext.append(";");
            ext.append(CLIENT_MAX_WINDOW_BITS);
            ext.append("=");
            append_decimal(&mut ext, bits);
        }
        if !self.client_context_takeover {
            ext.append(";");
            ext.append(CLIENT_NO_CONTEXT_TAKEOVER);
        }
        assert(ext@ =~= deflate_header(*self));
        ext
    }
}


/// No character of `s` is `c`.
pub open spec fn lacks(s: Seq<char>, c: char) -> bool {
    forall|i: int| 0 <= i < s.len() ==> s[i] != c
}

/// A sequence without `c` is one piece when split on `c`.
proof fn lemma_split_lacking(s: Seq<char>, c: char)
    requires
        lacks(s, c),
    ensures
        find_char(s, c) is None,
        split_chars(s, c) == seq![s],
{
    lemma_find_char_at(s, c, s.len() as int);
}

/// Splitting `a`, `c`, `b` on `c`, where `a` holds no `c`, gives `a` and
/// then the pieces of `b`.
proof fn lemma_split_after(a: Seq<char>, b: Seq<char>, c: char)
    requires
        lacks(a, c),
    ensures
        split_chars(a + seq![c] + b, c) == seq![a] + split_chars(b, c),
{
    let s = a + seq![c] + b;
    lemma_find_char_at(s, c, a.len() as int);
    assert(s.take(a.len() as int) =~= a);
    assert(s.skip(a.len() as int + 1) =~= b);
}

/// The pieces `ps`, each preceded by a `;`.
pub open spec fn semi_join(ps: Seq<Seq<char>>) -> Seq<char>
    decreases ps.len(),
{
    if ps.len() == 0 {
        Seq::empty()
    } else {
        seq![';'] + ps[0] + semi_join(ps.drop_first())
    }
}

proof fn lemma_semi_join_push(ps: Seq<Seq<char>>, x: Seq<char>)
    ensures
        semi_join(ps.push(x)) == semi_join(ps) + seq![';'] + x,
    decreases ps.len(),
{
    if ps.len() == 0 {
        assert(ps.push(x).drop_first() =~= Seq::<Seq<char>>::empty());
        assert(semi_join(ps.push(x).drop_first()) == Seq::<char>::empty());
        assert(ps.push(x)[0] == x);
        assert(semi_join(ps.push(x)) =~= semi_join(ps) + seq![';'] + x);
    } else {
        assert(ps.push(x).drop_first() =~= ps.drop_first().push(x));
        assert(ps.push(x)[0] == ps[0]);
        lemma_semi_join_push(ps.drop_first(), x);
        assert(semi_join(ps.push(x)) == seq![';'] + ps[0] + semi_join(ps.drop_first().push(x)));
        assert(semi_join(ps) == seq![';'] + ps[0] + semi_join(ps.drop_first()));
        assert(semi_join(ps.push(x)) =~= semi_join(ps) + seq![';'] + x);
    }
}

/// The text after the first `;` of a joined list splits back into the
/// pieces, when no piece holds a `;`.
proof fn lemma_split_semi_join(ps: Seq<Seq<char>>)
    requires
        ps.len() > 0,
        forall|k: int| 0 <= k < ps.len() ==> lacks(#[trigger] ps[k], ';'),
    ensures
        split_chars(semi_join(ps).drop_first(), ';') == ps,
    decreases ps.len(),
{
    let rest = ps.drop_first();
    assert(semi_join(ps).drop_first() =~= ps[0] + semi_join(rest));
    if rest.len() == 0 {
        assert(semi_join(rest) =~= Seq::<char>::empty());
        assert(ps[0] + semi_join(rest) =~= ps[0]);
        lemma_split_lacking(ps[0], ';');
        assert(ps =~= seq![ps[0]]);
    } else {
        assert forall|k: int| 0 <= k < rest.len() implies lacks(#[trigger] rest[k], ';') by {
            assert(rest[k] == ps[k + 1]);
        }
        lemma_split_semi_join(rest);
        assert(ps[0] + semi_join(rest) =~= ps[0] + seq![';'] + semi_join(rest).drop_first());
        lemma_split_after(ps[0], semi_join(rest).drop_first(), ';');
        assert(ps =~= seq![ps[0]] + rest);
    }
}

/// A joined list holds no `c` other than `;` that its pieces lack.
proof fn lemma_semi_join_lacks(ps: Seq<Seq<char>>, c: char)
    requires
        c != ';',
        forall|k: int| 0 <= k < ps.len() ==> lacks(#[trigger] ps[k], c),
    ensures
        lacks(semi_join(ps), c),
    decreases ps.len(),
{
    if ps.len() > 0 {
        let rest = ps.drop_first();
        assert forall|k: int| 0 <= k < rest.len() implies lacks(#[trigger] rest[k], c) by {
            assert(rest[k] == ps[k + 1]);
        }
        lemma_semi_join_lacks(rest, c);
        let j = semi_join(ps);
        assert(j =~= seq![';'] + ps[0] + semi_join(rest));
        assert forall|i: int| 0 <= i < j.len() implies j[i] != c by {
            if i == 0 {
            } else if i < 1 + ps[0].len() {
                assert(j[i] == ps[0][i - 1]);
            } else {
                assert(j[i] == semi_join(rest)[i - 1 - ps[0].len()]);
            }
        }
    }
}

/// A sequence that neither starts nor ends with white space is its own
/// trimmed form.
proof fn lemma_trim_none(s: Seq<char>)
    requires
        s.len() > 0,
        !is_unicode_whitespace(s[0]),
        !is_unicode_whitespace(s.last()),
    ensures
        trim_chars(s) == s,
{
    assert(trim_start_chars(s) == s);
    assert(trim_end_chars(s) == s);
}

/// The parameter pieces of the header for `ext`, in the order it writes
/// them.
pub open spec fn deflate_params(ext: PermessageDeflateWebSocketExtension) -> Seq<Seq<char>> {
    let a = if !ext.server_context_takeover {
        seq![SERVER_NO_CONTEXT_TAKEOVER@]
    } else {
        Seq::empty()
    };
    let b = match ext.client_max_window_bits {
        Some(Some(n)) => a.push(window_piece(decimal_chars(n))),
        _ => a,
    };
    if !ext.client_context_takeover {
        b.push(CLIENT_NO_CONTEXT_TAKEOVER@)
    } else {
        b
    }
}

/// No `;` or `,` in `s`: it stays one piece of a header.
pub open spec fn sep_free(s: Seq<char>) -> bool {
    lacks(s, ';') && lacks(s, ',')
}

/// Facts about the names: none of those written holds a separator or `=`,
/// none starts or ends with white space, and the parameter names differ.
proof fn lemma_names()
    ensures
        PERMESSAGE_DEFLATE@.len() == 18,
        SERVER_NO_CONTEXT_TAKEOVER@.len() == 26,
        CLIENT_NO_CONTEXT_TAKEOVER@.len() == 26,
        CLIENT_MAX_WINDOW_BITS@.len() == 22,
        sep_free(PERMESSAGE_DEFLATE@),
        sep_free(SERVER_NO_CONTEXT_TAKEOVER@),
        sep_free(CLIENT_NO_CONTEXT_TAKEOVER@),
        sep_free(CLIENT_MAX_WINDOW_BITS@),
        lacks(SERVER_NO_CONTEXT_TAKEOVER@, '='),
        lacks(CLIENT_NO_CONTEXT_TAKEOVER@, '='),
        lacks(CLIENT_MAX_WINDOW_BITS@, '='),
        !is_unicode_whitespace(PERMESSAGE_DEFLATE@[0]),
        !is_unicode_whitespace(PERMESSAGE_DEFLATE@.last()),
        !is_unicode_whitespace(SERVER_NO_CONTEXT_TAKEOVER@[0]),
        !is_unicode_whitespace(SERVER_NO_CONTEXT_TAKEOVER@.last()),
        !is_unicode_whitespace(CLIENT_NO_CONTEXT_TAKEOVER@[0]),
        !is_unicode_whitespace(CLIENT_NO_CONTEXT_TAKEOVER@.last()),
        !is_unicode_whitespace(CLIENT_MAX_WINDOW_BITS@[0]),
        !is_unicode_whitespace(CLIENT_MAX_WINDOW_BITS@.last()),
        SERVER_NO_CONTEXT_TAKEOVER@ != CLIENT_NO_CONTEXT_TAKEOVER@,
        SERVER_NO_CONTEXT_TAKEOVER@ != CLIENT_MAX_WINDOW_BITS@,
        CLIENT_NO_CONTEXT_TAKEOVER@ != CLIENT_MAX_WINDOW_BITS@,
        SERVER_MAX_WINDOW_BITS@ != SERVER_NO_CONTEXT_TAKEOVER@,
        SERVER_MAX_WINDOW_BITS@ != CLIENT_NO_CONTEXT_TAKEOVER@,
        SERVER_MAX_WINDOW_BITS@ != CLIENT_MAX_WINDOW_BITS@,
{
    reveal_strlit("permessage-deflate");
    lemma_server_window_name();
    reveal_strlit("server_no_context_takeover");
    reveal_strlit("client_no_context_takeover");
    reveal_strlit("client_max_window_bits");
    assert(SERVER_NO_CONTEXT_TAKEOVER@[0] != CLIENT_NO_CONTEXT_TAKEOVER@[0]);
    assert(SERVER_NO_CONTEXT_TAKEOVER@[0] != CLIENT_MAX_WINDOW_BITS@[0]);
    assert(CLIENT_NO_CONTEXT_TAKEOVER@[7] != CLIENT_MAX_WINDOW_BITS@[7]);
}

/// The server window size parameter name differs from the others.
proof fn lemma_server_window_name()
    ensures
        SERVER_MAX_WINDOW_BITS@ != SERVER_NO_CONTEXT_TAKEOVER@,
        SERVER_MAX_WINDOW_BITS@ != CLIENT_NO_CONTEXT_TAKEOVER@,
        SERVER_MAX_WINDOW_BITS@ != CLIENT_MAX_WINDOW_BITS@,
{
    reveal_strlit("server_max_window_bits");
    reveal_strlit("server_no_context_takeover");
    reveal_strlit("client_no_context_takeover");
    reveal_strlit("client_max_window_bits");
    assert(SERVER_MAX_WINDOW_BITS@[7] != SERVER_NO_CONTEXT_TAKEOVER@[7]);
    assert(SERVER_MAX_WINDOW_BITS@[0] != CLIENT_NO_CONTEXT_TAKEOVER@[0]);
    assert(SERVER_MAX_WINDOW_BITS@[0] != CLIENT_MAX_WINDOW_BITS@[0]);
}

/// The client window size parameter with value `d`.
pub open spec fn window_piece(d: Seq<char>) -> Seq<char> {
    CLIENT_MAX_WINDOW_BITS@ + seq!['='] + d
}

proof fn lemma_window_piece_sep_free(d: Seq<char>)
    requires
        sep_free(d),
    ensures
        sep_free(window_piece(d)),
{
    lemma_names();
    let piece = window_piece(d);
    assert forall|i: int| 0 <= i < piece.len() implies piece[i] != ';' && piece[i] != ',' by {
        if i < 22 {
            assert(piece[i] == CLIENT_MAX_WINDOW_BITS@[i]);
        } else if i > 22 {
            assert(piece[i] == d[i - 23]);
        }
    }
}

/// A window size from 8 to 15, written in decimal, reads back as itself
/// and holds no separator or white space.
proof fn lemma_window_digits(b: u8)
    requires
        8 <= b <= 15,
    ensures
        window_bits_value(decimal_chars(b)) == Some(b),
        decimal_chars(b).len() > 0,
        !is_unicode_whitespace(decimal_chars(b)[0]),
        !is_unicode_whitespace(decimal_chars(b).last()),
        sep_free(decimal_chars(b)),
{
    let d = decimal_chars(b);
    assert(d[0] != '+');
    assert(unsigned_digits(d) == d);
    if b < 10 {
        assert(d.drop_last() =~= Seq::<char>::empty());
        assert(decimal_value(d.drop_last()) == 0);
        assert(d.last() as int - '0' as int == b as int);
        assert(decimal_value(d) == b as int);
    } else {
        assert(d.drop_last().drop_last() =~= Seq::<char>::empty());
        assert(d.drop_last() =~= seq!['1']);
        assert(decimal_value(d.drop_last().drop_last()) == 0);
        assert(decimal_value(d.drop_last()) == 1);
        assert(d.last() as int - '0' as int == b as int - 10);
        assert(decimal_value(d) == b as int);
    }
}

/// One more parameter applied to an offer.
proof fn lemma_offer_push(ps: Seq<ParamView>, p: ParamView)
    ensures
        offer_state(ps.push(p)) == match offer_state(ps) {
            Err(e) => Err(e),
            Ok(st) => offer_step(st, p),
        },
{
    assert(ps.push(p).drop_last() =~= ps);
}

/// The parameters of the header for `ext`, parsed.
proof fn lemma_parsed_params(ext: PermessageDeflateWebSocketExtension)
    requires
        ext.client_max_window_bits matches Some(Some(b)) ==> 8 <= b <= 15,
    ensures
        ({
            let st0: OfferState = (None, None, None, None);
            let p0 = Seq::<ParamView>::empty();
            let (p1, st1) = if !ext.server_context_takeover {
                (p0.push((SERVER_NO_CONTEXT_TAKEOVER@, None)), (Some(false), st0.1, st0.2, st0.3))
            } else {
                (p0, st0)
            };
            let (p2, st2) = match ext.client_max_window_bits {
                Some(Some(n)) => (
                    p1.push((CLIENT_MAX_WINDOW_BITS@, Some(decimal_chars(n)))),
                    (st1.0, st1.1, st1.2, Some(Some(n))),
                ),
                _ => (p1, st1),
            };
            let (p3, st3) = if !ext.client_context_takeover {
                (p2.push((CLIENT_NO_CONTEXT_TAKEOVER@, None)), (st2.0, Some(false), st2.2, st2.3))
            } else {
                (p2, st2)
            };
            &&& parse_param_list(deflate_params(ext)) == p3
            &&& offer_state(p3) == Ok::<OfferState, PerMessageDeflateExtensionError>(st3)
        }),
{
    lemma_names();
    let s = SERVER_NO_CONTEXT_TAKEOVER@;
    let n = CLIENT_NO_CONTEXT_TAKEOVER@;
    let k = CLIENT_MAX_WINDOW_BITS@;
    lemma_split_lacking(s, '=');
    lemma_split_lacking(n, '=');
    lemma_trim_none(s);
    lemma_trim_none(n);
    lemma_trim_none(k);
    assert(parse_param(s) == (s, None::<Seq<char>>));
    assert(parse_param(n) == (n, None::<Seq<char>>));
    if let Some(Some(b)) = ext.client_max_window_bits {
        lemma_window_digits(b);
        let d = decimal_chars(b);
        let piece = window_piece(d);
        lemma_find_char_at(piece, '=', k.len() as int);
        assert(piece.take(k.len() as int) =~= k);
        assert(piece.skip(k.len() as int + 1) =~= d);
        lemma_trim_none(d);
        assert(parse_param(piece) == (k, Some(d)));
    }
    let st0: OfferState = (None, None, None, None);
    let p0 = Seq::<ParamView>::empty();
    let q0 = Seq::<Seq<char>>::empty();
    let (q1, p1, st1) = if !ext.server_context_takeover {
        lemma_offer_push(p0, (s, None));
        (q0.push(s), p0.push((s, None)), (Some(false), st0.1, st0.2, st0.3))
    } else {
        (q0, p0, st0)
    };
    assert(parse_param_list(q1) =~= p1);
    assert(offer_state(p1) == Ok::<OfferState, PerMessageDeflateExtensionError>(st1));
    let (q2, p2, st2) = match ext.client_max_window_bits {
        Some(Some(b)) => {
            lemma_window_digits(b);
            lemma_offer_push(p1, (k, Some(decimal_chars(b))));
            (
                q1.push(window_piece(decimal_chars(b))),
                p1.push((k, Some(decimal_chars(b)))),
                (st1.0, st1.1, st1.2, Some(Some(b))),
            )
        },
        _ => (q1, p1, st1),
    };
    assert(parse_param_list(q2) =~= p2);
    assert(offer_state(p2) == Ok::<OfferState, PerMessageDeflateExtensionError>(st2));
    let (q3, p3, st3) = if !ext.client_context_takeover {
        lemma_offer_push(p2, (n, None));
        (q2.push(n), p2.push((n, None)), (st2.0, Some(false), st2.2, st2.3))
    } else {
        (q2, p2, st2)
    };
    assert(q3 == deflate_params(ext));
    assert(parse_param_list(q3) =~= p3);
}

/// The extension header value written for settings `ext` reads back, by
/// the header parser and the offer check, as one permessage-deflate
/// extension with the same settings. This holds whenever the header can
/// carry all of `ext`: no server window size (it is not written), and a
/// client window size either absent or given with a value from 8 to 15.
pub proof fn lemma_header_negotiates_back(ext: PermessageDeflateWebSocketExtension)
    requires
        ext.server_max_window_bits is None,
        ext.client_max_window_bits matches Some(v) ==> v matches Some(b) && 8 <= b <= 15,
    ensures
        parse_extensions(deflate_header(ext)).len() == 1,
        parse_extensions(deflate_header(ext))[0].0 == PERMESSAGE_DEFLATE@,
        negotiate(parse_extensions(deflate_header(ext))[0].1) == Ok::<
            PermessageDeflateWebSocketExtension,
            PerMessageDeflateExtensionError,
        >(ext),
{
    lemma_names();
    lemma_parsed_params(ext);
    let pd = PERMESSAGE_DEFLATE@;
    let ps = deflate_params(ext);
    let h = deflate_header(ext);
    // The header is the token followed by the pieces, each after a `;`.
    let q0 = Seq::<Seq<char>>::empty();
    let q1 = if !ext.server_context_takeover {
        lemma_semi_join_push(q0, SERVER_NO_CONTEXT_TAKEOVER@);
        q0.push(SERVER_NO_CONTEXT_TAKEOVER@)
    } else {
        q0
    };
    let q2 = match ext.client_max_window_bits {
        Some(Some(b)) => {
            lemma_semi_join_push(q1, window_piece(decimal_chars(b)));
            q1.push(window_piece(decimal_chars(b)))
        },
        _ => q1,
    };
    if !ext.client_context_takeover {
        lemma_semi_join_push(q2, CLIENT_NO_CONTEXT_TAKEOVER@);
    }
    assert(h =~= pd + semi_join(ps));
    // No piece holds a separator.
    if let Some(Some(b)) = ext.client_max_window_bits {
        lemma_window_digits(b);
        lemma_window_piece_sep_free(decimal_chars(b));
    }
    assert forall|k: int| 0 <= k < ps.len() implies #[trigger] sep_free(ps[k]) by {
        if let Some(Some(b)) = ext.client_max_window_bits {
            lemma_window_digits(b);
            lemma_window_piece_sep_free(decimal_chars(b));
        }
    }
    assert forall|k: int| 0 <= k < ps.len() implies #[trigger] lacks(ps[k], ';') by {
        assert(sep_free(ps[k]));
    }
    assert forall|k: int| 0 <= k < ps.len() implies #[trigger] lacks(ps[k], ',') by {
        assert(sep_free(ps[k]));
    }
    lemma_semi_join_lacks(ps, ',');
    assert forall|i: int| 0 <= i < h.len() implies h[i] != ',' by {
        if i < pd.len() {
            assert(h[i] == pd[i]);
        } else {
            assert(h[i] == semi_join(ps)[i - pd.len()]);
        }
    }
    lemma_split_lacking(h, ',');
    assert(parse_extensions(h) =~= seq![parse_extension(h)]);
    lemma_trim_none(pd);
    if ps.len() == 0 {
        assert(h =~= pd);
        lemma_split_lacking(pd, ';');
        assert(parse_extension(h) == (pd, Seq::<ParamView>::empty()));
        assert(parse_param_list(ps) =~= Seq::<ParamView>::empty());
    } else {
        assert forall|j: int| 0 <= j < pd.len() implies h[j] != ';' by {
            assert(h[j] == pd[j]);
        }
        lemma_find_char_at(h, ';', pd.len() as int);
        assert(h.take(pd.len() as int) =~= pd);
        assert(h.skip(pd.len() as int + 1) =~= semi_join(ps).drop_first());
        lemma_split_semi_join(ps);
        assert(parse_extension(h) == (pd, parse_param_list(ps)));
    }
}

} // verus!
