//! Parsing of the `Sec-WebSocket-Extensions` header value (RFC 6455
//! section 9.1): a comma-separated list of extensions, each a name followed
//! by semicolon-separated parameters, each parameter a key with an optional
//! `=value`. Names, keys and values are trimmed of whitespace.
use vstd::prelude::*;
use vstd::std_specs::iter::IteratorSpec;

use crate::text::chars_of;

verus! {

/// Whether `c` is white space as Unicode defines it (the `White_Space`
/// property, which `char::is_whitespace` and `str::trim` go by).
pub open spec fn is_unicode_whitespace(c: char) -> bool {
    ||| '\u{9}' <= c <= '\u{d}'
    ||| c == ' '
    ||| c == '\u{85}'
    ||| c == '\u{a0}'
    ||| c == '\u{1680}'
    ||| '\u{2000}' <= c <= '\u{200a}'
    ||| c == '\u{2028}'
    ||| c == '\u{2029}'
    ||| c == '\u{202f}'
    ||| c == '\u{205f}'
    ||| c == '\u{3000}'
}

/// `s` without its leading white space.
pub open spec fn trim_start_chars(s: Seq<char>) -> Seq<char>
    decreases s.len(),
{
    if s.len() > 0 && is_unicode_whitespace(s[0]) {
        trim_start_chars(s.drop_first())
    } else {
        s
    }
}

/// `s` without its trailing white space.
pub open spec fn trim_end_chars(s: Seq<char>) -> Seq<char>
    decreases s.len(),
{
    if s.len() > 0 && is_unicode_whitespace(s.last()) {
        trim_end_chars(s.drop_last())
    } else {
        s
    }
}

/// `s` without leading and trailing white space.
pub open spec fn trim_chars(s: Seq<char>) -> Seq<char> {
    trim_end_chars(trim_start_chars(s))
}

/// Position of the first `c` in `s`, if there is one.
pub open spec fn find_char(s: Seq<char>, c: char) -> Option<int>
    decreases s.len(),
{
    if s.len() == 0 {
        None
    } else if s[0] == c {
        Some(0)
    } else {
        match find_char(s.drop_first(), c) {
            Some(i) => Some(i + 1),
            None => None,
        }
    }
}

/// A found position lies inside `s`.
pub proof fn lemma_find_char_bound(s: Seq<char>, c: char)
    ensures
        find_char(s, c) matches Some(i) ==> 0 <= i < s.len() && s[i] == c,
    decreases s.len(),
{
    if s.len() > 0 && s[0] != c {
        lemma_find_char_bound(s.drop_first(), c);
    }
}

/// The pieces of `s` between occurrences of `c`, as `str::split` yields
/// them: one more piece than there are `c`s, empty pieces included.
pub open spec fn split_chars(s: Seq<char>, c: char) -> Seq<Seq<char>>
    decreases s.len(),
{
    match find_char(s, c) {
        None => seq![s],
        Some(i) => {
            proof {
                lemma_find_char_bound(s, c);
            }
            seq![s.take(i)] + split_chars(s.skip(i + 1), c)
        },
    }
}

/// A parameter as its key and optional value.
pub type ParamView = (Seq<char>, Option<Seq<char>>);

/// An extension as its name and parameters.
pub type ExtensionView = (Seq<char>, Seq<ParamView>);

/// One parameter: the key is the text before the first `=`, the value the
/// text after it (none without `=`), both trimmed.
pub open spec fn parse_param(piece: Seq<char>) -> ParamView {
    match find_char(piece, '=') {
        None => (trim_chars(piece), None),
        Some(i) => (trim_chars(piece.take(i)), Some(trim_chars(piece.skip(i + 1)))),
    }
}

/// Each piece parsed as a parameter.
pub open spec fn parse_param_list(pieces: Seq<Seq<char>>) -> Seq<ParamView> {
    pieces.map_values(|p: Seq<char>| parse_param(p))
}

/// The parameters of the `;`-separated list `s`, one per piece.
pub open spec fn parse_params(s: Seq<char>) -> Seq<ParamView> {
    parse_param_list(split_chars(s, ';'))
}

/// One extension: the trimmed text before the first `;` is its name, the
/// pieces after it its parameters.
pub open spec fn parse_extension(seg: Seq<char>) -> ExtensionView {
    match find_char(seg, ';') {
        None => (trim_chars(seg), Seq::empty()),
        Some(i) => (trim_chars(seg.take(i)), parse_params(seg.skip(i + 1))),
    }
}

/// The extensions of a header value: one per `,`-separated piece.
pub open spec fn parse_extensions(s: Seq<char>) -> Seq<ExtensionView> {
    split_chars(s, ',').map_values(|seg: Seq<char>| parse_extension(seg))
}

/// (key, value) of an extension parameter.
pub type ExtensionParam<'a> = (&'a str, Option<&'a str>);

/// The parameters of one extension, in order.
pub type WebSocketExtensionParams<'a> = Vec<ExtensionParam<'a>>;

/// The key and value of a parameter as character sequences.
pub open spec fn param_view(p: ExtensionParam) -> ParamView {
    (
        p.0@,
        match p.1 {
            Some(v) => Some(v@),
            None => None,
        },
    )
}

/// The parameters as character sequences.
pub open spec fn params_view(ps: Seq<ExtensionParam>) -> Seq<ParamView> {
    ps.map_values(|p: ExtensionParam| param_view(p))
}

/// Combination of extension name and params.
#[derive(Debug, PartialEq)]
pub struct WebSocketExtension<'a> {
    pub name: &'a str,
    pub params: WebSocketExtensionParams<'a>,
}

impl<'a> View for WebSocketExtension<'a> {
    type V = ExtensionView;

    open spec fn view(&self) -> ExtensionView {
        (self.name@, params_view(self.params@))
    }
}

/// List of extensions and their respective parameters defined in a
/// Sec-WebSocket-Extensions header.
#[derive(Debug, PartialEq)]
pub struct WebSocketExtensions<'a>(pub Vec<WebSocketExtension<'a>>);

impl<'a> View for WebSocketExtensions<'a> {
    type V = Seq<ExtensionView>;

    open spec fn view(&self) -> Seq<ExtensionView> {
        self.0@.map_values(|e: WebSocketExtension<'a>| e@)
    }
}

/// `find_char` finds `i` when no `c` comes before it and `s[i] == c` (or
/// nothing when `i` is the end of `s`).
pub proof fn lemma_find_char_at(s: Seq<char>, c: char, i: int)
    requires
        0 <= i <= s.len(),
        forall|j: int| 0 <= j < i ==> s[j] != c,
        i == s.len() || s[i] == c,
    ensures
        find_char(s, c) == if i < s.len() { Some(i) } else { None::<int> },
    decreases i,
{
    if i > 0 {
        lemma_find_char_at(s.drop_first(), c, i - 1);
    }
}

/// Dropping `k` leading white-space characters does not change the
/// trimmed start, and it stops at the first other character.
proof fn lemma_trim_start_at(s: Seq<char>, k: int)
    requires
        0 <= k <= s.len(),
        forall|j: int| 0 <= j < k ==> is_unicode_whitespace(s[j]),
        k == s.len() || !is_unicode_whitespace(s[k]),
    ensures
        trim_start_chars(s) == s.skip(k),
    decreases k,
{
    if k > 0 {
        lemma_trim_start_at(s.drop_first(), k - 1);
        assert(s.drop_first().skip(k - 1) =~= s.skip(k));
    } else {
        assert(s.skip(0) =~= s);
    }
}

/// Dropping trailing white space stops at the last other character.
proof fn lemma_trim_end_at(s: Seq<char>, m: int)
    requires
        0 <= m <= s.len(),
        forall|j: int| m <= j < s.len() ==> is_unicode_whitespace(s[j]),
        m == 0 || !is_unicode_whitespace(s[m - 1]),
    ensures
        trim_end_chars(s) == s.take(m),
    decreases s.len() - m,
{
    if m < s.len() {
        lemma_trim_end_at(s.drop_last(), m);
        assert(s.drop_last().take(m) =~= s.take(m));
    } else {
        assert(s.take(m) =~= s);
    }
}

/// Exec test for [`is_unicode_whitespace`].
pub(crate) fn is_whitespace_char(c: char) -> (r: bool)
    ensures
        r == is_unicode_whitespace(c),
{
    ('\u{9}' <= c && c <= '\u{d}') || c == ' ' || c == '\u{85}' || c == '\u{a0}' || c
        == '\u{1680}' || ('\u{2000}' <= c && c <= '\u{200a}') || c == '\u{2028}' || c
        == '\u{2029}' || c == '\u{202f}' || c == '\u{205f}' || c == '\u{3000}'
}

/// Position of the first `c` in `cs[start..end]`, as an index into `cs`.
pub(crate) fn find_in(cs: &Vec<char>, start: usize, end: usize, c: char) -> (r: Option<usize>)
    requires
        start <= end <= cs@.len(),
    ensures
        match r {
            Some(k) => start <= k < end && find_char(cs@.subrange(start as int, end as int), c)
                == Some(k - start),
            None => find_char(cs@.subrange(start as int, end as int), c) is None,
        },
{
    let ghost t = cs@.subrange(start as int, end as int);
    let mut i = start;
    while i < end
        invariant
            start <= i <= end <= cs@.len(),
            t == cs@.subrange(start as int, end as int),
            forall|j: int| start <= j < i ==> cs@[j] != c,
        decreases end - i,
    {
        if cs[i] == c {
            proof {
                lemma_find_char_at(t, c, i - start);
            }
            return Some(i);
        }
        i = i + 1;
    }
    proof {
        lemma_find_char_at(t, c, end - start);
    }
    None
}

/// The bounds of `cs[start..end]` with leading and trailing white space
/// left out.
pub(crate) fn trim_range(cs: &Vec<char>, start: usize, end: usize) -> (r: (usize, usize))
    requires
        start <= end <= cs@.len(),
    ensures
        start <= r.0 <= r.1 <= end,
        cs@.subrange(r.0 as int, r.1 as int) == trim_chars(cs@.subrange(start as int, end as int)),
{
    let ghost t = cs@.subrange(start as int, end as int);
    let mut a = start;
    while a < end && is_whitespace_char(cs[a])
        invariant
            start <= a <= end <= cs@.len(),
            forall|j: int| start <= j < a ==> is_unicode_whitespace(cs@[j]),
        decreases end - a,
    {
        a = a + 1;
    }
    proof {
        lemma_trim_start_at(t, a - start);
        assert(t.skip(a - start) =~= cs@.subrange(a as int, end as int));
    }
    let ghost u = cs@.subrange(a as int, end as int);
    let mut b = end;
    while b > a && is_whitespace_char(cs[b - 1])
        invariant
            start <= a <= b <= end <= cs@.len(),
            forall|j: int| b <= j < end ==> is_unicode_whitespace(cs@[j]),
        decreases b - a,
    {
        b = b - 1;
    }
    proof {
        lemma_trim_end_at(u, b - a);
        assert(u.take(b - a) =~= cs@.subrange(a as int, b as int));
    }
    (a, b)
}



/// `s[a..b]` trimmed, as a slice of `s`.
pub(crate) fn trimmed<'a>(s: &'a str, cs: &Vec<char>, a: usize, b: usize) -> (r: &'a str)
    requires
        cs@ == s@,
        a <= b <= cs@.len(),
    ensures
        r@ == trim_chars(s@.subrange(a as int, b as int)),
{
    let (x, y) = trim_range(cs, a, b);
    s.substring_char(x, y)
}

/// One parameter, out of the piece `s[a..b]`.
fn param<'a>(s: &'a str, cs: &Vec<char>, a: usize, b: usize) -> (r: ExtensionParam<'a>)
    requires
        cs@ == s@,
        a <= b <= cs@.len(),
    ensures
        param_view(r) == parse_param(s@.subrange(a as int, b as int)),
{
    let ghost piece = s@.subrange(a as int, b as int);
    match find_in(cs, a, b, '=') {
        None => (trimmed(s, cs, a, b), None),
        Some(i) => {
            assert(piece.take(i - a) =~= s@.subrange(a as int, i as int));
            assert(piece.skip(i - a + 1) =~= s@.subrange(i + 1, b as int));
            (trimmed(s, cs, a, i), Some(trimmed(s, cs, i + 1, b)))
        },
    }
}

/// Splitting at the first `c` of `s[start..end]`, at `i`: the piece before
/// it, then the pieces of the rest.
proof fn lemma_split_step(s: Seq<char>, c: char, start: int, end: int, i: int)
    requires
        0 <= start <= i < end <= s.len(),
        find_char(s.subrange(start, end), c) == Some(i - start),
    ensures
        split_chars(s.subrange(start, end), c) == seq![s.subrange(start, i)] + split_chars(
            s.subrange(i + 1, end),
            c,
        ),
{
    let t = s.subrange(start, end);
    assert(t.take(i - start) =~= s.subrange(start, i));
    assert(t.skip(i - start + 1) =~= s.subrange(i + 1, end));
}

/// Appending a parameter and the piece it was parsed from keeps the two
/// lists in step.
proof fn lemma_params_push(
    prev: Seq<ExtensionParam>,
    done: Seq<Seq<char>>,
    p: ExtensionParam,
    piece: Seq<char>,
)
    requires
        params_view(prev) == parse_param_list(done),
        param_view(p) == parse_param(piece),
    ensures
        params_view(prev.push(p)) == parse_param_list(done.push(piece)),
{
    assert(params_view(prev).len() == prev.len());
    assert(parse_param_list(done).len() == done.len());
    assert(prev.len() == done.len()) by {
        assert(params_view(prev).len() == parse_param_list(done).len());
    }
    assert forall|k: int| 0 <= k < prev.len() implies #[trigger] params_view(prev.push(p))[k]
        == parse_param_list(done.push(piece))[k] by {
        assert(params_view(prev)[k] == parse_param_list(done)[k]);
        assert(prev.push(p)[k] == prev[k]);
        assert(done.push(piece)[k] == done[k]);
        assert(params_view(prev)[k] == param_view(prev[k]));
        assert(params_view(prev.push(p))[k] == param_view(prev.push(p)[k]));
    }
    assert(params_view(prev.push(p)) =~= parse_param_list(done.push(piece)));
}

/// Parses the parameters of an extension: `input` is the text after the
/// extension's name and its `;`, which splits into one parameter per piece.
pub fn extension_params<'a>(input: &'a str) -> (r: Vec<ExtensionParam<'a>>)
    ensures
        params_view(r@) == parse_params(input@),
{
    let cs = chars_of(input);
    let n = cs.len();
    let ghost s = input@;
    let ghost mut done: Seq<Seq<char>> = Seq::empty();
    let mut out: Vec<ExtensionParam<'a>> = Vec::new();
    let mut start: usize = 0;
    assert(s.subrange(0, n as int) =~= s);
    loop
        invariant
            cs@ == s,
            s == input@,
            n == s.len(),
            start <= n,
            split_chars(s, ';') == done + split_chars(s.subrange(start as int, n as int), ';'),
            params_view(out@) == parse_param_list(done),
        decreases n - start,
    {
        match find_in(&cs, start, n, ';') {
            Some(i) => {
                proof {
                    lemma_split_step(s, ';', start as int, n as int, i as int);
                }
                let p = param(input, &cs, start, i);
                let ghost prev = out@;
                let ghost prev_done = done;
                let ghost gp = p;
                out.push(p);
                proof {
                    lemma_params_push(prev, prev_done, gp, s.subrange(start as int, i as int));
                    assert(done + seq![s.subrange(start as int, i as int)] + split_chars(
                        s.subrange(i + 1, n as int),
                        ';',
                    ) =~= done + (seq![s.subrange(start as int, i as int)] + split_chars(
                        s.subrange(i + 1, n as int),
                        ';',
                    )));
                    done = done.push(s.subrange(start as int, i as int));
                    assert(params_view(out@) =~= parse_param_list(done));
                }
                start = i + 1;
            },
            None => {
                let p = param(input, &cs, start, n);
                let ghost prev = out@;
                let ghost prev_done = done;
                let ghost gp = p;
                out.push(p);
                proof {
                    lemma_params_push(prev, prev_done, gp, s.subrange(start as int, n as int));
                    done = done.push(s.subrange(start as int, n as int));
                    assert(split_chars(s, ';') =~= done);
                    assert(params_view(out@) =~= parse_param_list(done));
                }
                return out;
            },
        }
    }
}

/// Parses one extension: its name is the trimmed text before the first `;`
/// and its parameters the pieces after it. There is always one.
pub fn extension<'a>(input: &'a str) -> (r: Option<WebSocketExtension<'a>>)
    ensures
        r matches Some(e) && e@ == parse_extension(input@),
{
    let cs = chars_of(input);
    let n = cs.len();
    match find_in(&cs, 0, n, ';') {
        None => {
            assert(input@.subrange(0, n as int) =~= input@);
            Some(WebSocketExtension { name: trimmed(input, &cs, 0, n), params: Vec::new() })
        },
        Some(i) => {
            assert(input@.subrange(0, n as int) =~= input@);
            assert(input@.take(i as int) =~= input@.subrange(0, i as int));
            assert(input@.skip(i + 1) =~= input@.subrange(i + 1, n as int));
            let name = trimmed(input, &cs, 0, i);
            let rest = input.substring_char(i + 1, n);
            let params = extension_params(rest);
            Some(WebSocketExtension { name, params })
        },
    }
}

/// Each segment parsed as an extension.
pub open spec fn parse_extension_list(segs: Seq<Seq<char>>) -> Seq<ExtensionView> {
    segs.map_values(|seg: Seq<char>| parse_extension(seg))
}

/// Appending an extension and the segment it was parsed from keeps the two
/// lists in step.
proof fn lemma_extensions_push<'a>(
    prev: Seq<WebSocketExtension<'a>>,
    done: Seq<Seq<char>>,
    e: WebSocketExtension<'a>,
    seg: Seq<char>,
)
    requires
        prev.map_values(|x: WebSocketExtension<'a>| x@) == parse_extension_list(done),
        e@ == parse_extension(seg),
    ensures
        prev.push(e).map_values(|x: WebSocketExtension<'a>| x@) == parse_extension_list(
            done.push(seg),
        ),
{
    let a = prev.map_values(|x: WebSocketExtension<'a>| x@);
    let b = prev.push(e).map_values(|x: WebSocketExtension<'a>| x@);
    assert(a.len() == prev.len());
    assert(parse_extension_list(done).len() == done.len());
    assert forall|k: int| 0 <= k < prev.len() implies #[trigger] b[k] == parse_extension_list(
        done.push(seg),
    )[k] by {
        assert(a[k] == parse_extension_list(done)[k]);
        assert(prev.push(e)[k] == prev[k]);
        assert(done.push(seg)[k] == done[k]);
    }
    assert(b =~= parse_extension_list(done.push(seg)));
}

impl<'a> WebSocketExtensions<'a> {
    /// Parses the Sec-WebSocket-Extensions header value: one extension per
    /// `,`-separated segment, empty segments included.
    pub fn from(value: &'a str) -> (r: Self)
        ensures
            r@ == parse_extensions(value@),
    {
        let cs = chars_of(value);
        let n = cs.len();
        let ghost s = value@;
        let ghost mut done: Seq<Seq<char>> = Seq::empty();
        let mut out: Vec<WebSocketExtension<'a>> = Vec::new();
        let mut start: usize = 0;
        assert(s.subrange(0, n as int) =~= s);
        loop
            invariant
                cs@ == s,
                s == value@,
                n == s.len(),
                start <= n,
                split_chars(s, ',') == done + split_chars(s.subrange(start as int, n as int), ','),
                out@.map_values(|x: WebSocketExtension<'a>| x@) == parse_extension_list(done),
            decreases n - start,
        {
            let stop = match find_in(&cs, start, n, ',') {
                Some(i) => i,
                None => n,
            };
            let seg = value.substring_char(start, stop);
            let e = match extension(seg) {
                Some(e) => e,
                None => {
                    return WebSocketExtensions(out);
                },
            };
            let ghost prev = out@;
            let ghost prev_done = done;
            let ghost ge = e;
            out.push(e);
            proof {
                lemma_extensions_push(prev, prev_done, ge, s.subrange(start as int, stop as int));
                done = done.push(s.subrange(start as int, stop as int));
            }
            if stop == n {
                proof {
                    assert(split_chars(s, ',') =~= done);
                }
                return WebSocketExtensions(out);
            }
            proof {
                lemma_split_step(s, ',', start as int, n as int, stop as int);
                assert(prev_done + seq![s.subrange(start as int, stop as int)] + split_chars(
                    s.subrange(stop + 1, n as int),
                    ',',
                ) =~= prev_done + (seq![s.subrange(start as int, stop as int)] + split_chars(
                    s.subrange(stop + 1, n as int),
                    ',',
                )));
            }
            start = stop + 1;
        }
    }

    /// The extensions, in header order.
    pub fn iter(&'a self) -> (r: std::slice::Iter<'a, WebSocketExtension<'a>>)
        ensures
            r.remaining() == self.0@.as_ref(),
    {
        self.0.as_slice().iter()
    }
}

} // verus!
