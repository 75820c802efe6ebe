use vstd::prelude::*;
use vstd::utf8::valid_utf8;

verus! {

broadcast use vstd::string::group_string_axioms;

/// Checks UTF-8 with `simdutf8::basic::from_utf8`, a validator that accepts
/// exactly the byte strings that `std::str::from_utf8` accepts: well-formed
/// UTF-8 (RFC 3629) without overlong forms, surrogates or values above
/// U+10FFFF. The contract claims that the check succeeds exactly on such
/// input, as `valid_utf8` states it.
#[verifier::external_body]
pub(crate) fn is_valid_utf8(bytes: &[u8]) -> (r: bool)
    ensures
        r == valid_utf8(bytes@),
{
    simdutf8::basic::from_utf8(bytes).is_ok()
}

/// The characters of `s`, in order.
pub(crate) fn chars_of(s: &str) -> (r: Vec<char>)
    ensures
        r@ == s@,
{
    let mut v: Vec<char> = Vec::new();
    for c in it: s.chars()
        invariant
            v@ == it.seq().take(it.index() as int),
    {
        v.push(c);
    }
    v
}

/// Whether `a` and `b` hold the same characters.
pub(crate) fn str_eq(a: &str, b: &str) -> (r: bool)
    ensures
        r == (a@ == b@),
{
    let x = chars_of(a);
    let y = chars_of(b);
    if x.len() != y.len() {
        return false;
    }
    let mut i: usize = 0;
    while i < x.len()
        invariant
            x@ == a@,
            y@ == b@,
            x@.len() == y@.len(),
            i <= x@.len(),
            forall|j: int| 0 <= j < i ==> x@[j] == y@[j],
        decreases x@.len() - i,
    {
        if x[i] != y[i] {
            return false;
        }
        i = i + 1;
    }
    assert(x@ =~= y@);
    true
}

/// The ASCII bytes of a literal.
pub open spec fn ascii_bytes(s: &str) -> Seq<u8> {
    s@.map_values(|c: char| c as u8)
}

/// The bytes of an ASCII string.
pub(crate) fn ascii_of(s: &str) -> (r: Vec<u8>)
    requires
        vstd::utf8::is_ascii_chars(s@),
    ensures
        r@ == ascii_bytes(s),
{
    let cs = chars_of(s);
    let mut out: Vec<u8> = Vec::new();
    let mut i: usize = 0;
    while i < cs.len()
        invariant
            cs@ == s@,
            vstd::utf8::is_ascii_chars(s@),
            i <= cs@.len(),
            out@ == cs@.take(i as int).map_values(|c: char| c as u8),
        decreases cs@.len() - i,
    {
        assert('\0' <= cs@[i as int] <= '\u{7f}');
        out.push(cs[i] as u8);
        assert(cs@.take(i + 1).map_values(|c: char| c as u8) =~= cs@.take(i as int).map_values(
            |c: char| c as u8,
        ).push(cs@[i as int] as u8));
        i = i + 1;
    }
    assert(cs@.take(cs@.len() as int) =~= cs@);
    out
}

} // verus!
