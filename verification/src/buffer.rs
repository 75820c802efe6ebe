//! `bytes::BytesMut`, the growable byte buffer that frames read off a
//! stream live in, as the library sees it: a sequence of bytes.
use vstd::prelude::*;

verus! {

/// `bytes::BytesMut`.
#[verifier::external_type_specification]
#[verifier::external_body]
pub struct ExBytesMut(bytes::BytesMut);

/// The bytes a `BytesMut` holds.
pub uninterp spec fn bytes_contents(b: bytes::BytesMut) -> Seq<u8>;

/// `BytesMut::with_capacity`: an empty buffer. It panics when the capacity
/// exceeds `isize::MAX` bytes, which `requires` rules out.
#[verifier::external_body]
pub(crate) fn bytes_with_capacity(capacity: usize) -> (r: bytes::BytesMut)
    requires
        capacity <= isize::MAX,
    ensures
        bytes_contents(r) == Seq::<u8>::empty(),
{
    bytes::BytesMut::with_capacity(capacity)
}

/// `BytesMut::extend_from_slice`: appends `s`. It panics when the length
/// would overflow, which `requires` rules out.
#[verifier::external_body]
pub(crate) fn bytes_extend(b: &mut bytes::BytesMut, s: &[u8])
    requires
        bytes_contents(*old(b)).len() + s@.len() <= isize::MAX,
    ensures
        bytes_contents(*final(b)) == bytes_contents(*old(b)) + s@,
{
    b.extend_from_slice(s)
}

/// `<BytesMut as AsRef<[u8]>>::as_ref`: the bytes held.
#[verifier::external_body]
pub(crate) fn bytes_as_slice(b: &bytes::BytesMut) -> (r: &[u8])
    ensures
        r@ == bytes_contents(*b),
{
    b.as_ref()
}

/// `<BytesMut as AsMut<[u8]>>::as_mut`: the bytes held, for writing in
/// place; what is written there is what the buffer then holds.
#[verifier::external_body]
pub(crate) fn bytes_as_mut(b: &mut bytes::BytesMut) -> (r: &mut [u8])
    ensures
        r@ == bytes_contents(*old(b)),
        bytes_contents(*final(b)) == final(r)@,
{
    b.as_mut()
}

/// `<Vec<u8> as From<BytesMut>>::from`: the bytes held, as a vector.
#[verifier::external_body]
pub(crate) fn bytes_into_vec(b: bytes::BytesMut) -> (r: Vec<u8>)
    ensures
        r@ == bytes_contents(b),
{
    Vec::from(b)
}

} // verus!
