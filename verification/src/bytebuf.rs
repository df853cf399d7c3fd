//! The trusted boundary around `bytes::BytesMut`, the byte buffer the
//! stream adapter reads from and the serializer appends to. Verus sees the
//! buffer only through `buf_bytes`, the sequence of bytes it currently
//! holds; each wrapper states what one `bytes` operation does to it.

use vstd::prelude::*;

verus! {

use bytes::BytesMut;

#[verifier::external_type_specification]
#[verifier::external_body]
pub struct ExBytesMut(BytesMut);

/// The bytes a `BytesMut` currently holds, front to back.
pub uninterp spec fn buf_bytes(b: BytesMut) -> Seq<u8>;

/// Relies on `bytes::BytesMut::len`: the number of bytes held.
#[verifier::external_body]
pub fn buf_len(b: &BytesMut) -> (n: usize)
    ensures
        n == buf_bytes(*b).len(),
{
    b.len()
}

/// Relies on `AsRef<[u8]>` for `bytes::BytesMut`: a slice of the held bytes.
#[verifier::external_body]
pub fn buf_as_slice(b: &BytesMut) -> (s: &[u8])
    ensures
        s@ == buf_bytes(*b),
{
    b.as_ref()
}

/// Relies on `bytes::BytesMut::extend_from_slice`: appends `s`, growing the
/// buffer as needed.
#[verifier::external_body]
pub fn buf_extend(b: &mut BytesMut, s: &[u8])
    requires
        buf_bytes(*old(b)).len() + s@.len() <= usize::MAX,
    ensures
        buf_bytes(*final(b)) == buf_bytes(*old(b)) + s@,
{
    b.extend_from_slice(s)
}

/// Relies on `bytes::BytesMut::extend_from_slice`: appends one byte.
#[verifier::external_body]
pub fn buf_put_u8(b: &mut BytesMut, x: u8)
    requires
        buf_bytes(*old(b)).len() + 1 <= usize::MAX,
    ensures
        buf_bytes(*final(b)) == buf_bytes(*old(b)).push(x),
{
    b.extend_from_slice(&[x])
}

/// Relies on `bytes::BytesMut::advance`: discards the first `n` held bytes.
/// `advance` panics past the end, so `n` is bounded by the length.
#[verifier::external_body]
pub fn buf_advance(b: &mut BytesMut, n: usize)
    requires
        n <= buf_bytes(*old(b)).len(),
    ensures
        buf_bytes(*final(b)) == buf_bytes(*old(b)).skip(n as int),
{
    b.advance(n)
}

} // verus!
