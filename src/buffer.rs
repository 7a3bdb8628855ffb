//! The byte buffer that a framed reader fills and the decoder drains.

use vstd::prelude::*;
use bytes::BytesMut;

verus! {

#[verifier::external_type_specification]
#[verifier::external_body]
pub struct TermBuffer(BytesMut);

/// The bytes that a buffer holds, front first.
pub uninterp spec fn buffered(b: BytesMut) -> Seq<u8>;

/// Relies on `BytesMut`'s `Deref` to `[u8]`: the slice is the buffered bytes.
#[verifier::external_body]
pub(crate) fn contents(b: &BytesMut) -> (r: Vec<u8>)
    ensures
        r@ == buffered(*b),
{
    b.to_vec()
}

/// Relies on `bytes::Buf::advance` for `BytesMut`: drops the first `n` bytes.
#[verifier::external_body]
pub(crate) fn drop_front(b: &mut BytesMut, n: usize)
    requires
        n <= buffered(*old(b)).len(),
    ensures
        buffered(*final(b)) == buffered(*old(b)).skip(n as int),
{
    bytes::Buf::advance(b, n)
}

/// Relies on `BytesMut::new`: an empty buffer.
#[verifier::external_body]
pub(crate) fn empty_buffer() -> (r: BytesMut)
    ensures
        buffered(r) == Seq::<u8>::empty(),
{
    BytesMut::new()
}

/// Relies on `BytesMut::extend_from_slice`: appends the bytes at the back.
#[verifier::external_body]
pub(crate) fn append(b: &mut BytesMut, s: &[u8])
    ensures
        buffered(*final(b)) == buffered(*old(b)) + s@,
{
    b.extend_from_slice(s)
}

} // verus!
