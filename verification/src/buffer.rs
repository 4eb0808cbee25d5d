//! The receive buffer the tunnel reads into: `bytes::BytesMut`, declared to
//! Verus as an opaque type whose contents are named by [`buf_contents`].
use vstd::prelude::*;

verus! {

#[verifier::external_type_specification]
#[verifier::external_body]
pub struct ExBytesMut(bytes::BytesMut);

/// The bytes currently held by a `BytesMut`, front first.
pub uninterp spec fn buf_contents(b: bytes::BytesMut) -> Seq<u8>;

/// `BytesMut::len`: the number of bytes held.
#[verifier::external_body]
pub(crate) fn buf_len(b: &bytes::BytesMut) -> (n: usize)
    ensures
        n == buf_contents(*b).len(),
{
    b.len()
}

/// Indexing a `BytesMut` (through its `Deref` to `[u8]`): the byte at `i`.
#[verifier::external_body]
pub(crate) fn buf_byte(b: &bytes::BytesMut, i: usize) -> (r: u8)
    requires
        i < buf_contents(*b).len(),
    ensures
        r == buf_contents(*b)[i as int],
{
    b[i]
}

/// `BytesMut::split_to(n)` followed by `to_vec`: removes the first `n` bytes
/// from the buffer and hands them back as a `Vec`. The crate panics when `n`
/// exceeds the length, which `requires` rules out.
#[verifier::external_body]
pub(crate) fn buf_take_front(b: &mut bytes::BytesMut, n: usize) -> (r: Vec<u8>)
    requires
        n <= buf_contents(*old(b)).len(),
    ensures
        r@ == buf_contents(*old(b)).take(n as int),
        buf_contents(*final(b)) == buf_contents(*old(b)).skip(n as int),
{
    b.split_to(n).to_vec()
}

} // verus!
