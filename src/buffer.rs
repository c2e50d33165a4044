use vstd::prelude::*;
use tokio_util::bytes::Buf;
use tokio_util::bytes::BytesMut;

verus! {

#[verifier::external_type_specification]
#[verifier::external_body]
pub struct ExBytesMut(BytesMut);

/// The bytes that a `BytesMut` holds, front first.
pub uninterp spec fn buf_bytes(b: BytesMut) -> Seq<u8>;

/// Relies on `BytesMut::len`: the number of bytes held.
#[verifier::external_body]
pub(crate) fn buf_len(b: &BytesMut) -> (r: usize)
    ensures
        r == buf_bytes(*b).len(),
{
    b.len()
}

/// Relies on indexing through `BytesMut`'s `Deref` to `[u8]`: the byte at
/// position `i` of the held bytes.
#[verifier::external_body]
pub(crate) fn buf_at(b: &BytesMut, i: usize) -> (r: u8)
    requires
        i < buf_bytes(*b).len(),
    ensures
        r == buf_bytes(*b)[i as int],
{
    b[i]
}

/// Relies on `Buf::advance` for `BytesMut`: drops the first `n` bytes
/// (it panics past the end, which `requires` rules out).
#[verifier::external_body]
pub(crate) fn buf_advance(b: &mut BytesMut, n: usize)
    requires
        n <= buf_bytes(*old(b)).len(),
    ensures
        buf_bytes(*final(b)) == buf_bytes(*old(b)).subrange(n as int, buf_bytes(*old(b)).len() as int),
{
    b.advance(n)
}

/// Relies on `BytesMut::split_to`: the first `n` bytes leave the buffer
/// and are handed back, here copied into a `Vec` (it panics past the end,
/// which `requires` rules out).
#[verifier::external_body]
pub(crate) fn buf_split_to(b: &mut BytesMut, n: usize) -> (r: Vec<u8>)
    requires
        n <= buf_bytes(*old(b)).len(),
    ensures
        r@ == buf_bytes(*old(b)).subrange(0, n as int),
        buf_bytes(*final(b)) == buf_bytes(*old(b)).subrange(n as int, buf_bytes(*old(b)).len() as int),
{
    b.split_to(n).to_vec()
}

/// Relies on `BytesMut::extend_from_slice`: appends the given bytes.
#[verifier::external_body]
pub(crate) fn buf_extend(b: &mut BytesMut, s: &[u8])
    ensures
        buf_bytes(*final(b)) == buf_bytes(*old(b)) + s@,
{
    b.extend_from_slice(s)
}

} // verus!
