//! Byte buffers of the `bytes` crate, and what this crate relies on of them.

use bytes::{BufMut, Bytes, BytesMut};
use vstd::prelude::*;

verus! {

/// `bytes::Bytes`: a shared run of bytes.
#[verifier::external_type_specification]
#[verifier::external_body]
pub struct ExBytes(bytes::Bytes);

/// `bytes::BytesMut`: a growable run of bytes.
#[verifier::external_type_specification]
#[verifier::external_body]
pub struct ExBytesMut(bytes::BytesMut);

/// The bytes that a `Bytes` holds.
pub uninterp spec fn content(b: bytes::Bytes) -> Seq<u8>;

/// The bytes that a `BytesMut` holds.
pub uninterp spec fn written(b: bytes::BytesMut) -> Seq<u8>;

/// The most bytes a buffer is ever asked to hold. A buffer doubles as it
/// grows, and no allocation is larger than `isize::MAX` bytes.
pub open spec fn max_bytes() -> int {
    isize::MAX / 2
}

/// `BytesMut::with_capacity`: an empty buffer with room reserved.
#[verifier::external_body]
pub(crate) fn buffer(capacity: usize) -> (r: BytesMut)
    requires
        capacity <= isize::MAX,
    ensures
        written(r) == Seq::<u8>::empty(),
{
    BytesMut::with_capacity(capacity)
}

/// `BufMut::put_slice` of a `BytesMut`: the bytes go at the end.
#[verifier::external_body]
pub(crate) fn put_slice(out: &mut BytesMut, bytes: &[u8])
    requires
        written(*old(out)).len() + bytes@.len() <= max_bytes(),
    ensures
        written(*final(out)) == written(*old(out)) + bytes@,
{
    out.put_slice(bytes)
}

/// `BufMut::put_u8` of a `BytesMut`: the byte goes at the end.
#[verifier::external_body]
pub(crate) fn put_u8(out: &mut BytesMut, byte: u8)
    requires
        written(*old(out)).len() + 1 <= max_bytes(),
    ensures
        written(*final(out)) == written(*old(out)).push(byte),
{
    out.put_u8(byte)
}

/// `BytesMut::freeze`: the same bytes, from now on shared and immutable.
#[verifier::external_body]
pub(crate) fn freeze(out: BytesMut) -> (r: Bytes)
    ensures
        content(r) == written(out),
{
    out.freeze()
}

/// `Bytes::clone`: another handle on the same bytes.
#[verifier::external_body]
pub(crate) fn share(b: &Bytes) -> (r: Bytes)
    ensures
        content(r) == content(*b),
{
    b.clone()
}

/// `Bytes::from_static`: a handle on bytes that live for ever.
#[verifier::external_body]
pub(crate) fn from_static(bytes: &'static [u8]) -> (r: Bytes)
    ensures
        content(r) == bytes@,
{
    Bytes::from_static(bytes)
}

} // verus!
