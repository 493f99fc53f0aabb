//! The byte containers of the `bytes` crate, as the verifier is to see them.
//!
//! Nothing here is proved. Each item states what the `bytes` crate does, and
//! the rest of the crate is proved on top of these statements.

use bytes::{Buf, Bytes, BytesMut};
use vstd::prelude::*;

verus! {

/// `bytes::Bytes`: an immutable, cheaply shareable string of bytes. Verified
/// code sees no field of it, only `bytes_seq`.
#[verifier::external_type_specification]
#[verifier::external_body]
pub struct ExBytes(bytes::Bytes);

/// `bytes::BytesMut`: a growable byte buffer whose front can be cut off.
/// Verified code sees no field of it, only `bytes_mut_seq`.
#[verifier::external_type_specification]
#[verifier::external_body]
pub struct ExBytesMut(bytes::BytesMut);

/// The bytes that a `Bytes` holds, first to last.
pub uninterp spec fn bytes_seq(b: Bytes) -> Seq<u8>;

/// The bytes that a `BytesMut` holds, first to last.
pub uninterp spec fn bytes_mut_seq(b: BytesMut) -> Seq<u8>;

/// `Bytes::copy_from_slice` copies the slice: the new `Bytes` holds exactly
/// the bytes of `data`.
pub assume_specification[ Bytes::copy_from_slice ](data: &[u8]) -> (b: Bytes)
    ensures
        bytes_seq(b) == data@,
;

/// `Bytes::from(Vec<u8>)` takes the vector's allocation over: the new `Bytes`
/// holds exactly the bytes that the vector held.
#[verifier::external_body]
pub(crate) fn bytes_from_vec(v: Vec<u8>) -> (b: Bytes)
    ensures
        bytes_seq(b) == v@,
{
    Bytes::from(v)
}

/// `AsRef<[u8]> for Bytes` lends the bytes as a slice, all of them and in
/// order.
#[verifier::external_body]
pub(crate) fn bytes_as_slice(b: &Bytes) -> (s: &[u8])
    ensures
        s@ == bytes_seq(*b),
{
    b.as_ref()
}

/// `BytesMut::with_capacity` makes an empty buffer; `capacity` only sizes the
/// first allocation, which std refuses above `isize::MAX`.
pub assume_specification[ BytesMut::with_capacity ](capacity: usize) -> (b: BytesMut)
    requires
        capacity <= isize::MAX,
    ensures
        bytes_mut_seq(b) == Seq::<u8>::empty(),
;

/// `AsRef<[u8]> for BytesMut` lends the buffered bytes as a slice, all of
/// them and in order.
#[verifier::external_body]
pub(crate) fn bytes_mut_as_slice(b: &BytesMut) -> (s: &[u8])
    ensures
        s@ == bytes_mut_seq(*b),
{
    b.as_ref()
}

/// `Buf::advance` on a `BytesMut` drops the first `cnt` bytes and keeps the
/// rest. It panics when asked for more than the buffer holds, which the
/// precondition rules out.
#[verifier::external_body]
pub(crate) fn bytes_mut_advance(b: &mut BytesMut, cnt: usize)
    requires
        cnt <= bytes_mut_seq(*old(b)).len(),
    ensures
        bytes_mut_seq(*final(b)) == bytes_mut_seq(*old(b)).skip(cnt as int),
{
    b.advance(cnt)
}

} // verus!
