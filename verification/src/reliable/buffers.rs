//! The byte buffers of the `bytes` crate.

use bytes::{Buf, BufMut};
use vstd::prelude::*;

verus! {

/// A cheaply cloneable slice of bytes, read from the front.
#[verifier::external_type_specification]
#[verifier::external_body]
pub struct ExBytes(bytes::Bytes);

/// A growable buffer of bytes, written to at the end.
#[verifier::external_type_specification]
#[verifier::external_body]
pub struct ExBytesMut(bytes::BytesMut);

/// The bytes that are left to be read.
pub uninterp spec fn bytes_contents(b: bytes::Bytes) -> Seq<u8>;

/// The bytes that have been written.
pub uninterp spec fn buffer_contents(b: bytes::BytesMut) -> Seq<u8>;

/// `Buf::remaining` of `Bytes`: how many bytes are left.
#[verifier::external_body]
pub(crate) fn remaining(b: &bytes::Bytes) -> (r: usize)
    ensures
        r == bytes_contents(*b).len(),
{
    b.remaining()
}

/// `Buf::get_u8` of `Bytes`: takes the first byte.
#[verifier::external_body]
pub(crate) fn get_u8(b: &mut bytes::Bytes) -> (r: u8)
    requires
        bytes_contents(*old(b)).len() >= 1,
    ensures
        r == bytes_contents(*old(b))[0],
        bytes_contents(*final(b)) == bytes_contents(*old(b)).skip(1),
{
    b.get_u8()
}

/// `Buf::get_u16_le` of `Bytes`: takes the first two bytes, the lower one first.
#[verifier::external_body]
pub(crate) fn get_u16_le(b: &mut bytes::Bytes) -> (r: u16)
    requires
        bytes_contents(*old(b)).len() >= 2,
    ensures
        r == bytes_contents(*old(b))[0] + 256 * bytes_contents(*old(b))[1],
        bytes_contents(*final(b)) == bytes_contents(*old(b)).skip(2),
{
    b.get_u16_le()
}

/// `Bytes::as_ref`: the bytes that are left, as a slice.
#[verifier::external_body]
pub(crate) fn as_slice(b: &bytes::Bytes) -> (r: &[u8])
    ensures
        r@ == bytes_contents(*b),
{
    b.as_ref()
}

/// `BytesMut::with_capacity`: an empty buffer.
#[verifier::external_body]
pub(crate) fn with_capacity(capacity: usize) -> (r: bytes::BytesMut)
    requires
        capacity <= isize::MAX,
    ensures
        buffer_contents(r).len() == 0,
{
    bytes::BytesMut::with_capacity(capacity)
}

/// `BufMut::put_u8` of `BytesMut`: appends a byte.
#[verifier::external_body]
pub(crate) fn put_u8(b: &mut bytes::BytesMut, n: u8)
    requires
        buffer_contents(*old(b)).len() + 1 <= isize::MAX,
    ensures
        buffer_contents(*final(b)) == buffer_contents(*old(b)).push(n),
{
    b.put_u8(n)
}

/// `BufMut::put_u16_le` of `BytesMut`: appends two bytes, the lower one first.
#[verifier::external_body]
pub(crate) fn put_u16_le(b: &mut bytes::BytesMut, n: u16)
    requires
        buffer_contents(*old(b)).len() + 2 <= isize::MAX,
    ensures
        buffer_contents(*final(b)) == buffer_contents(*old(b)).push((n % 256) as u8).push(
            (n / 256) as u8,
        ),
{
    b.put_u16_le(n)
}

/// `BytesMut::extend_from_slice`: appends all of a slice.
#[verifier::external_body]
pub(crate) fn extend_from_slice(b: &mut bytes::BytesMut, s: &[u8])
    requires
        buffer_contents(*old(b)).len() + s@.len() <= isize::MAX,
    ensures
        buffer_contents(*final(b)) == buffer_contents(*old(b)) + s@,
{
    b.extend_from_slice(s)
}

/// `BytesMut::freeze`: the bytes that have been written, to be read.
#[verifier::external_body]
pub(crate) fn freeze(b: bytes::BytesMut) -> (r: bytes::Bytes)
    ensures
        bytes_contents(r) == buffer_contents(b),
{
    b.freeze()
}

} // verus!
