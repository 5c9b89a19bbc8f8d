//! Byte buffers of the `bytes` crate: what they hold, and what their operations do to it.

use bytes::{BufMut, Bytes, BytesMut};
use vstd::prelude::*;

verus! {

/// Declares `bytes::Bytes`, a cheaply cloneable run of bytes.
#[verifier::external_type_specification]
#[verifier::external_body]
pub struct ExBytes(bytes::Bytes);

/// Declares `bytes::BytesMut`, a growable run of bytes.
#[verifier::external_type_specification]
#[verifier::external_body]
pub struct ExBytesMut(bytes::BytesMut);

/// The bytes that a `Bytes` holds.
pub uninterp spec fn bytes_content(b: Bytes) -> Seq<u8>;

/// The bytes that a `BytesMut` holds.
pub uninterp spec fn bytes_mut_content(b: BytesMut) -> Seq<u8>;

/// `Bytes::new`: a buffer that holds nothing.
pub assume_specification[ bytes::Bytes::new ]() -> (r: bytes::Bytes)
    ensures
        bytes_content(r) == Seq::<u8>::empty(),
;

/// `Bytes::len`: the number of bytes held.
pub assume_specification[ bytes::Bytes::len ](b: &bytes::Bytes) -> (n: usize)
    ensures
        n == bytes_content(*b).len(),
;

/// `Bytes::copy_from_slice`: a buffer of its own with the same bytes.
pub assume_specification[ bytes::Bytes::copy_from_slice ](data: &[u8]) -> (r: bytes::Bytes)
    ensures
        bytes_content(r) == data@,
;

/// `Bytes::slice`: the bytes from `begin` up to, not including, `end`. It panics on a range that
/// runs backwards or past the end.
#[verifier::external_body]
pub(crate) fn bytes_slice(b: &Bytes, begin: usize, end: usize) -> (r: Bytes)
    requires
        begin <= end <= bytes_content(*b).len(),
    ensures
        bytes_content(r) == bytes_content(*b).subrange(begin as int, end as int),
{
    b.slice(begin..end)
}

/// `Bytes::clone`: a second handle on the same bytes.
pub assume_specification[ <bytes::Bytes as Clone>::clone ](b: &bytes::Bytes) -> (r: bytes::Bytes)
    ensures
        bytes_content(r) == bytes_content(*b),
;

/// `Bytes::from` on a `Vec<u8>`: the same bytes, moved into a `Bytes`.
#[verifier::external_body]
pub(crate) fn bytes_from_vec(v: Vec<u8>) -> (r: Bytes)
    ensures
        bytes_content(r) == v@,
{
    Bytes::from(v)
}

/// `Bytes::deref`: the bytes held, as a slice.
#[verifier::external_body]
pub(crate) fn bytes_as_slice(b: &Bytes) -> (r: &[u8])
    ensures
        r@ == bytes_content(*b),
{
    b
}

/// `BytesMut::len`: the number of bytes held.
pub assume_specification[ bytes::BytesMut::len ](b: &bytes::BytesMut) -> (n: usize)
    ensures
        n == bytes_mut_content(*b).len(),
;

/// `BufMut::put_u16` on a `BytesMut`: appends the number, high byte first. It panics when the
/// buffer cannot grow any more.
#[verifier::external_body]
pub(crate) fn bytes_mut_put_u16(b: &mut BytesMut, n: u16)
    requires
        bytes_mut_content(*old(b)).len() + 2 <= usize::MAX,
    ensures
        bytes_mut_content(*final(b)) == bytes_mut_content(*old(b)).push((n / 256) as u8).push(
            (n % 256) as u8,
        ),
{
    b.put_u16(n)
}

/// `Extend::extend` of a `BytesMut` with a `Bytes`: appends the bytes. It panics when the buffer
/// cannot grow any more.
#[verifier::external_body]
pub(crate) fn bytes_mut_extend(b: &mut BytesMut, tail: Bytes)
    requires
        bytes_mut_content(*old(b)).len() + bytes_content(tail).len() <= usize::MAX,
    ensures
        bytes_mut_content(*final(b)) == bytes_mut_content(*old(b)) + bytes_content(tail),
{
    b.extend(tail)
}

/// `BytesMut::from` on a `Bytes`: the same bytes, in a buffer that can grow.
#[verifier::external_body]
pub(crate) fn bytes_mut_from(b: Bytes) -> (r: BytesMut)
    ensures
        bytes_mut_content(r) == bytes_content(b),
{
    BytesMut::from(b)
}

} // verus!
