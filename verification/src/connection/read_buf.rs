//! The buffers of the `tokio` crate into which streams are read.

use tokio::io::ReadBuf;
use vstd::prelude::*;

verus! {

/// Declares `tokio::io::ReadBuf`, a buffer of fixed capacity that is filled from its start.
#[verifier::external_type_specification]
#[verifier::external_body]
pub struct ExReadBuf<'a>(tokio::io::ReadBuf<'a>);

/// The bytes with which a buffer has been filled.
pub uninterp spec fn read_buf_filled(b: ReadBuf) -> Seq<u8>;

/// The number of bytes that a buffer has room for, filled or not.
pub uninterp spec fn read_buf_capacity(b: ReadBuf) -> nat;

/// How many more bytes go into a buffer.
pub open spec fn read_buf_room(b: ReadBuf) -> int {
    read_buf_capacity(b) - read_buf_filled(b).len()
}

/// `ReadBuf::new`: a buffer over the slice, with nothing filled yet. What the slice holds once the
/// buffer was filled and let go of is not said.
#[verifier::external_body]
pub(crate) fn read_buf_new<'a>(buf: &'a mut [u8]) -> (r: ReadBuf<'a>)
    ensures
        read_buf_filled(r).len() == 0,
        read_buf_capacity(r) == old(buf)@.len(),
{
    ReadBuf::new(buf)
}

/// `ReadBuf::capacity`: the number of bytes that the buffer has room for.
#[verifier::external_body]
pub(crate) fn read_buf_size(b: &ReadBuf) -> (n: usize)
    ensures
        n == read_buf_capacity(*b),
{
    b.capacity()
}

/// `ReadBuf::remaining`: how many more bytes go into the buffer.
#[verifier::external_body]
pub(crate) fn read_buf_remaining(b: &ReadBuf) -> (n: usize)
    ensures
        n == read_buf_room(*b),
{
    b.remaining()
}

/// `ReadBuf::filled`: the bytes with which the buffer has been filled.
#[verifier::external_body]
pub(crate) fn read_buf_contents<'b>(b: &'b ReadBuf) -> (r: &'b [u8])
    ensures
        r@ == read_buf_filled(*b),
{
    b.filled()
}

/// `ReadBuf::put_slice`: fills in the bytes behind those that are there. It panics where they do
/// not fit.
#[verifier::external_body]
pub(crate) fn read_buf_put(b: &mut ReadBuf, data: &[u8])
    requires
        data@.len() <= read_buf_room(*old(b)),
    ensures
        read_buf_filled(*final(b)) == read_buf_filled(*old(b)) + data@,
        read_buf_capacity(*final(b)) == read_buf_capacity(*old(b)),
{
    b.put_slice(data)
}

} // verus!
