//! The buffer that a reader hands in.

use tokio::io::ReadBuf;
use vstd::prelude::*;

verus! {

/// The read buffer of the `tokio` crate, opaque to the verifier.
#[verifier::external_type_specification]
#[verifier::external_body]
pub struct ExReadBuf<'a>(tokio::io::ReadBuf<'a>);

/// The bytes that a read buffer has been filled with.
pub uninterp spec fn filled_bytes(buf: &ReadBuf<'_>) -> Seq<u8>;

/// The number of bytes that a read buffer can be filled with in all.
pub uninterp spec fn buf_capacity(buf: &ReadBuf<'_>) -> nat;

/// Calls `ReadBuf::remaining`: the number of bytes that still fit in.
#[verifier::external_body]
pub(crate) fn remaining(buf: &ReadBuf<'_>) -> (room: usize)
    ensures
        filled_bytes(buf).len() + room == buf_capacity(buf),
{
    buf.remaining()
}

/// Calls `ReadBuf::put_slice`: appends `data` to the bytes that the buffer is filled with.
/// The call panics where `data` does not fit in, which `requires` rules out.
#[verifier::external_body]
pub(crate) fn put_slice(buf: &mut ReadBuf<'_>, data: &[u8])
    requires
        filled_bytes(&*old(buf)).len() + data@.len() <= buf_capacity(&*old(buf)),
    ensures
        filled_bytes(&*final(buf)) == filled_bytes(&*old(buf)) + data@,
        buf_capacity(&*final(buf)) == buf_capacity(&*old(buf)),
{
    buf.put_slice(data)
}

/// Whether `count` more bytes fit into `buf`.
pub open spec fn has_room(buf: &ReadBuf<'_>, count: nat) -> bool {
    filled_bytes(buf).len() + count <= buf_capacity(buf)
}

/// Whether `count` more bytes fit into `buf`.
pub fn fits(buf: &ReadBuf<'_>, count: usize) -> (fit: bool)
    ensures
        fit == has_room(buf, count as nat),
        fit <==> filled_bytes(buf).len() + count <= buf_capacity(buf),
{
    count <= remaining(buf)
}

} // verus!
