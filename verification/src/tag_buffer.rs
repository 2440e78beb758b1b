use vstd::prelude::*;
use smallvec::SmallVec;

verus! {

/// A buffer for a tag's bytes, held in a `SmallVec` with room for 64 bytes, so
/// that short tags need no allocation. Nothing is known of it but through
/// `buffer_bytes`.
#[verifier::external_body]
pub struct TagBuffer {
    inner: SmallVec<[u8; 64]>,
}

/// The bytes that a tag buffer holds, in order.
pub uninterp spec fn buffer_bytes(buffer: TagBuffer) -> Seq<u8>;

/// Calls `SmallVec::new`, which makes an empty vector. Claimed of it: the new
/// buffer holds no byte.
#[verifier::external_body]
pub(crate) fn buffer_new() -> (r: TagBuffer)
    ensures
        buffer_bytes(r) == Seq::<u8>::empty(),
{
    TagBuffer { inner: SmallVec::new() }
}

/// Calls `SmallVec::push`, which appends an item to the vector. Claimed of it:
/// the buffer afterwards holds what it held before, with the byte at its end.
#[verifier::external_body]
pub(crate) fn buffer_push(buffer: &mut TagBuffer, b: u8)
    ensures
        buffer_bytes(*final(buffer)) == buffer_bytes(*old(buffer)).push(b),
{
    buffer.inner.push(b)
}

/// Calls `SmallVec::as_slice`, which gives the whole vector as a slice. Claimed
/// of it: the slice holds the bytes of the buffer, in order.
#[verifier::external_body]
pub(crate) fn buffer_slice(buffer: &TagBuffer) -> (r: &[u8])
    ensures
        r@ == buffer_bytes(*buffer),
{
    buffer.inner.as_slice()
}

impl TagBuffer {
    /// The bytes that the buffer holds.
    pub fn as_bytes(&self) -> (r: &[u8])
        ensures
            r@ == buffer_bytes(*self),
    {
        buffer_slice(self)
    }
}

} // verus!
