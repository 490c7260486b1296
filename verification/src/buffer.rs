//! The growable byte buffer of the `bytes` crate, as far as this library
//! uses it.  Nothing in this file is proved: each contract states what the
//! crate's source shows of the function it names.

use vstd::prelude::*;

verus! {

/// The outside type `bytes::BytesMut`, a growable buffer of bytes.
#[verifier::external_type_specification]
#[verifier::external_body]
pub struct ExBytesMut(bytes::BytesMut);

/// The bytes that a buffer holds, first to last.
pub uninterp spec fn buffered(buffer: bytes::BytesMut) -> Seq<u8>;

/// `BytesMut::new`: the new buffer holds nothing.
pub assume_specification[ bytes::BytesMut::new ]() -> (r: bytes::BytesMut)
    ensures
        buffered(r) == Seq::<u8>::empty(),
;

/// `BytesMut::len`: the number of bytes held.
pub assume_specification[ bytes::BytesMut::len ](buffer: &bytes::BytesMut) -> (r: usize)
    ensures
        r == buffered(*buffer).len(),
;

/// `BytesMut::is_empty`: whether no byte is held.
pub assume_specification[ bytes::BytesMut::is_empty ](buffer: &bytes::BytesMut) -> (r: bool)
    ensures
        r == (buffered(*buffer).len() == 0),
;

/// `BytesMut::extend_from_slice`: the given bytes are added behind those
/// held.  The call panics where the new length overflows `usize`.
pub assume_specification[ bytes::BytesMut::extend_from_slice ](
    buffer: &mut bytes::BytesMut,
    extend: &[u8],
)
    requires
        buffered(*old(buffer)).len() + extend@.len() <= usize::MAX,
    ensures
        buffered(*final(buffer)) == buffered(*old(buffer)) + extend@,
;

/// `BytesMut::advance`: the first `cnt` bytes are dropped and the rest is
/// kept.  The call panics where `cnt` is more than the buffer holds.
pub assume_specification[ bytes::BytesMut::advance ](buffer: &mut bytes::BytesMut, cnt: usize)
    requires
        cnt <= buffered(*old(buffer)).len(),
    ensures
        buffered(*final(buffer)) == buffered(*old(buffer)).skip(cnt as int),
;

/// A copy of the bytes held, through the buffer's `Deref` to a slice and
/// `to_vec` on that slice.
#[verifier::external_body]
pub(crate) fn buffer_to_vec(buffer: &bytes::BytesMut) -> (r: Vec<u8>)
    ensures
        r@ == buffered(*buffer),
{
    buffer.to_vec()
}

} // verus!
