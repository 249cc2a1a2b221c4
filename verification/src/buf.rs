//! The byte buffers of the `bytes` crate, as the codec uses them.
//!
//! Every item here states what one function of `bytes` does to the bytes that a
//! buffer holds. Running out of memory is not modelled, as for `Vec`.

use bytes::{Buf, BufMut, Bytes, BytesMut};
use vstd::prelude::*;

verus! {

/// `bytes::BytesMut`, a growable byte buffer.
#[verifier::external_type_specification]
#[verifier::external_body]
pub struct ExBytesMut(bytes::BytesMut);

/// `bytes::Bytes`, an immutable shared run of bytes.
#[verifier::external_type_specification]
#[verifier::external_body]
pub struct ExBytes(bytes::Bytes);

/// The bytes that a `BytesMut` holds, in order.
pub uninterp spec fn contents(b: bytes::BytesMut) -> Seq<u8>;

/// The capacity that a `BytesMut` was made with. What the allocator gives may be
/// more, and only calls that never lower it keep this.
pub uninterp spec fn room(b: bytes::BytesMut) -> nat;

/// The bytes that a `Bytes` holds, in order.
pub uninterp spec fn payload(b: bytes::Bytes) -> Seq<u8>;

/// `BytesMut::new`: the new buffer is empty.
pub assume_specification[ bytes::BytesMut::new ]() -> (b: BytesMut)
    ensures
        contents(b) == Seq::<u8>::empty(),
;

/// `BytesMut::with_capacity`: the new buffer is empty, and made with room for
/// `capacity` bytes.
pub assume_specification[ bytes::BytesMut::with_capacity ](capacity: usize) -> (b: BytesMut)
    ensures
        contents(b) == Seq::<u8>::empty(),
        room(b) == capacity,
;

/// `BytesMut::len`: the number of bytes held.
pub assume_specification[ bytes::BytesMut::len ](b: &BytesMut) -> (n: usize)
    ensures
        n == contents(*b).len(),
;

/// `BytesMut::is_empty`: whether no byte is held.
pub assume_specification[ bytes::BytesMut::is_empty ](b: &BytesMut) -> (r: bool)
    ensures
        r == (contents(*b).len() == 0),
;

/// `BytesMut::capacity`: how much fits without a new allocation. It is at least
/// what is held, and at least what the buffer was made with. How much more it
/// is is the allocator's choice, so nothing more is stated.
pub assume_specification[ bytes::BytesMut::capacity ](b: &BytesMut) -> (n: usize)
    ensures
        n >= contents(*b).len(),
        n >= room(*b),
;

/// `BytesMut::split_to`: takes the first `at` bytes out of the buffer. It
/// panics where the buffer holds fewer.
pub assume_specification[ bytes::BytesMut::split_to ](b: &mut BytesMut, at: usize) -> (r: BytesMut)
    requires
        at <= contents(*old(b)).len(),
    ensures
        contents(r) == contents(*old(b)).take(at as int),
        contents(*final(b)) == contents(*old(b)).skip(at as int),
;

/// `BytesMut::split_off`: takes everything from `at` on out of the buffer. It
/// panics beyond the capacity, which is never less than the length.
pub assume_specification[ bytes::BytesMut::split_off ](b: &mut BytesMut, at: usize) -> (r: BytesMut)
    requires
        at <= contents(*old(b)).len(),
    ensures
        contents(r) == contents(*old(b)).skip(at as int),
        contents(*final(b)) == contents(*old(b)).take(at as int),
;

/// `BytesMut::truncate`: keeps the first `len` bytes, or all if there are fewer.
pub assume_specification[ bytes::BytesMut::truncate ](b: &mut BytesMut, len: usize)
    ensures
        contents(*final(b)) == if len <= contents(*old(b)).len() {
            contents(*old(b)).take(len as int)
        } else {
            contents(*old(b))
        },
;

/// `BytesMut::clear`: drops every byte, and keeps the room.
pub assume_specification[ bytes::BytesMut::clear ](b: &mut BytesMut)
    ensures
        contents(*final(b)) == Seq::<u8>::empty(),
        room(*final(b)) == room(*old(b)),
;

/// `BytesMut::extend_from_slice`: appends the slice. Where it has to reserve
/// more, the capacity only grows.
pub assume_specification[ bytes::BytesMut::extend_from_slice ](b: &mut BytesMut, extend: &[u8])
    ensures
        contents(*final(b)) == contents(*old(b)) + extend@,
        room(*final(b)) == room(*old(b)),
;

/// `BytesMut::unsplit`: appends the bytes of another buffer.
pub assume_specification[ bytes::BytesMut::unsplit ](b: &mut BytesMut, other: BytesMut)
    ensures
        contents(*final(b)) == contents(*old(b)) + contents(other),
;

/// `BytesMut::freeze`: the same bytes, now immutable.
pub assume_specification[ bytes::BytesMut::freeze ](b: BytesMut) -> (r: Bytes)
    ensures
        payload(r) == contents(b),
;

/// `Bytes::len`: the number of bytes held.
pub assume_specification[ bytes::Bytes::len ](b: &Bytes) -> (n: usize)
    ensures
        n == payload(*b).len(),
;

/// `Bytes::new`: no byte.
pub assume_specification[ bytes::Bytes::new ]() -> (b: Bytes)
    ensures
        payload(b) == Seq::<u8>::empty(),
;

/// `Bytes::copy_from_slice`: a copy of the slice.
pub assume_specification[ bytes::Bytes::copy_from_slice ](data: &[u8]) -> (b: Bytes)
    ensures
        payload(b) == data@,
;

/// `Bytes::split_to`: takes the first `at` bytes out. It panics where there are
/// fewer.
pub assume_specification[ bytes::Bytes::split_to ](b: &mut Bytes, at: usize) -> (r: Bytes)
    requires
        at <= payload(*old(b)).len(),
    ensures
        payload(r) == payload(*old(b)).take(at as int),
        payload(*final(b)) == payload(*old(b)).skip(at as int),
;

/// `Bytes::truncate`: keeps the first `len` bytes, or all if there are fewer.
pub assume_specification[ bytes::Bytes::truncate ](b: &mut Bytes, len: usize)
    ensures
        payload(*final(b)) == if len <= payload(*old(b)).len() {
            payload(*old(b)).take(len as int)
        } else {
            payload(*old(b))
        },
;

/// `Buf::advance` of `BytesMut`: drops the first `cnt` bytes. It panics where
/// the buffer holds fewer.
#[verifier::external_body]
pub(crate) fn advance(b: &mut BytesMut, cnt: usize)
    requires
        cnt <= contents(*old(b)).len(),
    ensures
        contents(*final(b)) == contents(*old(b)).skip(cnt as int),
{
    b.advance(cnt);
}

/// `Deref` of `BytesMut`: the bytes held, as a slice.
#[verifier::external_body]
pub(crate) fn as_slice(b: &BytesMut) -> (s: &[u8])
    ensures
        s@ == contents(*b),
{
    b
}

/// `Deref` of `Bytes`: the bytes held, as a slice.
#[verifier::external_body]
pub(crate) fn bytes_slice(b: &Bytes) -> (s: &[u8])
    ensures
        s@ == payload(*b),
{
    b
}

/// `BufMut::put_u8` of `BytesMut`: appends one byte. Where it has to reserve
/// more, the capacity only grows.
#[verifier::external_body]
pub(crate) fn put_u8(b: &mut BytesMut, n: u8)
    ensures
        contents(*final(b)) == contents(*old(b)).push(n),
        room(*final(b)) == room(*old(b)),
{
    b.put_u8(n);
}

} // verus!
