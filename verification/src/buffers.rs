//! The byte buffers of the `bytes` crate, as the rest of the library sees them.
use vstd::prelude::*;
use bytes::{Bytes, BytesMut};

verus! {

#[verifier::external_type_specification]
#[verifier::external_body]
pub struct ExBytes(Bytes);

#[verifier::external_type_specification]
#[verifier::external_body]
pub struct ExBytesMut(BytesMut);

/// The bytes that a `Bytes` handle refers to.
pub uninterp spec fn bytes_content(b: Bytes) -> Seq<u8>;

/// The bytes that a `BytesMut` buffer holds.
pub uninterp spec fn bytes_mut_content(b: BytesMut) -> Seq<u8>;

/// Borrows the bytes of a `Bytes` handle (`<Bytes as AsRef<[u8]>>::as_ref`, which is
/// `Bytes::as_slice`): the slice is exactly the content of the handle.
#[verifier::external_body]
pub(crate) fn bytes_as_slice(b: &Bytes) -> (s: &[u8])
    ensures
        s@ == bytes_content(*b),
{
    b.as_ref()
}

/// `Bytes::slice(start..end)`: a handle to bytes `start..end` of `b`, sharing its
/// storage. The crate panics unless `start <= end <= len`, so that is required.
#[verifier::external_body]
pub(crate) fn bytes_slice(b: &Bytes, start: usize, end: usize) -> (r: Bytes)
    requires
        start <= end <= bytes_content(*b).len(),
    ensures
        bytes_content(r) == bytes_content(*b).subrange(start as int, end as int),
{
    b.slice(start..end)
}

/// `<Bytes as Clone>::clone`: a second handle to the same bytes.
#[verifier::external_body]
pub(crate) fn bytes_clone(b: &Bytes) -> (r: Bytes)
    ensures
        bytes_content(r) == bytes_content(*b),
{
    b.clone()
}

/// `<BytesMut as AsRef<[u8]>>::as_ref`: the bytes the buffer currently holds.
#[verifier::external_body]
pub(crate) fn bytes_mut_as_slice(b: &BytesMut) -> (s: &[u8])
    ensures
        s@ == bytes_mut_content(*b),
{
    b.as_ref()
}

/// `BytesMut::split_to(at)`: hands out the first `at` bytes and keeps the rest.
/// The crate panics unless `at <= len`, so that is required.
#[verifier::external_body]
pub(crate) fn bytes_mut_split_to(b: &mut BytesMut, at: usize) -> (head: BytesMut)
    requires
        at <= bytes_mut_content(*old(b)).len(),
    ensures
        bytes_mut_content(head) == bytes_mut_content(*old(b)).subrange(0, at as int),
        bytes_mut_content(*final(b)) == bytes_mut_content(*old(b)).subrange(
            at as int,
            bytes_mut_content(*old(b)).len() as int,
        ),
{
    b.split_to(at)
}

/// `BytesMut::freeze`: turns the buffer into an immutable `Bytes` with the same bytes.
#[verifier::external_body]
pub(crate) fn bytes_mut_freeze(b: BytesMut) -> (r: Bytes)
    ensures
        bytes_content(r) == bytes_mut_content(b),
{
    b.freeze()
}

} // verus!
