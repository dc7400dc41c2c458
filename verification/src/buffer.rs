//! The byte containers of the `bytes` crate, as far as this library uses them.
//!
//! Nothing in this file is proved. Each item states what the `bytes` crate
//! documents of one of its types or methods, over the sequence of bytes that a
//! handle presents. The rest of the library is verified against these
//! statements.

use vstd::prelude::*;

verus! {

/// `bytes::Bytes`, a shared handle on immutable bytes. What it holds is
/// known through `shared_bytes` only.
#[verifier::external_type_specification]
#[verifier::external_body]
pub struct ExBytes(bytes::Bytes);

/// `bytes::BytesMut`, a growable buffer of bytes. What it holds is known
/// through `buffer_bytes` only.
#[verifier::external_type_specification]
#[verifier::external_body]
pub struct ExBytesMut(bytes::BytesMut);

/// The bytes that a `Bytes` handle presents, first to last.
pub uninterp spec fn shared_bytes(b: bytes::Bytes) -> Seq<u8>;

/// The bytes that a `BytesMut` buffer holds, first to last.
pub uninterp spec fn buffer_bytes(b: bytes::BytesMut) -> Seq<u8>;

/// `Bytes::deref`: the slice that a handle dereferences to is its contents.
pub assume_specification[ <bytes::Bytes as core::ops::Deref>::deref ](b: &bytes::Bytes) -> (s: &[u8])
    ensures
        s@ == shared_bytes(*b),
;

/// `BytesMut::deref`: the slice that a buffer dereferences to is its contents.
pub assume_specification[ <bytes::BytesMut as core::ops::Deref>::deref ](
    b: &bytes::BytesMut,
) -> (s: &[u8])
    ensures
        s@ == buffer_bytes(*b),
;

/// `BytesMut::split_to`: the first `at` bytes leave the buffer as a buffer of
/// their own, and the rest stays. The method panics when `at` is past the end.
pub assume_specification[ bytes::BytesMut::split_to ](b: &mut bytes::BytesMut, at: usize) -> (head:
    bytes::BytesMut)
    requires
        at <= buffer_bytes(*old(b)).len(),
    ensures
        buffer_bytes(head) == buffer_bytes(*old(b)).take(at as int),
        buffer_bytes(*final(b)) == buffer_bytes(*old(b)).skip(at as int),
;

/// `BytesMut::freeze`: the immutable handle presents the bytes the buffer held.
pub assume_specification[ bytes::BytesMut::freeze ](b: bytes::BytesMut) -> (frozen: bytes::Bytes)
    ensures
        shared_bytes(frozen) == buffer_bytes(b),
;

/// `Bytes::from(Vec<u8>)`: a handle that owns the vector's bytes.
pub assume_specification[ <bytes::Bytes as core::convert::From<Vec<u8>>>::from ](v: Vec<u8>) -> (b:
    bytes::Bytes)
    ensures
        shared_bytes(b) == v@,
;

/// `Bytes::slice` over `start..end`: a handle on that part of the contents.
/// The method panics unless `start <= end <= len`.
#[verifier::external_body]
pub(crate) fn slice_of(b: &bytes::Bytes, start: usize, end: usize) -> (part: bytes::Bytes)
    requires
        start <= end <= shared_bytes(*b).len(),
    ensures
        shared_bytes(part) == shared_bytes(*b).subrange(start as int, end as int),
{
    b.slice(start..end)
}

} // verus!
