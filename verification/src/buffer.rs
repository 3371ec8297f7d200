//! The byte buffers of the `bytes` crate, and shared pointers.
use bytes::{BufMut, Bytes};
use std::sync::Arc;
use vstd::prelude::*;

use crate::endian;

verus! {

/// `bytes::Bytes`, an immutable, cheaply cloneable run of bytes.
#[verifier::external_type_specification]
#[verifier::external_body]
pub struct ExBytes(bytes::Bytes);

/// The bytes that a `Bytes` holds.
pub uninterp spec fn bytes_content(b: Bytes) -> Seq<u8>;

/// `Bytes::from(Vec<u8>)`: takes the vector over; the buffer holds its bytes.
#[verifier::external_body]
pub(crate) fn bytes_from_vec(v: Vec<u8>) -> (b: Bytes)
    ensures
        bytes_content(b) == v@,
{
    Bytes::from(v)
}

/// `Bytes::copy_from_slice`: a new buffer with the bytes of the slice.
#[verifier::external_body]
pub(crate) fn bytes_copy_from_slice(s: &[u8]) -> (b: Bytes)
    ensures
        bytes_content(b) == s@,
{
    Bytes::copy_from_slice(s)
}

/// `Bytes::clone`: another handle on the same bytes.
#[verifier::external_body]
pub(crate) fn bytes_clone(b: &Bytes) -> (c: Bytes)
    ensures
        bytes_content(c) == bytes_content(*b),
{
    b.clone()
}

/// `Bytes::is_empty`: whether the buffer holds no byte.
pub assume_specification[ Bytes::is_empty ](b: &Bytes) -> (r: bool)
    ensures
        r == (bytes_content(*b).len() == 0),
;

/// `Bytes::deref`: the bytes of the buffer as a slice.
#[verifier::external_body]
pub(crate) fn bytes_as_slice(b: &Bytes) -> (s: &[u8])
    ensures
        s@ == bytes_content(*b),
{
    &b[..]
}

/// `BufMut::put_u32_ne` on a vector: appends the four bytes of `n` in the byte
/// order of the machine.
#[verifier::external_body]
pub(crate) fn put_u32_ne(buf: &mut Vec<u8>, n: u32)
    ensures
        final(buf)@ == old(buf)@ + endian::u32_ne(n),
{
    buf.put_u32_ne(n)
}

/// `Arc::clone`: another handle on the same value.
#[verifier::external_body]
pub(crate) fn arc_clone<T>(a: &Arc<T>) -> (b: Arc<T>)
    ensures
        b == *a,
{
    Arc::clone(a)
}

} // verus!
