//! Shared byte buffers of the `bytes` crate.
use bytes::Bytes;
use vstd::prelude::*;

verus! {

/// A shared, immutable run of bytes, as the `bytes` crate holds it.
#[verifier::external_type_specification]
#[verifier::external_body]
pub struct ExBytes(bytes::Bytes);

/// What a `bytes::Bytes` holds.
pub uninterp spec fn bytes_content(b: bytes::Bytes) -> Seq<u8>;

/// `Bytes::as_ref`: a view of the bytes that the buffer holds.
#[verifier::external_body]
pub(crate) fn as_slice(b: &Bytes) -> (held: &[u8])
    ensures
        held@ == bytes_content(*b),
{
    b.as_ref()
}

/// `Bytes::from` on a `Vec<u8>`: a buffer that holds the bytes of the vector.
#[verifier::external_body]
pub(crate) fn freeze(held: Vec<u8>) -> (b: Bytes)
    ensures
        bytes_content(b) == held@,
{
    Bytes::from(held)
}

/// `Bytes::clone`: another handle on the same bytes.
#[verifier::external_body]
pub(crate) fn share(b: &Bytes) -> (other: Bytes)
    ensures
        bytes_content(other) == bytes_content(*b),
{
    b.clone()
}

} // verus!
