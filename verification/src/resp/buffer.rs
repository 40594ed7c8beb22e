//! Trusted interface to the `bytes` crate's buffer types.
//!
//! The codec receives its input as a `bytes::BytesMut` and hands its output
//! back as a `bytes::Bytes`. Both types are opaque to the verifier, so each
//! is declared here together with a name for the byte sequence it holds, and
//! a single trusted function each way converts between the buffer and a
//! plain `Vec<u8>` that the verified code works on.
use vstd::prelude::*;

verus! {

#[verifier::external_type_specification]
#[verifier::external_body]
pub struct ExBytesMut(bytes::BytesMut);

#[verifier::external_type_specification]
#[verifier::external_body]
pub struct ExBytes(bytes::Bytes);

/// The bytes a `bytes::BytesMut` buffer holds, in order.
pub uninterp spec fn bytes_mut_content(b: bytes::BytesMut) -> Seq<u8>;

/// The bytes a `bytes::Bytes` value holds, in order.
pub uninterp spec fn bytes_content(b: bytes::Bytes) -> Seq<u8>;

/// Relies on `bytes::BytesMut`'s `AsRef<[u8]>`, which exposes the buffer's
/// full contents as a byte slice; the slice is copied into a vector.
#[verifier::external_body]
pub(crate) fn bytes_mut_to_vec(b: &bytes::BytesMut) -> (r: Vec<u8>)
    ensures
        r@ == bytes_mut_content(*b),
{
    b.as_ref().to_vec()
}

/// Relies on `bytes::Bytes`'s `From<Vec<u8>>`, which constructs a buffer
/// holding exactly the vector's bytes.
#[verifier::external_body]
pub(crate) fn bytes_from_vec(v: Vec<u8>) -> (r: bytes::Bytes)
    ensures
        bytes_content(r) == v@,
{
    bytes::Bytes::from(v)
}

} // verus!
