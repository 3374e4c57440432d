//! The shared, immutable byte buffer of the `bytes` crate, as images are handed out.

use vstd::prelude::*;

verus! {

/// Declares `bytes::Bytes`, which Verus sees as opaque, so that it can
/// stand in signatures and fields.
#[verifier::external_type_specification]
#[verifier::external_body]
pub struct ExBytes(bytes::Bytes);

/// The bytes that a `Bytes` value holds.
pub uninterp spec fn bytes_content(b: bytes::Bytes) -> Seq<u8>;

/// Relies on `<bytes::Bytes as From<Vec<u8>>>::from`: the buffer takes over
/// the vector's bytes, unchanged.
#[verifier::external_body]
pub(crate) fn bytes_from_vec(v: Vec<u8>) -> (r: bytes::Bytes)
    ensures
        bytes_content(r) == v@,
{
    bytes::Bytes::from(v)
}

/// Relies on `<bytes::Bytes as AsRef<[u8]>>::as_ref`: a slice over the bytes held.
#[verifier::external_body]
pub(crate) fn bytes_as_slice(b: &bytes::Bytes) -> (r: &[u8])
    ensures
        r@ == bytes_content(*b),
{
    b.as_ref()
}

} // verus!
