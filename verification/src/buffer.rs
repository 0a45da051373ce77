//! The boundary to `bytes::Bytes`, the shared byte buffer that owning keys
//! hold. Verus does not look inside a `Bytes`; what it holds is named by
//! [`bytes_contents`], and the few operations the library needs are given
//! contracts over that name. Nothing in this file is proved.

use bytes::Bytes;
use vstd::prelude::*;

verus! {

/// Makes `bytes::Bytes` known to the verifier as an opaque type.
#[verifier::external_type_specification]
#[verifier::external_body]
pub struct ExBytes(bytes::Bytes);

/// The octets that a `Bytes` handle refers to, in order.
pub uninterp spec fn bytes_contents(b: Bytes) -> Seq<u8>;

/// `<Bytes as AsRef<[u8]>>::as_ref`: the returned slice is the handle's
/// whole contents, borrowed without copying.
#[verifier::external_body]
pub(crate) fn bytes_as_slice(b: &Bytes) -> (s: &[u8])
    ensures
        s@ == bytes_contents(*b),
{
    b.as_ref()
}

/// `<Bytes as From<Vec<u8>>>::from`: the new handle takes over the vector's
/// elements, unchanged and in the same order.
#[verifier::external_body]
pub(crate) fn bytes_from_vec(v: Vec<u8>) -> (b: Bytes)
    ensures
        bytes_contents(b) == v@,
{
    Bytes::from(v)
}

/// `<Bytes as Clone>::clone`: the clone refers to the same octets.
#[verifier::external_body]
pub(crate) fn bytes_clone(b: &Bytes) -> (c: Bytes)
    ensures
        bytes_contents(c) == bytes_contents(*b),
{
    b.clone()
}

/// `Bytes::new`: an empty handle.
#[verifier::external_body]
pub(crate) fn bytes_empty() -> (b: Bytes)
    ensures
        bytes_contents(b) == Seq::<u8>::empty(),
{
    Bytes::new()
}

} // verus!
