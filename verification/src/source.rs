//! Trusted boundary to the `bytes` crate: the opaque, cheaply shared byte
//! container the cursor reads from, and the few operations relied on.

use vstd::prelude::*;

verus! {

#[verifier::external_type_specification]
#[verifier::external_body]
pub struct ExBytes(bytes::Bytes);

/// The sequence of bytes a `bytes::Bytes` handle stores.
pub uninterp spec fn stored_bytes(b: bytes::Bytes) -> Seq<u8>;

/// Relies on `bytes::Bytes::len`: the number of bytes stored.
#[verifier::external_body]
pub(crate) fn bytes_len(b: &bytes::Bytes) -> (r: usize)
    ensures
        r == stored_bytes(*b).len(),
{
    b.len()
}

/// Relies on `Bytes`'s `Deref<Target = [u8]>`: a borrowed view of all stored bytes.
#[verifier::external_body]
pub(crate) fn bytes_as_slice(b: &bytes::Bytes) -> (r: &[u8])
    ensures
        r@ == stored_bytes(*b),
{
    &b[..]
}

/// Relies on `bytes::Bytes::slice`: an O(1) sub-view of `[start, end)` that
/// shares the same storage. It panics on an out-of-range request, so the
/// bounds are required here.
#[verifier::external_body]
pub(crate) fn bytes_slice(b: &bytes::Bytes, start: usize, end: usize) -> (r: bytes::Bytes)
    requires
        start <= end <= stored_bytes(*b).len(),
    ensures
        stored_bytes(r) == stored_bytes(*b).subrange(start as int, end as int),
{
    b.slice(start..end)
}

/// Relies on `bytes::Bytes::new`: an empty handle backed by a static empty
/// slice, holding on to no storage.
#[verifier::external_body]
pub(crate) fn bytes_empty() -> (r: bytes::Bytes)
    ensures
        stored_bytes(r) == Seq::<u8>::empty(),
{
    bytes::Bytes::new()
}

/// Relies on `u16::from_ne_bytes`: reports whether this platform orders the
/// bytes of an integer least-significant first.
#[verifier::external_body]
pub(crate) fn native_is_little() -> bool {
    u16::from_ne_bytes([1u8, 0u8]) == 1
}

} // verus!
