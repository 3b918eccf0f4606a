//! Reference-counted byte buffers.
use bytes::Bytes;
use vstd::prelude::*;

verus! {

/// `bytes::Bytes`, opaque: what it holds is [`contents`].
#[verifier::external_type_specification]
#[verifier::external_body]
pub struct ExBytes(bytes::Bytes);

/// The bytes that a `bytes::Bytes` holds.
pub uninterp spec fn contents(buffer: Bytes) -> Seq<u8>;

/// `<bytes::Bytes as AsRef<[u8]>>::as_ref`: the whole contents, as a slice.
#[verifier::external_body]
pub(crate) fn as_slice(buffer: &Bytes) -> (slice: &[u8])
    ensures
        slice@ == contents(*buffer),
{
    buffer.as_ref()
}

/// `bytes::Bytes::slice` with the range `from..to`: the same storage, narrowed
/// to that range. It panics on a range outside the buffer.
#[verifier::external_body]
pub(crate) fn narrow(buffer: &Bytes, from: usize, to: usize) -> (part: Bytes)
    requires
        from <= to <= contents(*buffer).len(),
    ensures
        contents(part) == contents(*buffer).subrange(from as int, to as int),
{
    buffer.slice(from..to)
}

/// `<bytes::Bytes as From<Vec<u8>>>::from`: takes the vector over, bytes and order
/// unchanged.
#[verifier::external_body]
pub(crate) fn from_vec(bytes: Vec<u8>) -> (buffer: Bytes)
    ensures
        contents(buffer) == bytes@,
{
    Bytes::from(bytes)
}

/// `<bytes::Bytes as Clone>::clone`: another handle on the same bytes.
pub assume_specification[ <bytes::Bytes as Clone>::clone ](handle: &Bytes) -> (copy: Bytes)
    ensures
        contents(copy) == contents(*handle),
;

/// The length of a buffer, and that it fits `usize`.
pub(crate) fn len(buffer: &Bytes) -> (n: usize)
    ensures
        n == contents(*buffer).len(),
{
    as_slice(buffer).len()
}

} // verus!
