use vstd::prelude::*;

verus! {

/// Largest number of bytes that an encoded message may take.
pub const MAX_ENCODE_SIZE: usize = 255;

/// Capacity-bounded text that holds one encoded message.
pub type Buffer = heapless::String<255>;

#[verifier::external_type_specification]
#[verifier::external_body]
pub struct ExString<const N: usize>(heapless::String<N>);

/// The bytes that a buffer holds.
pub uninterp spec fn buffer_bytes(b: heapless::String<255>) -> Seq<u8>;

/// Relies on heapless::String::new: the new string is empty.
#[verifier::external_body]
pub(crate) fn empty_buffer() -> (r: Buffer)
    ensures
        buffer_bytes(r) == Seq::<u8>::empty(),
{
    heapless::String::new()
}

/// Relies on heapless::String::push: an ASCII character takes one byte, and
/// the push fails, leaving the string as it was, once the capacity is reached.
#[verifier::external_body]
pub(crate) fn push_ascii(b: &mut Buffer, c: u8) -> (r: Result<(), ()>)
    requires
        c < 128,
    ensures
        r is Ok <==> buffer_bytes(*old(b)).len() < 255,
        r is Ok ==> buffer_bytes(*final(b)) == buffer_bytes(*old(b)).push(c),
        r is Err ==> *final(b) == *old(b),
{
    b.push(c as char)
}

/// Relies on heapless::String dereferencing to str, and str::as_bytes.
#[verifier::external_body]
pub(crate) fn bytes_of(b: &Buffer) -> (r: &[u8])
    ensures
        r@ == buffer_bytes(*b),
{
    b.as_bytes()
}

} // verus!
