use vstd::prelude::*;

verus! {

#[verifier::external_type_specification]
#[verifier::external_body]
pub struct ExBytesMut(bytes::BytesMut);

/// The bytes that a `BytesMut` holds, from its read position to its end.
pub uninterp spec fn buffer_contents(b: bytes::BytesMut) -> Seq<u8>;

/// `BytesMut::as_ref` (through `AsRef<[u8]>`): the slice of the bytes the buffer holds.
/// Claimed: the slice is exactly the buffer's contents.
#[verifier::external_body]
pub fn buffer_bytes(b: &bytes::BytesMut) -> (s: &[u8])
    ensures
        s@ == buffer_contents(*b),
{
    let s: &[u8] = b.as_ref();
    s
}

/// `BytesMut::advance`: drops the first `cnt` bytes and keeps the rest.
/// Claimed: the contents afterwards are the old contents without their first `cnt`
/// bytes. The crate panics when `cnt` exceeds the length, which `requires` leaves out.
#[verifier::external_body]
pub fn buffer_advance(b: &mut bytes::BytesMut, cnt: usize)
    requires
        cnt <= buffer_contents(*old(b)).len(),
    ensures
        buffer_contents(*final(b)) == buffer_contents(*old(b)).skip(cnt as int),
{
    b.advance(cnt);
}

/// `BytesMut::extend_from_slice`: reserves room and appends `data`.
/// Claimed: the contents afterwards are the old contents followed by `data`. The buffer
/// grows through `Vec::with_capacity` / `Vec::reserve`, which panic past `isize::MAX`
/// bytes, so `requires` keeps the new length within `isize::MAX`. Left unsaid: a shared
/// buffer may ask for twice its old capacity, whose limit depends on that capacity, and
/// running out of memory aborts.
#[verifier::external_body]
pub fn buffer_extend(b: &mut bytes::BytesMut, data: &[u8])
    requires
        buffer_contents(*old(b)).len() + data@.len() <= isize::MAX,
    ensures
        buffer_contents(*final(b)) == buffer_contents(*old(b)) + data@,
{
    b.extend_from_slice(data);
}

} // verus!
