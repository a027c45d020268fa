//! The calls this library makes into other crates. Verus reads the contracts
//! below but not the bodies; each doc comment says what is claimed.
use vstd::prelude::*;

verus! {

/// The CRC-32 (IEEE) checksum of `data` as `crc32fast` computes it.
pub uninterp spec fn crc32_checksum(data: Seq<u8>) -> u32;

/// Calls `crc32fast::hash`, which runs `Hasher::new`, `Hasher::update` on `data`
/// and `Hasher::finalize`. Claimed: the result is `crc32_checksum` of the bytes,
/// a function of the bytes alone.
#[verifier::external_body]
pub(crate) fn crc32(data: &[u8]) -> (crc: u32)
    ensures
        crc == crc32_checksum(data@),
{
    crc32fast::hash(data)
}

/// Calls `rand::random::<u64>()`. Nothing is claimed of the value: it is random.
#[verifier::external_body]
pub(crate) fn random_u64() -> u64 {
    rand::random::<u64>()
}

#[verifier::external_type_specification]
#[verifier::external_body]
pub struct ExBytesMut(bytes::BytesMut);

/// The bytes that a `bytes::BytesMut` holds, in order.
pub uninterp spec fn bytes_mut_contents(b: bytes::BytesMut) -> Seq<u8>;

/// Calls `<bytes::BytesMut as From<&[u8]>>::from`, which copies the slice.
/// Claimed: the new buffer holds exactly the bytes of `data`.
#[verifier::external_body]
pub(crate) fn bytes_mut_from_slice(data: &[u8]) -> (b: bytes::BytesMut)
    ensures
        bytes_mut_contents(b) == data@,
{
    bytes::BytesMut::from(data)
}

/// Calls `<bytes::BytesMut as AsRef<[u8]>>::as_ref`. Claimed: the slice shows
/// exactly the bytes the buffer holds.
#[verifier::external_body]
pub(crate) fn bytes_mut_as_slice(b: &bytes::BytesMut) -> (s: &[u8])
    ensures
        s@ == bytes_mut_contents(*b),
{
    b.as_ref()
}

#[verifier::external_type_specification]
#[verifier::external_body]
pub struct ExInstant(tokio::time::Instant);

/// Calls `tokio::time::Instant::now`. Nothing is claimed: it reads the clock.
#[verifier::external_body]
pub(crate) fn instant_now() -> tokio::time::Instant {
    tokio::time::Instant::now()
}

/// Calls `tokio::time::Instant::elapsed` on `start` and gives the duration in
/// nanoseconds. Nothing is claimed: it reads the clock.
#[verifier::external_body]
pub(crate) fn nanos_since(start: &tokio::time::Instant) -> u64 {
    start.elapsed().as_nanos() as u64
}

} // verus!
