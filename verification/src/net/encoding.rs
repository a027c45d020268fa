//! Little-endian integer encodings used by the wire formats.
use vstd::prelude::*;

verus! {

/// The two bytes of `x`, least significant first.
pub open spec fn le_u16(x: u16) -> Seq<u8> {
    vstd::bytes::spec_u16_to_le_bytes(x)
}

/// The four bytes of `x`, least significant first.
pub open spec fn le_u32(x: u32) -> Seq<u8> {
    vstd::bytes::spec_u32_to_le_bytes(x)
}

/// The eight bytes of `x`, least significant first.
pub open spec fn le_u64(x: u64) -> Seq<u8> {
    vstd::bytes::spec_u64_to_le_bytes(x)
}

/// The integer whose little-endian encoding is `s` (two bytes).
pub open spec fn read_le_u16(s: Seq<u8>) -> u16 {
    vstd::bytes::spec_u16_from_le_bytes(s)
}

/// The integer whose little-endian encoding is `s` (four bytes).
pub open spec fn read_le_u32(s: Seq<u8>) -> u32 {
    vstd::bytes::spec_u32_from_le_bytes(s)
}

/// The integer whose little-endian encoding is `s` (eight bytes).
pub open spec fn read_le_u64(s: Seq<u8>) -> u64 {
    vstd::bytes::spec_u64_from_le_bytes(s)
}

/// Encoding then decoding gives back the integer, and each encoding has its fixed width.
pub proof fn lemma_le_roundtrip()
    ensures
        forall|x: u16| #[trigger] le_u16(x).len() == 2 && read_le_u16(le_u16(x)) == x,
        forall|x: u32| #[trigger] le_u32(x).len() == 4 && read_le_u32(le_u32(x)) == x,
        forall|x: u64| #[trigger] le_u64(x).len() == 8 && read_le_u64(le_u64(x)) == x,
{
    vstd::bytes::lemma_auto_spec_u16_to_from_le_bytes();
    vstd::bytes::lemma_auto_spec_u32_to_from_le_bytes();
    vstd::bytes::lemma_auto_spec_u64_to_from_le_bytes();
}

/// Appends the little-endian encoding of `x`.
pub fn push_le_u16(buf: &mut Vec<u8>, x: u16)
    ensures
        final(buf)@ == old(buf)@ + le_u16(x),
{
    let bytes: Vec<u8> = vstd::bytes::u16_to_le_bytes(x);
    let ghost before = buf@;
    buf.extend_from_slice(bytes.as_slice());
    assert(buf@ =~= before + le_u16(x));
}

/// Appends the little-endian encoding of `x`.
pub fn push_le_u32(buf: &mut Vec<u8>, x: u32)
    ensures
        final(buf)@ == old(buf)@ + le_u32(x),
{
    let bytes: Vec<u8> = vstd::bytes::u32_to_le_bytes(x);
    let ghost before = buf@;
    buf.extend_from_slice(bytes.as_slice());
    assert(buf@ =~= before + le_u32(x));
}

/// Appends the little-endian encoding of `x`.
pub fn push_le_u64(buf: &mut Vec<u8>, x: u64)
    ensures
        final(buf)@ == old(buf)@ + le_u64(x),
{
    let bytes: Vec<u8> = vstd::bytes::u64_to_le_bytes(x);
    let ghost before = buf@;
    buf.extend_from_slice(bytes.as_slice());
    assert(buf@ =~= before + le_u64(x));
}

/// Reads the two bytes at `at` as a little-endian integer.
pub fn get_le_u16(bytes: &[u8], at: usize) -> (x: u16)
    requires
        at + 2 <= bytes@.len(),
    ensures
        x == read_le_u16(bytes@.subrange(at as int, at + 2)),
{
    let len: usize = bytes.len();
    assert(at + 2 <= len);
    vstd::bytes::u16_from_le_bytes(vstd::slice::slice_subrange(bytes, at, at + 2))
}

/// Reads the four bytes at `at` as a little-endian integer.
pub fn get_le_u32(bytes: &[u8], at: usize) -> (x: u32)
    requires
        at + 4 <= bytes@.len(),
    ensures
        x == read_le_u32(bytes@.subrange(at as int, at + 4)),
{
    let len: usize = bytes.len();
    assert(at + 4 <= len);
    vstd::bytes::u32_from_le_bytes(vstd::slice::slice_subrange(bytes, at, at + 4))
}

/// Reads the eight bytes at `at` as a little-endian integer.
pub fn get_le_u64(bytes: &[u8], at: usize) -> (x: u64)
    requires
        at + 8 <= bytes@.len(),
    ensures
        x == read_le_u64(bytes@.subrange(at as int, at + 8)),
{
    let len: usize = bytes.len();
    assert(at + 8 <= len);
    vstd::bytes::u64_from_le_bytes(vstd::slice::slice_subrange(bytes, at, at + 8))
}

} // verus!
