//! The chunk wire format: one datagram's worth of a serialized message.
//!
//! Layout: `msg_id` (u64 LE) | `idx` (u16 LE) | `total` (u16 LE) | data length (u32 LE) | data.
use vstd::prelude::*;
use crate::net::encoding::{
    get_le_u16, get_le_u32, get_le_u64, le_u16, le_u32, le_u64, lemma_le_roundtrip, push_le_u16,
    push_le_u32, push_le_u64, read_le_u16, read_le_u32, read_le_u64,
};

verus! {

/// Bytes that precede the data in a serialized chunk.
pub const CHUNK_HEADER_LEN: usize = 16;

/// An owned chunk of a message.
pub struct Chunk {
    pub msg_id: u64,
    pub idx: u16,
    pub total: u16,
    pub data: Vec<u8>,
}

/// A chunk whose data is borrowed from the buffer it was read from.
pub struct ChunkView<'a> {
    pub msg_id: u64,
    pub idx: u16,
    pub total: u16,
    pub data: &'a [u8],
}

/// The mathematical value of a chunk: its header fields and its data bytes.
pub struct ChunkModel {
    pub msg_id: u64,
    pub idx: u16,
    pub total: u16,
    pub data: Seq<u8>,
}

impl View for Chunk {
    type V = ChunkModel;

    open spec fn view(&self) -> ChunkModel {
        ChunkModel { msg_id: self.msg_id, idx: self.idx, total: self.total, data: self.data@ }
    }
}

impl<'a> View for ChunkView<'a> {
    type V = ChunkModel;

    open spec fn view(&self) -> ChunkModel {
        ChunkModel { msg_id: self.msg_id, idx: self.idx, total: self.total, data: self.data@ }
    }
}

impl ChunkModel {
    /// The serialized form: header fields in order, the data length as a u32
    /// (truncated to 32 bits), then the data.
    pub open spec fn encode(self) -> Seq<u8> {
        le_u64(self.msg_id) + le_u16(self.idx) + le_u16(self.total) + le_u32(
            self.data.len() as u32,
        ) + self.data
    }
}

/// The data length that a chunk header announces; `s` holds at least a header.
pub open spec fn chunk_announced_len(s: Seq<u8>) -> int {
    read_le_u32(s.subrange(12, 16)) as int
}

/// Reads a chunk from the front of `s`: `None` when `s` is shorter than the header,
/// or shorter than the header plus the announced data length. Bytes after the
/// announced data are ignored.
pub open spec fn decode_chunk(s: Seq<u8>) -> Option<ChunkModel> {
    if s.len() < CHUNK_HEADER_LEN {
        None
    } else if s.len() < CHUNK_HEADER_LEN + chunk_announced_len(s) {
        None
    } else {
        Some(
            ChunkModel {
                msg_id: read_le_u64(s.subrange(0, 8)),
                idx: read_le_u16(s.subrange(8, 10)),
                total: read_le_u16(s.subrange(10, 12)),
                data: s.subrange(16, 16 + chunk_announced_len(s)),
            },
        )
    }
}

impl Chunk {
    pub fn new(msg_id: u64, idx: u16, total: u16, data: Vec<u8>) -> (c: Self)
        ensures
            c@ == (ChunkModel { msg_id, idx, total, data: data@ }),
    {
        Chunk { msg_id, idx, total, data }
    }

    /// Serializes the chunk into a fresh buffer.
    pub fn serialize(&self) -> (buffer: Vec<u8>)
        ensures
            buffer@ == self@.encode(),
            buffer@.len() == CHUNK_HEADER_LEN + self.data@.len(),
            buffer@.subrange(0, 8) == vstd::bytes::spec_u64_to_le_bytes(self.msg_id),
            buffer@.subrange(8, 10) == vstd::bytes::spec_u16_to_le_bytes(self.idx),
            buffer@.subrange(10, 12) == vstd::bytes::spec_u16_to_le_bytes(self.total),
            buffer@.subrange(12, 16) == vstd::bytes::spec_u32_to_le_bytes(
                self.data@.len() as u32,
            ),
            buffer@.subrange(16, buffer@.len() as int) == self.data@,
    {
        let mut buffer: Vec<u8> = Vec::with_capacity(self.data.len().saturating_add(CHUNK_HEADER_LEN));
        let ghost empty = buffer@;
        push_le_u64(&mut buffer, self.msg_id);
        push_le_u16(&mut buffer, self.idx);
        push_le_u16(&mut buffer, self.total);
        #[verifier::truncate]
        let len: u32 = self.data.len() as u32;
        push_le_u32(&mut buffer, len);
        let ghost before_data = buffer@;
        buffer.extend_from_slice(self.data.as_slice());
        assert(buffer@ =~= before_data + self.data@);
        assert(empty =~= Seq::<u8>::empty());
        assert(buffer@ =~= self@.encode());
        proof {
            lemma_le_roundtrip();
            lemma_chunk_layout(self@);
        }
        buffer
    }

    /// Reads a chunk from the front of `bytes`, borrowing its data.
    pub fn deserialize(bytes: &[u8]) -> (r: Result<ChunkView<'_>, &'static str>)
        ensures
            r is Ok <==> decode_chunk(bytes@) is Some,
            r matches Ok(v) ==> decode_chunk(bytes@) == Some(v@),
            r is Ok <==> bytes@.len() >= CHUNK_HEADER_LEN && bytes@.len() >= CHUNK_HEADER_LEN
                + vstd::bytes::spec_u32_from_le_bytes(bytes@.subrange(12, 16)),
            r matches Ok(v) ==> {
                &&& v.msg_id == vstd::bytes::spec_u64_from_le_bytes(bytes@.subrange(0, 8))
                &&& v.idx == vstd::bytes::spec_u16_from_le_bytes(bytes@.subrange(8, 10))
                &&& v.total == vstd::bytes::spec_u16_from_le_bytes(bytes@.subrange(10, 12))
                &&& v.data@ == bytes@.subrange(
                    16,
                    16 + vstd::bytes::spec_u32_from_le_bytes(bytes@.subrange(12, 16)),
                )
            },
            r matches Err(e) ==> e@ == (if bytes@.len() < CHUNK_HEADER_LEN {
                "Buffer too small for header"@
            } else {
                "Buffer too small for data"@
            }),
    {
        proof {
            lemma_chunk_decode_layout(bytes@);
        }
        let len: usize = bytes.len();
        if len < CHUNK_HEADER_LEN {
            return Err("Buffer too small for header");
        }
        let msg_id: u64 = get_le_u64(bytes, 0);
        let idx: u16 = get_le_u16(bytes, 8);
        let total: u16 = get_le_u16(bytes, 10);
        let data_len: usize = get_le_u32(bytes, 12) as usize;

        if len - CHUNK_HEADER_LEN < data_len {
            return Err("Buffer too small for data");
        }
        let data: &[u8] = vstd::slice::slice_subrange(bytes, CHUNK_HEADER_LEN, CHUNK_HEADER_LEN + data_len);
        Ok(ChunkView { msg_id, idx, total, data })
    }

    /// Length of the serialized chunk.
    pub fn serialized_size(&self) -> (n: usize)
        requires
            self.data@.len() + CHUNK_HEADER_LEN <= usize::MAX,
        ensures
            n == CHUNK_HEADER_LEN + self.data@.len(),
            n == self@.encode().len(),
    {
        proof {
            lemma_le_roundtrip();
        }
        CHUNK_HEADER_LEN + self.data.len()
    }
}

/// Decoding a serialized chunk gives back the chunk, whatever bytes follow it,
/// provided its data length fits the 32-bit length field.
pub proof fn lemma_chunk_roundtrip(c: ChunkModel, rest: Seq<u8>)
    requires
        c.data.len() <= u32::MAX,
    ensures
        decode_chunk(c.encode() + rest) == Some(c),
{
    lemma_le_roundtrip();
    let s = c.encode() + rest;
    let h64 = le_u64(c.msg_id);
    let h16a = le_u16(c.idx);
    let h16b = le_u16(c.total);
    let h32 = le_u32(c.data.len() as u32);
    assert(s.subrange(0, 8) =~= h64);
    assert(s.subrange(8, 10) =~= h16a);
    assert(s.subrange(10, 12) =~= h16b);
    assert(s.subrange(12, 16) =~= h32);
    assert(chunk_announced_len(s) == c.data.len());
    assert(s.subrange(16, 16 + c.data.len() as int) =~= c.data);
}

/// Header overhead: a serialized chunk is its data plus `CHUNK_HEADER_LEN` (16) bytes,
/// which is what `Chunk::serialized_size` returns.
pub proof fn lemma_chunk_encoded_len(c: ChunkModel)
    ensures
        c.encode().len() == CHUNK_HEADER_LEN + c.data.len(),
{
    lemma_le_roundtrip();
}

/// Wire layout of a serialized chunk: bytes 0..8 are the little-endian bytes of
/// `msg_id`, 8..10 those of `idx`, 10..12 those of `total`, 12..16 those of the
/// data length (as a u32), and the data follows from byte 16.
pub proof fn lemma_chunk_layout(c: ChunkModel)
    ensures
        c.encode().len() == CHUNK_HEADER_LEN + c.data.len(),
        c.encode().subrange(0, 8) == vstd::bytes::spec_u64_to_le_bytes(c.msg_id),
        c.encode().subrange(8, 10) == vstd::bytes::spec_u16_to_le_bytes(c.idx),
        c.encode().subrange(10, 12) == vstd::bytes::spec_u16_to_le_bytes(c.total),
        c.encode().subrange(12, 16) == vstd::bytes::spec_u32_to_le_bytes(c.data.len() as u32),
        c.encode().subrange(16, c.encode().len() as int) == c.data,
{
    lemma_le_roundtrip();
    let s = c.encode();
    assert(s.subrange(0, 8) =~= le_u64(c.msg_id));
    assert(s.subrange(8, 10) =~= le_u16(c.idx));
    assert(s.subrange(10, 12) =~= le_u16(c.total));
    assert(s.subrange(12, 16) =~= le_u32(c.data.len() as u32));
    assert(s.subrange(16, s.len() as int) =~= c.data);
}

/// Reading a chunk: the bytes hold a chunk exactly when they hold the 16-byte
/// header and the data length that bytes 12..16 announce; its fields are then
/// the little-endian integers at bytes 0..8 (`msg_id`), 8..10 (`idx`) and
/// 10..12 (`total`), and its data is the announced number of bytes from byte 16.
pub proof fn lemma_chunk_decode_layout(s: Seq<u8>)
    ensures
        decode_chunk(s) is Some <==> s.len() >= CHUNK_HEADER_LEN && s.len() >= CHUNK_HEADER_LEN
            + vstd::bytes::spec_u32_from_le_bytes(s.subrange(12, 16)),
        decode_chunk(s) matches Some(c) ==> {
            &&& c.msg_id == vstd::bytes::spec_u64_from_le_bytes(s.subrange(0, 8))
            &&& c.idx == vstd::bytes::spec_u16_from_le_bytes(s.subrange(8, 10))
            &&& c.total == vstd::bytes::spec_u16_from_le_bytes(s.subrange(10, 12))
            &&& c.data == s.subrange(16, 16 + vstd::bytes::spec_u32_from_le_bytes(s.subrange(12, 16)))
        },
{
}

} // verus!
