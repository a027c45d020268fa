//! The message wire format.
//!
//! Layout: `id` (u64 LE) | `dest` (u16 LE) | `crc` (u32 LE) | data length (u32 LE) | data.
use vstd::prelude::*;
use crate::net::boundary::{crc32, crc32_checksum, random_u64};
use crate::net::encoding::{
    get_le_u16, get_le_u32, get_le_u64, le_u16, le_u32, le_u64, lemma_le_roundtrip, push_le_u16,
    push_le_u32, push_le_u64, read_le_u16, read_le_u32, read_le_u64,
};

verus! {

/// Bytes that precede the data in a serialized message.
pub const MESSAGE_HEADER_LEN: usize = 18;

/// An owned message: an identifier, a destination, the CRC-32 of the data, and the data.
#[derive(Clone)]
pub struct Message {
    pub id: u64,
    pub dest: u16,
    pub crc: u32,
    pub data: Vec<u8>,
}

/// A message whose data is borrowed from the buffer it was read from.
pub struct MessageView<'a> {
    pub id: u64,
    pub dest: u16,
    pub crc: u32,
    pub data: &'a [u8],
}

/// The mathematical value of a message.
pub struct MessageModel {
    pub id: u64,
    pub dest: u16,
    pub crc: u32,
    pub data: Seq<u8>,
}

impl View for Message {
    type V = MessageModel;

    open spec fn view(&self) -> MessageModel {
        MessageModel { id: self.id, dest: self.dest, crc: self.crc, data: self.data@ }
    }
}

impl<'a> View for MessageView<'a> {
    type V = MessageModel;

    open spec fn view(&self) -> MessageModel {
        MessageModel { id: self.id, dest: self.dest, crc: self.crc, data: self.data@ }
    }
}

impl MessageModel {
    /// The serialized form: header fields in order, the data length as a u32
    /// (truncated to 32 bits), then the data.
    pub open spec fn encode(self) -> Seq<u8> {
        le_u64(self.id) + le_u16(self.dest) + le_u32(self.crc) + le_u32(self.data.len() as u32)
            + self.data
    }

    /// The checksum field agrees with the data.
    pub open spec fn intact(self) -> bool {
        self.crc == crc32_checksum(self.data)
    }
}

/// The data length that a message header announces; `s` holds at least a header.
pub open spec fn message_announced_len(s: Seq<u8>) -> int {
    read_le_u32(s.subrange(14, 18)) as int
}

/// Reads a message from the front of `s`: `None` when `s` is shorter than the
/// header, or shorter than the header plus the announced data length. Bytes
/// after the announced data are ignored.
pub open spec fn decode_message(s: Seq<u8>) -> Option<MessageModel> {
    if s.len() < MESSAGE_HEADER_LEN {
        None
    } else if s.len() < MESSAGE_HEADER_LEN + message_announced_len(s) {
        None
    } else {
        Some(
            MessageModel {
                id: read_le_u64(s.subrange(0, 8)),
                dest: read_le_u16(s.subrange(8, 10)),
                crc: read_le_u32(s.subrange(10, 14)),
                data: s.subrange(18, 18 + message_announced_len(s)),
            },
        )
    }
}

impl<'a> MessageView<'a> {
    /// Copies the borrowed data into an owned message.
    pub fn to_owned(self) -> (m: Message)
        ensures
            m@ == self@,
    {
        Message {
            id: self.id,
            dest: self.dest,
            crc: self.crc,
            data: vstd::slice::slice_to_vec(self.data),
        }
    }
}

impl Message {
    /// A message to `dest` carrying `data`, with a random id and the CRC-32 of `data`.
    pub fn new(dest: u16, data: Vec<u8>) -> (m: Self)
        ensures
            m.dest == dest,
            m.data@ == data@,
            m.crc == crc32_checksum(data@),
            m@.intact(),
    {
        let id: u64 = random_u64();
        Self::with_id(id, dest, data)
    }

    /// A message with the given id to `dest` carrying `data`, checksummed.
    pub fn with_id(id: u64, dest: u16, data: Vec<u8>) -> (m: Self)
        ensures
            m@ == (MessageModel { id, dest, crc: crc32_checksum(data@), data: data@ }),
    {
        let crc: u32 = crc32(data.as_slice());
        Message { id, dest, crc, data }
    }

    /// Serializes the message into a fresh buffer.
    pub fn serialize(&self) -> (buffer: Vec<u8>)
        ensures
            buffer@ == self@.encode(),
            buffer@.len() == MESSAGE_HEADER_LEN + self.data@.len(),
            buffer@.subrange(0, 8) == vstd::bytes::spec_u64_to_le_bytes(self.id),
            buffer@.subrange(8, 10) == vstd::bytes::spec_u16_to_le_bytes(self.dest),
            buffer@.subrange(10, 14) == vstd::bytes::spec_u32_to_le_bytes(self.crc),
            buffer@.subrange(14, 18) == vstd::bytes::spec_u32_to_le_bytes(
                self.data@.len() as u32,
            ),
            buffer@.subrange(18, buffer@.len() as int) == self.data@,
    {
        let mut buffer: Vec<u8> = Vec::with_capacity(
            self.data.len().saturating_add(MESSAGE_HEADER_LEN),
        );
        let ghost empty = buffer@;
        push_le_u64(&mut buffer, self.id);
        push_le_u16(&mut buffer, self.dest);
        push_le_u32(&mut buffer, self.crc);
        #[verifier::truncate]
        let len: u32 = self.data.len() as u32;
        push_le_u32(&mut buffer, len);
        let ghost before_data = buffer@;
        buffer.extend_from_slice(self.data.as_slice());
        assert(buffer@ =~= before_data + self.data@);
        assert(empty =~= Seq::<u8>::empty());
        assert(buffer@ =~= self@.encode());
        proof {
            lemma_le_roundtrip();
            lemma_message_layout(self@);
        }
        buffer
    }

    /// Reads a message from the front of `bytes`, borrowing its data.
    pub fn deserialize(bytes: &[u8]) -> (r: Result<MessageView<'_>, &'static str>)
        ensures
            r is Ok <==> decode_message(bytes@) is Some,
            r matches Ok(v) ==> decode_message(bytes@) == Some(v@),
            r is Ok <==> bytes@.len() >= MESSAGE_HEADER_LEN && bytes@.len() >= MESSAGE_HEADER_LEN
                + vstd::bytes::spec_u32_from_le_bytes(bytes@.subrange(14, 18)),
            r matches Ok(v) ==> {
                &&& v.id == vstd::bytes::spec_u64_from_le_bytes(bytes@.subrange(0, 8))
                &&& v.dest == vstd::bytes::spec_u16_from_le_bytes(bytes@.subrange(8, 10))
                &&& v.crc == vstd::bytes::spec_u32_from_le_bytes(bytes@.subrange(10, 14))
                &&& v.data@ == bytes@.subrange(
                    18,
                    18 + vstd::bytes::spec_u32_from_le_bytes(bytes@.subrange(14, 18)),
                )
            },
            r matches Err(e) ==> e@ == (if bytes@.len() < MESSAGE_HEADER_LEN {
                "Buffer too small for header"@
            } else {
                "Buffer too small for data"@
            }),
    {
        proof {
            lemma_message_decode_layout(bytes@);
        }
        let len: usize = bytes.len();
        if len < MESSAGE_HEADER_LEN {
            return Err("Buffer too small for header");
        }
        let id: u64 = get_le_u64(bytes, 0);
        let dest: u16 = get_le_u16(bytes, 8);
        let crc: u32 = get_le_u32(bytes, 10);
        let data_len: usize = get_le_u32(bytes, 14) as usize;

        if len - MESSAGE_HEADER_LEN < data_len {
            return Err("Buffer too small for data");
        }
        let data: &[u8] = vstd::slice::slice_subrange(
            bytes,
            MESSAGE_HEADER_LEN,
            MESSAGE_HEADER_LEN + data_len,
        );
        Ok(MessageView { id, dest, crc, data })
    }

    /// Length of the serialized message.
    pub fn serialized_size(&self) -> (n: usize)
        requires
            self.data@.len() + MESSAGE_HEADER_LEN <= usize::MAX,
        ensures
            n == MESSAGE_HEADER_LEN + self.data@.len(),
            n == self@.encode().len(),
    {
        proof {
            lemma_le_roundtrip();
        }
        MESSAGE_HEADER_LEN + self.data.len()
    }
}

/// Decoding a serialized message gives back the message, whatever bytes follow
/// it, provided its data length fits the 32-bit length field.
pub proof fn lemma_message_roundtrip(m: MessageModel, rest: Seq<u8>)
    requires
        m.data.len() <= u32::MAX,
    ensures
        decode_message(m.encode() + rest) == Some(m),
{
    lemma_le_roundtrip();
    let s = m.encode() + rest;
    assert(s.subrange(0, 8) =~= le_u64(m.id));
    assert(s.subrange(8, 10) =~= le_u16(m.dest));
    assert(s.subrange(10, 14) =~= le_u32(m.crc));
    assert(s.subrange(14, 18) =~= le_u32(m.data.len() as u32));
    assert(message_announced_len(s) == m.data.len());
    assert(s.subrange(18, 18 + m.data.len() as int) =~= m.data);
}

/// Header overhead: a serialized message is its data plus `MESSAGE_HEADER_LEN` (18)
/// bytes, which is what `Message::serialized_size` returns.
pub proof fn lemma_message_encoded_len(m: MessageModel)
    ensures
        m.encode().len() == MESSAGE_HEADER_LEN + m.data.len(),
{
    lemma_le_roundtrip();
}

/// Wire layout of a serialized message: bytes 0..8 are the little-endian bytes of
/// `id`, 8..10 those of `dest`, 10..14 those of `crc`, 14..18 those of the data
/// length (as a u32), and the data follows from byte 18.
pub proof fn lemma_message_layout(m: MessageModel)
    ensures
        m.encode().len() == MESSAGE_HEADER_LEN + m.data.len(),
        m.encode().subrange(0, 8) == vstd::bytes::spec_u64_to_le_bytes(m.id),
        m.encode().subrange(8, 10) == vstd::bytes::spec_u16_to_le_bytes(m.dest),
        m.encode().subrange(10, 14) == vstd::bytes::spec_u32_to_le_bytes(m.crc),
        m.encode().subrange(14, 18) == vstd::bytes::spec_u32_to_le_bytes(m.data.len() as u32),
        m.encode().subrange(18, m.encode().len() as int) == m.data,
{
    lemma_le_roundtrip();
    let s = m.encode();
    assert(s.subrange(0, 8) =~= le_u64(m.id));
    assert(s.subrange(8, 10) =~= le_u16(m.dest));
    assert(s.subrange(10, 14) =~= le_u32(m.crc));
    assert(s.subrange(14, 18) =~= le_u32(m.data.len() as u32));
    assert(s.subrange(18, s.len() as int) =~= m.data);
}

/// Reading a message: the bytes hold a message exactly when they hold the
/// 18-byte header and the data length that bytes 14..18 announce; its fields are
/// then the little-endian integers at bytes 0..8 (`id`), 8..10 (`dest`) and
/// 10..14 (`crc`), and its data is the announced number of bytes from byte 18.
pub proof fn lemma_message_decode_layout(s: Seq<u8>)
    ensures
        decode_message(s) is Some <==> s.len() >= MESSAGE_HEADER_LEN && s.len() >= MESSAGE_HEADER_LEN
            + vstd::bytes::spec_u32_from_le_bytes(s.subrange(14, 18)),
        decode_message(s) matches Some(m) ==> {
            &&& m.id == vstd::bytes::spec_u64_from_le_bytes(s.subrange(0, 8))
            &&& m.dest == vstd::bytes::spec_u16_from_le_bytes(s.subrange(8, 10))
            &&& m.crc == vstd::bytes::spec_u32_from_le_bytes(s.subrange(10, 14))
            &&& m.data == s.subrange(18, 18 + vstd::bytes::spec_u32_from_le_bytes(s.subrange(14, 18)))
        },
{
}

} // verus!
