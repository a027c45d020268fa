//! Splitting a message into the chunks that are sent one datagram each.
use vstd::prelude::*;
use crate::net::chunk::{Chunk, ChunkModel, CHUNK_HEADER_LEN};
use crate::net::consts::CHUNK_SIZE;
use crate::net::message::Message;

verus! {

/// Most data bytes that one chunk carries: `CHUNK_SIZE - CHUNK_HEADER_LEN`, so that
/// a serialized chunk fits in `CHUNK_SIZE` bytes.
pub const MAX_PAYLOAD: usize = 1434;

/// How many chunks `len` bytes take: the length divided by the payload size, rounded up.
pub open spec fn chunk_count(len: nat) -> nat {
    ((len + MAX_PAYLOAD - 1) / (MAX_PAYLOAD as int)) as nat
}

/// The `i`-th payload-sized piece of `data` (the last piece may be shorter).
pub open spec fn payload_of(data: Seq<u8>, i: int) -> Seq<u8> {
    let start = i * MAX_PAYLOAD;
    let end = if data.len() < start + MAX_PAYLOAD { data.len() as int } else { start + MAX_PAYLOAD };
    data.subrange(start, end)
}

/// The chunks of the serialized message `data` with id `id`: chunk `i` carries
/// piece `i`, index `i` and the chunk count, both truncated to 16 bits.
pub open spec fn split_into_chunks(id: u64, data: Seq<u8>) -> Seq<ChunkModel> {
    Seq::new(
        chunk_count(data.len()),
        |i: int|
            ChunkModel {
                msg_id: id,
                idx: i as u16,
                total: chunk_count(data.len()) as u16,
                data: payload_of(data, i),
            },
    )
}

/// `chunk_count` rounds up: `n` chunks hold the data and `n - 1` do not.
pub proof fn lemma_chunk_count(len: nat)
    ensures
        chunk_count(len) * MAX_PAYLOAD >= len,
        chunk_count(len) == 0 || (chunk_count(len) - 1) * MAX_PAYLOAD < len,
        chunk_count(len) == len / (MAX_PAYLOAD as nat) + (if len % (MAX_PAYLOAD as nat) == 0 { 0nat } else { 1nat }),
{
    assert(chunk_count(len) == len / (MAX_PAYLOAD as nat) + (if len % (MAX_PAYLOAD as nat) == 0 { 0nat } else { 1nat })) by (nonlinear_arith);
    assert(chunk_count(len) * MAX_PAYLOAD >= len) by (nonlinear_arith)
        requires chunk_count(len) == len / 1434nat + (if len % 1434nat == 0 { 0nat } else { 1nat });
    assert(chunk_count(len) == 0 || (chunk_count(len) - 1) * MAX_PAYLOAD < len) by (nonlinear_arith)
        requires chunk_count(len) == len / 1434nat + (if len % 1434nat == 0 { 0nat } else { 1nat });
}

/// The chunks that carry `message`: its serialized bytes cut into pieces of at
/// most `MAX_PAYLOAD` bytes, in order.
pub fn message_chunks(message: &Message) -> (chunks: Vec<Chunk>)
    ensures
        chunks@.len() == split_into_chunks(message.id, message@.encode()).len(),
        forall|i: int|
            0 <= i < chunks@.len() ==> #[trigger] chunks@[i]@ == split_into_chunks(
                message.id,
                message@.encode(),
            )[i],
{
    let data: Vec<u8> = message.serialize();
    let max_payload: usize = CHUNK_SIZE - CHUNK_HEADER_LEN;
    let len: usize = data.len();
    let count: usize = len / max_payload + if len % max_payload == 0 { 0 } else { 1 };
    proof {
        lemma_chunk_count(len as nat);
    }
    #[verifier::truncate]
    let total: u16 = count as u16;
    let ghost spec_chunks = split_into_chunks(message.id, data@);
    let mut chunks: Vec<Chunk> = Vec::new();
    let mut i: usize = 0;
    let mut start: usize = 0;
    while start < len
        invariant
            max_payload == MAX_PAYLOAD,
            len == data@.len(),
            count == chunk_count(len as nat),
            total == count as u16,
            spec_chunks == split_into_chunks(message.id, data@),
            data@ == message@.encode(),
            start <= len,
            start < len ==> start == i * MAX_PAYLOAD,
            i > 0 ==> (i - 1) * MAX_PAYLOAD < len,
            i * MAX_PAYLOAD >= start,
            i <= count,
            start < len ==> i < count,
            start >= len ==> i == count,
            chunks@.len() == i,
            forall|j: int| 0 <= j < i ==> #[trigger] chunks@[j]@ == spec_chunks[j],
        decreases len - start,
    {
        let end: usize = if len - start < max_payload { len } else { start + max_payload };
        let piece: Vec<u8> = vstd::slice::slice_to_vec(
            vstd::slice::slice_subrange(data.as_slice(), start, end),
        );
        #[verifier::truncate]
        let idx: u16 = i as u16;
        let chunk: Chunk = Chunk::new(message.id, idx, total, piece);
        assert(chunk@ == spec_chunks[i as int]);
        chunks.push(chunk);
        i = i + 1;
        start = end;
        proof {
            lemma_chunk_count(len as nat);
            assert(i * 1434 >= start);
            if start < len {
                assert(i < count) by (nonlinear_arith)
                    requires
                        start == i * 1434,
                        start < len,
                        count == 0 || (count - 1) * 1434 < len,
                        count * 1434 >= len,
                ;
            } else {
                assert(i == count) by (nonlinear_arith)
                    requires
                        i * 1434 >= len,
                        i > 0,
                        (i - 1) * 1434 < len,
                        count == 0 || (count - 1) * 1434 < len,
                        count * 1434 >= len,
                ;
            }
        }
    }
    chunks
}

} // verus!
