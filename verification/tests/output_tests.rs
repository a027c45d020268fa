use egna_network::net::chunk::Chunk;
use egna_network::net::consts::{CHUNK_SIZE, HEADER_SIZE};
use egna_network::net::message::Message;
use egna_network::net::output::{message_chunks, MAX_PAYLOAD};

#[test]
fn test_chunk_calculation() {
    let max_payload = CHUNK_SIZE - HEADER_SIZE;

    let message_1_byte = Message::new(1, vec![0x42]);
    let data_1 = message_1_byte.serialize();
    let chunks_1 = ((data_1.len() + max_payload - 1) / max_payload) as u16;
    assert_eq!(chunks_1, 1);

    let message_exact = Message::new(2, vec![0x42; max_payload - 18]);
    let data_exact = message_exact.serialize();
    let chunks_exact = ((data_exact.len() + max_payload - 1) / max_payload) as u16;
    assert_eq!(chunks_exact, 1);

    let message_overflow = Message::new(3, vec![0x42; max_payload]);
    let data_overflow = message_overflow.serialize();
    let chunks_overflow = ((data_overflow.len() + max_payload - 1) / max_payload) as u16;
    assert_eq!(chunks_overflow, 2);
}

#[test]
fn message_chunks_small_message() {
    let message = Message::new(42, b"Hello, World!".to_vec());
    let chunks = message_chunks(&message);
    assert_eq!(chunks.len(), 1);
    let buf = chunks[0].serialize();
    let chunk = Chunk::deserialize(&buf).unwrap();
    assert_eq!(chunk.msg_id, message.id);
    assert_eq!(chunk.idx, 0);
    assert_eq!(chunk.total, 1);
    let received = Message::deserialize(chunk.data).unwrap();
    assert_eq!(received.dest, 42);
    assert_eq!(received.data, b"Hello, World!");
}

#[test]
fn message_chunks_large_message_rejoins() {
    let max_payload = CHUNK_SIZE - HEADER_SIZE;
    let large_data = vec![0x42u8; max_payload * 3 + 100];
    let message = Message::new(100, large_data.clone());
    let chunks = message_chunks(&message);
    assert_eq!(chunks.len(), 4);
    let mut joined = Vec::new();
    for (i, chunk) in chunks.iter().enumerate() {
        assert_eq!(chunk.msg_id, message.id);
        assert_eq!(chunk.idx as usize, i);
        assert_eq!(chunk.total, 4);
        assert!(chunk.data.len() <= MAX_PAYLOAD);
        assert!(chunk.serialize().len() <= CHUNK_SIZE);
        joined.extend_from_slice(&chunk.data);
    }
    assert_eq!(joined, message.serialize());
    let received = Message::deserialize(&joined).unwrap();
    assert_eq!(received.dest, 100);
    assert_eq!(received.data, large_data);
}

#[test]
fn message_chunks_empty_message() {
    let message = Message::new(0, Vec::new());
    let chunks = message_chunks(&message);
    assert_eq!(chunks.len(), 1);
    assert_eq!(chunks[0].data.len(), 18);
}

#[test]
fn message_chunks_exact_multiple() {
    let message = Message::new(5, vec![1u8; MAX_PAYLOAD * 2 - 18]);
    let chunks = message_chunks(&message);
    assert_eq!(chunks.len(), 2);
    assert_eq!(chunks[0].data.len(), MAX_PAYLOAD);
    assert_eq!(chunks[1].data.len(), MAX_PAYLOAD);
}

#[test]
fn message_chunks_full_chunk_datagram_size() {
    assert_eq!(MAX_PAYLOAD, CHUNK_SIZE - 16);
    let message = Message::new(6, vec![7u8; MAX_PAYLOAD * 2]);
    let chunks = message_chunks(&message);
    assert_eq!(chunks.len(), 3);
    assert_eq!(chunks[0].serialize().len(), CHUNK_SIZE);
    assert_eq!(chunks[1].serialize().len(), CHUNK_SIZE);
    assert_eq!(chunks[2].serialize().len(), 16 + 18);
}

#[test]
fn message_chunks_1420_byte_message_fits_chunk_size() {
    let message = Message::new(8, vec![3u8; 1420]);
    let chunks = message_chunks(&message);
    assert_eq!(chunks.len(), 2);
    for chunk in &chunks {
        assert!(chunk.serialize().len() <= CHUNK_SIZE);
    }
}
