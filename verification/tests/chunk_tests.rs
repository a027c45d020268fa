use egna_network::net::chunk::Chunk;

#[test]
fn chunk_test_serialize_deserialize() {
    let original = Chunk {
        msg_id: 12345678901234567890,
        idx: 42,
        total: 100,
        data: vec![1, 2, 3, 4, 5],
    };
    let serialized = original.serialize();
    let view = Chunk::deserialize(&serialized).unwrap();

    assert_eq!(original.msg_id, view.msg_id);
    assert_eq!(original.idx, view.idx);
    assert_eq!(original.total, view.total);
    assert_eq!(original.data, view.data);
}

#[test]
fn chunk_test_empty_data() {
    let chunk = Chunk {
        msg_id: 1,
        idx: 0,
        total: 1,
        data: vec![],
    };
    let serialized = chunk.serialize();
    let view = Chunk::deserialize(&serialized).unwrap();

    assert_eq!(chunk.msg_id, view.msg_id);
    assert_eq!(chunk.data, view.data);
    assert!(view.data.is_empty());
}

#[test]
fn test_buffer_too_small() {
    let partial_data = vec![1, 2, 3, 4, 5];
    assert!(Chunk::deserialize(&partial_data).is_err());
}

#[test]
fn chunk_test_serialized_size() {
    let chunk = Chunk {
        msg_id: 1,
        idx: 1,
        total: 1,
        data: vec![1, 2, 3, 4, 5],
    };
    assert_eq!(chunk.serialized_size(), 16 + 5);

    let empty_chunk = Chunk {
        msg_id: 1,
        idx: 1,
        total: 1,
        data: vec![],
    };
    assert_eq!(empty_chunk.serialized_size(), 16);
}

#[test]
fn chunk_new_keeps_fields() {
    let chunk = Chunk::new(7, 3, 9, vec![4, 5]);
    assert_eq!(chunk.msg_id, 7);
    assert_eq!(chunk.idx, 3);
    assert_eq!(chunk.total, 9);
    assert_eq!(chunk.data, vec![4, 5]);
}

#[test]
fn chunk_serialize_exact_bytes() {
    let chunk = Chunk::new(0x0102030405060708, 0x090a, 0x0b0c, vec![0xaa, 0xbb]);
    assert_eq!(
        chunk.serialize(),
        vec![
            0x08, 0x07, 0x06, 0x05, 0x04, 0x03, 0x02, 0x01, 0x0a, 0x09, 0x0c, 0x0b, 2, 0, 0, 0,
            0xaa, 0xbb
        ]
    );
}

#[test]
fn chunk_deserialize_header_error_message() {
    assert_eq!(
        Chunk::deserialize(&[0u8; 15]).err(),
        Some("Buffer too small for header")
    );
}

#[test]
fn chunk_deserialize_data_error_message() {
    let mut bytes = Chunk::new(1, 0, 1, vec![1, 2, 3]).serialize();
    bytes.pop();
    assert_eq!(
        Chunk::deserialize(&bytes).err(),
        Some("Buffer too small for data")
    );
}

#[test]
fn chunk_deserialize_ignores_trailing_bytes() {
    let mut bytes = Chunk::new(5, 1, 2, vec![9, 8, 7]).serialize();
    bytes.extend_from_slice(&[0xff; 20]);
    let view = Chunk::deserialize(&bytes).unwrap();
    assert_eq!(view.msg_id, 5);
    assert_eq!(view.idx, 1);
    assert_eq!(view.total, 2);
    assert_eq!(view.data, &[9, 8, 7]);
}
