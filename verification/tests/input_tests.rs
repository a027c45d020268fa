use bytes::BytesMut;
use egna_network::net::chunk::{Chunk, ChunkView};
use egna_network::net::input::{
    assemble_complete_message, cleanup_old_messages, finish_message, new_receiving_message,
    process_chunk, receive_packet, PacketOutcome, ReceiveError, Receiver, ReceivingMessage,
};
use egna_network::net::message::Message;
use egna_network::net::output::message_chunks;
use std::collections::{HashMap, HashSet};

const NOW: u64 = 100_000_000_000;

#[test]
fn test_process_chunk_single_chunk() {
    let mut messages = HashMap::new();

    let test_data = b"Hello, World!";
    let chunk_view = ChunkView {
        msg_id: 123,
        idx: 0,
        total: 1,
        data: test_data,
    };

    let result = process_chunk(&chunk_view, &mut messages, NOW);

    assert!(result.is_some());
    let assembled = result.unwrap();
    assert_eq!(assembled, test_data);
    // The message stays in the table; the receive loop removes it once handed on.
    assert_eq!(messages.len(), 1);
}

#[test]
fn test_process_chunk_multiple_chunks() {
    let mut messages = HashMap::new();

    let data1 = b"Hello, ";
    let data2 = b"World!";

    let chunk1 = ChunkView {
        msg_id: 456,
        idx: 0,
        total: 2,
        data: data1,
    };

    let result1 = process_chunk(&chunk1, &mut messages, NOW);
    assert!(result1.is_none());
    assert_eq!(messages.len(), 1);

    let chunk2 = ChunkView {
        msg_id: 456,
        idx: 1,
        total: 2,
        data: data2,
    };

    let result2 = process_chunk(&chunk2, &mut messages, NOW);
    assert!(result2.is_some());
    let assembled = result2.unwrap();
    assert_eq!(assembled, b"Hello, World!");
}

#[test]
fn test_process_chunk_out_of_order() {
    let mut messages = HashMap::new();

    let data1 = b"First";
    let data2 = b"Second";
    let data3 = b"Third";

    let chunk2 = ChunkView {
        msg_id: 789,
        idx: 2,
        total: 3,
        data: data3,
    };
    let result1 = process_chunk(&chunk2, &mut messages, NOW);
    assert!(result1.is_none());

    let chunk0 = ChunkView {
        msg_id: 789,
        idx: 0,
        total: 3,
        data: data1,
    };
    let result2 = process_chunk(&chunk0, &mut messages, NOW);
    assert!(result2.is_none());

    let chunk1 = ChunkView {
        msg_id: 789,
        idx: 1,
        total: 3,
        data: data2,
    };
    let result3 = process_chunk(&chunk1, &mut messages, NOW);
    assert!(result3.is_some());
    let assembled = result3.unwrap();
    assert_eq!(assembled, b"FirstSecondThird");
}

#[test]
fn test_process_chunk_duplicate() {
    let mut messages = HashMap::new();

    let test_data = b"Test data";
    let chunk = ChunkView {
        msg_id: 999,
        idx: 0,
        total: 2,
        data: test_data,
    };

    let result1 = process_chunk(&chunk, &mut messages, NOW);
    assert!(result1.is_none());

    let result2 = process_chunk(&chunk, &mut messages, NOW);
    assert!(result2.is_none());

    assert_eq!(messages.len(), 1);
    let receiving_msg = messages.get(&999).unwrap();
    assert_eq!(receiving_msg.received_chunks[0], true);
    assert_eq!(receiving_msg.received_chunks[1], false);
}

#[test]
fn test_process_chunk_inconsistent_total() {
    let mut messages = HashMap::new();

    let chunk1 = ChunkView {
        msg_id: 111,
        idx: 0,
        total: 2,
        data: b"data1",
    };
    process_chunk(&chunk1, &mut messages, NOW);
    assert_eq!(messages.len(), 1);

    let chunk2 = ChunkView {
        msg_id: 111,
        idx: 1,
        total: 3,
        data: b"data2",
    };
    let result = process_chunk(&chunk2, &mut messages, NOW);
    assert!(result.is_none());
    assert!(messages.is_empty());
}

#[test]
fn test_assemble_complete_message() {
    let mut entry = ReceivingMessage {
        parts: vec![
            Some(BytesMut::from("Hello, ")),
            Some(BytesMut::from("World!")),
            Some(BytesMut::from(" Test")),
        ],
        received_chunks: vec![true, true, true],
        last_seen: NOW,
        total_expected: 3,
    };

    let result = assemble_complete_message(&mut entry);
    assert_eq!(result, b"Hello, World! Test");
    assert!(entry.parts.is_empty());
}

#[test]
fn test_cleanup_old_messages() {
    let mut messages = HashMap::new();

    // Recent message
    messages.insert(
        1,
        ReceivingMessage {
            parts: vec![None],
            received_chunks: vec![false],
            last_seen: NOW,
            total_expected: 1,
        },
    );

    // Old message: last seen ten seconds ago
    let old_time = NOW - 10_000_000_000;
    messages.insert(
        2,
        ReceivingMessage {
            parts: vec![None],
            received_chunks: vec![false],
            last_seen: old_time,
            total_expected: 1,
        },
    );

    cleanup_old_messages(&mut messages, NOW);

    assert_eq!(messages.len(), 1);
    assert!(messages.contains_key(&1));
    assert!(!messages.contains_key(&2));
}

#[test]
fn test_receiving_message_initialization() {
    let mut messages = HashMap::new();

    let chunk = ChunkView {
        msg_id: 777,
        idx: 0,
        total: 5,
        data: b"chunk data",
    };
    process_chunk(&chunk, &mut messages, NOW);

    let receiving_msg = messages.get(&777).unwrap();
    assert_eq!(receiving_msg.parts.len(), 5);
    assert_eq!(receiving_msg.received_chunks.len(), 5);
    assert_eq!(receiving_msg.total_expected, 5);
    assert!(receiving_msg.received_chunks[0]);
    assert!(!receiving_msg.received_chunks[1]);
    assert!(!receiving_msg.received_chunks[2]);
    assert!(!receiving_msg.received_chunks[3]);
    assert!(!receiving_msg.received_chunks[4]);
}

#[test]
fn test_empty_chunk_data() {
    let mut messages = HashMap::new();

    let empty_chunk = ChunkView {
        msg_id: 888,
        idx: 0,
        total: 1,
        data: &[],
    };
    let result = process_chunk(&empty_chunk, &mut messages, NOW);
    assert!(result.is_some());
    let assembled = result.unwrap();
    assert!(assembled.is_empty());
}

#[test]
fn test_large_message_assembly() {
    let mut messages = HashMap::new();

    let chunk_size = 100;
    let total_chunks = 10;
    let mut expected_data = Vec::new();

    for i in 0..total_chunks {
        let chunk_data: Vec<u8> = (0..chunk_size).map(|j| (i * chunk_size + j) as u8).collect();
        expected_data.extend_from_slice(&chunk_data);

        let chunk = ChunkView {
            msg_id: 555,
            idx: i as u16,
            total: total_chunks as u16,
            data: &chunk_data,
        };

        let result = process_chunk(&chunk, &mut messages, NOW);

        if i == total_chunks - 1 {
            assert!(result.is_some());
            let assembled = result.unwrap();
            assert_eq!(assembled, expected_data);
        } else {
            assert!(result.is_none());
        }
    }
}

#[test]
fn new_receiving_message_is_empty() {
    let entry = new_receiving_message(4, 42);
    assert_eq!(entry.parts.len(), 4);
    assert!(entry.parts.iter().all(|p| p.is_none()));
    assert_eq!(entry.received_chunks, vec![false; 4]);
    assert_eq!(entry.last_seen, 42);
    assert_eq!(entry.total_expected, 4);
}

#[test]
fn process_chunk_repeat_keeps_first_data_and_time() {
    let mut messages = HashMap::new();
    let first = ChunkView { msg_id: 1, idx: 0, total: 2, data: b"aa" };
    let again = ChunkView { msg_id: 1, idx: 0, total: 2, data: b"bb" };
    let last = ChunkView { msg_id: 1, idx: 1, total: 2, data: b"cc" };
    assert!(process_chunk(&first, &mut messages, 10).is_none());
    assert!(process_chunk(&again, &mut messages, 20).is_none());
    assert_eq!(messages.get(&1).unwrap().last_seen, 10);
    assert_eq!(process_chunk(&last, &mut messages, 30).unwrap(), b"aacc");
    let entry = messages.get(&1).unwrap();
    assert_eq!(entry.last_seen, 30);
    assert!(entry.parts.is_empty());
}

#[test]
fn cleanup_keeps_entry_just_under_timeout() {
    let mut messages = HashMap::new();
    messages.insert(1, new_receiving_message(1, NOW - 4_999_999_999));
    messages.insert(2, new_receiving_message(1, NOW - 5_000_000_000));
    messages.insert(3, new_receiving_message(1, NOW + 7));
    cleanup_old_messages(&mut messages, NOW);
    assert!(messages.contains_key(&1));
    assert!(!messages.contains_key(&2));
    assert!(messages.contains_key(&3));
}

#[test]
fn receive_packet_delivers_message_in_any_order() {
    let message = Message::new(9, vec![0x5a; 3000]);
    let chunks = message_chunks(&message);
    assert_eq!(chunks.len(), 3);
    let mut messages = HashMap::new();
    let mut delivered = HashSet::new();
    for &i in &[2usize, 0, 2] {
        let datagram = chunks[i].serialize();
        assert!(matches!(
            receive_packet(&datagram, &mut messages, &mut delivered, NOW),
            Ok(PacketOutcome::Pending)
        ));
    }
    let datagram = chunks[1].serialize();
    match receive_packet(&datagram, &mut messages, &mut delivered, NOW) {
        Ok(PacketOutcome::Complete(id, m)) => {
            assert_eq!(id, message.id);
            assert_eq!(m.id, message.id);
            assert_eq!(m.dest, 9);
            assert_eq!(m.crc, message.crc);
            assert_eq!(m.data, message.data);
        }
        _ => panic!("expected a complete message"),
    }
    assert!(delivered.contains(&message.id));
    assert!(messages.contains_key(&message.id));
    finish_message(&mut messages, message.id, NOW);
    assert!(messages.is_empty());
}

#[test]
fn receive_packet_short_datagram_is_ignored() {
    let mut messages = HashMap::new();
    let mut delivered = HashSet::new();
    // a whole chunk header followed by data, of which only 12 bytes were received
    let full = Chunk::new(1, 0, 1, vec![1, 2, 3]).serialize();
    assert!(matches!(
        receive_packet(&full[..12], &mut messages, &mut delivered, NOW),
        Ok(PacketOutcome::Ignored)
    ));
    assert!(matches!(
        receive_packet(&full[..15], &mut messages, &mut delivered, NOW),
        Ok(PacketOutcome::Ignored)
    ));
    // the header is whole but the announced data is not
    assert!(matches!(
        receive_packet(&full[..full.len() - 1], &mut messages, &mut delivered, NOW),
        Ok(PacketOutcome::Ignored)
    ));
    assert!(messages.is_empty());
    assert!(delivered.is_empty());
}

#[test]
fn receive_packet_errors() {
    let mut messages = HashMap::new();
    let mut delivered = HashSet::new();
    // index not below the chunk count
    let datagram = Chunk::new(1, 3, 2, vec![1]).serialize();
    assert!(matches!(
        receive_packet(&datagram, &mut messages, &mut delivered, NOW),
        Err(ReceiveError::ChunkIndexOutOfRange)
    ));
    // a complete chunk whose bytes are not a message
    let datagram = Chunk::new(2, 0, 1, vec![1, 2, 3]).serialize();
    assert!(matches!(
        receive_packet(&datagram, &mut messages, &mut delivered, NOW),
        Err(ReceiveError::MalformedMessage)
    ));
}

#[test]
fn receive_packet_drops_corrupt_message() {
    let mut message = Message::new(4, b"payload".to_vec());
    message.crc ^= 1;
    let chunks = message_chunks(&message);
    assert_eq!(chunks.len(), 1);
    let datagram = chunks[0].serialize();
    let mut messages = HashMap::new();
    let mut delivered = HashSet::new();
    assert!(matches!(
        receive_packet(&datagram, &mut messages, &mut delivered, NOW),
        Ok(PacketOutcome::Corrupt)
    ));
    assert!(messages.is_empty());
    assert!(delivered.is_empty());
}

#[test]
fn receive_packet_never_hands_out_a_message_twice() {
    let message = Message::new(5, b"once".to_vec());
    let chunks = message_chunks(&message);
    assert_eq!(chunks.len(), 1);
    let datagram = chunks[0].serialize();
    let mut messages = HashMap::new();
    let mut delivered = HashSet::new();
    assert!(matches!(
        receive_packet(&datagram, &mut messages, &mut delivered, NOW),
        Ok(PacketOutcome::Complete(_, _))
    ));
    // repeat before the entry is finished (no callback took it)
    assert!(matches!(
        receive_packet(&datagram, &mut messages, &mut delivered, NOW),
        Ok(PacketOutcome::Duplicate)
    ));
    finish_message(&mut messages, message.id, NOW);
    // repeat after the entry is finished, long after
    assert!(matches!(
        receive_packet(&datagram, &mut messages, &mut delivered, NOW + 60_000_000_000),
        Ok(PacketOutcome::Duplicate)
    ));
    assert!(messages.is_empty());
}

#[test]
fn receiver_delivers_and_finishes() {
    let message = Message::new(1000, b"Message for destination 1000".to_vec());
    let chunks = message_chunks(&message);
    let mut receiver = Receiver::new();
    let datagram = chunks[0].serialize();
    match receiver.receive(&datagram) {
        Ok(PacketOutcome::Complete(id, m)) => {
            assert_eq!(m.dest, 1000);
            assert_eq!(m.data, message.data);
            receiver.finish(id);
        }
        _ => panic!("expected a complete message"),
    }
    assert!(matches!(receiver.receive(&datagram), Ok(PacketOutcome::Duplicate)));
}

#[test]
fn receive_packet_delivers_at_any_pace_while_chunks_keep_coming() {
    let second: u64 = 1_000_000_000;
    let message = Message::new(11, vec![0x11; 4000]);
    let chunks = message_chunks(&message);
    assert_eq!(chunks.len(), 3);
    let mut messages = HashMap::new();
    let mut delivered = HashSet::new();
    let first = chunks[0].serialize();
    assert!(matches!(
        receive_packet(&first, &mut messages, &mut delivered, NOW),
        Ok(PacketOutcome::Pending)
    ));
    let second_chunk = chunks[1].serialize();
    assert!(matches!(
        receive_packet(&second_chunk, &mut messages, &mut delivered, NOW + 4 * second),
        Ok(PacketOutcome::Pending)
    ));
    let third = chunks[2].serialize();
    match receive_packet(&third, &mut messages, &mut delivered, NOW + 8 * second) {
        Ok(PacketOutcome::Complete(id, m)) => {
            assert_eq!(id, message.id);
            assert_eq!(m.data, message.data);
        }
        _ => panic!("expected a complete message"),
    }
}

#[test]
fn receive_packet_drops_message_gone_stale() {
    let second: u64 = 1_000_000_000;
    let message = Message::new(12, vec![0x12; 2000]);
    let chunks = message_chunks(&message);
    assert_eq!(chunks.len(), 2);
    let mut messages = HashMap::new();
    let mut delivered = HashSet::new();
    let first = chunks[0].serialize();
    assert!(matches!(
        receive_packet(&first, &mut messages, &mut delivered, NOW),
        Ok(PacketOutcome::Pending)
    ));
    // a repeat five seconds later brings no new index, so the entry is stale
    assert!(matches!(
        receive_packet(&first, &mut messages, &mut delivered, NOW + 5 * second),
        Ok(PacketOutcome::Pending)
    ));
    assert!(messages.is_empty());
}
