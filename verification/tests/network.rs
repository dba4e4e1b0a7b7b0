//! Tests of the packet layer: framing, sequencing, acknowledgment,
//! duplicate suppression, retransmission and reassembly.

use biwi::network::{FRAG_FIRST, FRAG_LAST, MAX_PAYLOAD_SIZE};
use biwi::{BiWiMessage, BiWiValue, FragmentReassembler, PacketManager, PacketType, UdpPacket};

#[test]
fn test_packet_serialization() {
    let packet = UdpPacket {
        packet_type: PacketType::Data,
        sequence: 123,
        ack_number: 456,
        flags: FRAG_FIRST | FRAG_LAST,
        payload: vec![1, 2, 3, 4],
    };

    let bytes = packet.to_bytes();
    let deserialized = UdpPacket::from_bytes(&bytes).unwrap();

    assert_eq!(deserialized.packet_type, PacketType::Data);
    assert_eq!(deserialized.sequence, 123);
    assert_eq!(deserialized.ack_number, 456);
    assert_eq!(deserialized.payload, vec![1, 2, 3, 4]);
}

#[test]
fn test_packet_manager_single_message() {
    let mut pm = PacketManager::new();
    let packets = pm.create_packets(&[1, 2, 3, 4, 5], 0);

    assert_eq!(packets.len(), 1);
    assert!(packets[0].is_first_fragment());
    assert!(packets[0].is_last_fragment());
    assert_eq!(pm.pending_ack_count(), 1);
}

#[test]
fn test_packet_manager_fragmentation() {
    let mut pm = PacketManager::new();
    let large_data = vec![0u8; MAX_PAYLOAD_SIZE * 3 + 100];
    let packets = pm.create_packets(&large_data, 0);

    assert!(packets.len() > 1);
    assert!(packets[0].is_first_fragment());
    assert!(!packets[0].is_last_fragment());
    assert!(!packets[packets.len() - 1].is_first_fragment());
    assert!(packets[packets.len() - 1].is_last_fragment());
    assert_eq!(pm.pending_ack_count(), packets.len());
}

#[test]
fn test_ack_handling() {
    let mut pm = PacketManager::new();
    let packets = pm.create_packets(&[1, 2, 3], 0);
    let seq = packets[0].sequence;

    assert_eq!(pm.pending_ack_count(), 1);
    let handled = pm.handle_ack(seq);
    assert!(handled);
    assert_eq!(pm.pending_ack_count(), 0);
}

#[test]
fn test_duplicate_detection() {
    let mut pm = PacketManager::new();

    let is_new = pm.record_received(42);
    assert!(is_new);

    let is_duplicate = pm.record_received(42);
    assert!(!is_duplicate);
}

#[test]
fn packet_header_wire_layout() {
    let packet = UdpPacket {
        packet_type: PacketType::Ping,
        sequence: 0x01020304,
        ack_number: 0x0A0B0C0D,
        flags: 3,
        payload: vec![],
    };
    let bytes = packet.to_bytes();
    assert_eq!(
        bytes,
        vec![0x03, 0x01, 0x02, 0x03, 0x04, 0x0A, 0x0B, 0x0C, 0x0D, 0x00, 0x00, 0x00, 0x03]
    );
}

#[test]
fn packet_parse_errors() {
    assert_eq!(
        UdpPacket::from_bytes(&[0x01, 0x00]).unwrap_err(),
        "Packet too small".to_string()
    );
    let mut bad = vec![0u8; 13];
    bad[0] = 0x09;
    assert_eq!(
        UdpPacket::from_bytes(&bad).unwrap_err(),
        "Invalid packet type".to_string()
    );
    assert_eq!(PacketType::from_u8(0x00), None);
    assert_eq!(PacketType::from_u8(0x02), Some(PacketType::Ack));
    assert_eq!(PacketType::from_u8(0x05), None);
}

#[test]
fn four_thousand_byte_payload_becomes_four_packets() {
    let mut pm = PacketManager::new();
    let data: Vec<u8> = (0..4000u32).map(|i| (i % 251) as u8).collect();
    let packets = pm.create_packets(&data, 0);

    assert_eq!(packets.len(), 4);
    let base = packets[0].sequence;
    for (i, packet) in packets.iter().enumerate() {
        assert_eq!(packet.packet_type, PacketType::Data);
        assert_eq!(packet.sequence, base.wrapping_add(i as u32));
    }
    assert_eq!(packets[0].flags, FRAG_FIRST);
    assert_eq!(packets[1].flags, 0);
    assert_eq!(packets[2].flags, 0);
    assert_eq!(packets[3].flags, FRAG_LAST);

    // the payloads concatenated restore the buffer
    let mut whole = Vec::new();
    for packet in &packets {
        whole.extend_from_slice(&packet.payload);
    }
    assert_eq!(whole, data);

    // acknowledging one sequence leaves the other three pending
    assert_eq!(pm.pending_ack_count(), 4);
    assert!(pm.handle_ack(base.wrapping_add(2)));
    assert_eq!(pm.pending_ack_count(), 3);
}

#[test]
fn retransmit_budget_is_respected() {
    let mut pm = PacketManager::with_config(100, 3);
    let packets = pm.create_packets(&[7, 7, 7], 0);
    assert_eq!(packets.len(), 1);
    assert_eq!(pm.pending_ack_count(), 1);

    // not yet timed out
    assert_eq!(pm.get_retransmit_packets(100).len(), 0);

    // three retransmissions, with the retry count climbing
    let first = pm.get_retransmit_packets(101);
    assert_eq!(first.len(), 1);
    assert_eq!(first[0].1, 1);
    assert_eq!(first[0].0.payload, vec![7, 7, 7]);

    let second = pm.get_retransmit_packets(300);
    assert_eq!(second.len(), 1);
    assert_eq!(second[0].1, 2);

    let third = pm.get_retransmit_packets(500);
    assert_eq!(third.len(), 1);
    assert_eq!(third[0].1, 3);

    // the budget is spent: the entry is dropped silently
    let fourth = pm.get_retransmit_packets(700);
    assert_eq!(fourth.len(), 0);
    assert_eq!(pm.pending_ack_count(), 0);
    assert!(!pm.has_pending_acks());
}

#[test]
fn acknowledged_packets_are_not_retransmitted() {
    let mut pm = PacketManager::with_config(50, 3);
    let packets = pm.create_packets(&[1], 0);
    assert!(pm.handle_ack(packets[0].sequence));
    assert_eq!(pm.get_retransmit_packets(1000).len(), 0);
}

#[test]
fn server_acks_fresh_data_and_drops_replays() {
    // a client frames a message; the server receives it
    let mut client = PacketManager::new();
    let mut server = PacketManager::new();

    let mut msg = BiWiMessage::new();
    msg.set_field(1, BiWiValue::String("ping".to_string()));
    let payload = msg.to_vec();
    let packets = client.create_packets(&payload, 0);
    assert_eq!(packets.len(), 1);
    let wire = packets[0].to_bytes();

    let received = UdpPacket::from_bytes(&wire).unwrap();
    let action = server.handle_packet(&received);

    // the server replies at once with an ACK for the data sequence
    let reply = action.reply.expect("fresh data must be acknowledged");
    assert_eq!(reply.packet_type, PacketType::Ack);
    assert_eq!(reply.ack_number, received.sequence);

    // the payload surfaces and decodes to the original message
    let delivered = action.deliver.expect("fresh data must be delivered");
    let decoded = BiWiMessage::from_buffer(&delivered).unwrap();
    assert_eq!(
        decoded.get_field(1),
        Some(&BiWiValue::String("ping".to_string()))
    );

    // a replay of the same datagram is acknowledged but not delivered
    let replay = UdpPacket::from_bytes(&wire).unwrap();
    let again = server.handle_packet(&replay);
    assert!(again.reply.is_some());
    assert!(again.deliver.is_none());

    // the client clears its pending entry on the ACK
    assert_eq!(client.pending_ack_count(), 1);
    let ack_action = client.handle_packet(&reply);
    assert!(ack_action.reply.is_none());
    assert_eq!(client.pending_ack_count(), 0);
}

#[test]
fn pings_are_answered_with_pongs() {
    let mut pm = PacketManager::new();
    let ping = pm.create_ping_packet(12345);
    assert_eq!(ping.packet_type, PacketType::Ping);
    assert_eq!(ping.payload.len(), 16);
    assert_eq!(ping.payload[0], 0x39);
    assert_eq!(ping.payload[1], 0x30);
    assert!(ping.payload[2..].iter().all(|&b| b == 0));

    let mut server = PacketManager::new();
    let action = server.handle_packet(&ping);
    let pong = action.reply.expect("a ping must be answered");
    assert_eq!(pong.packet_type, PacketType::Pong);
    assert_eq!(pong.ack_number, ping.sequence);
    assert_eq!(pong.sequence, 0);
    assert!(action.deliver.is_none());

    // a pong is ignored
    let quiet = server.handle_packet(&pong);
    assert!(quiet.reply.is_none());
    assert!(quiet.deliver.is_none());
}

#[test]
fn ack_packets_echo_the_sequence() {
    let pm = PacketManager::new();
    let ack = pm.create_ack_packet(77);
    assert_eq!(ack.packet_type, PacketType::Ack);
    assert_eq!(ack.ack_number, 77);
    assert_eq!(ack.flags, 0);
    assert!(ack.payload.is_empty());
}

#[test]
fn manager_reset_clears_state() {
    let mut pm = PacketManager::new();
    pm.create_packets(&[1, 2], 0);
    pm.record_received(9);
    assert!(pm.has_pending_acks());
    pm.reset();
    assert!(!pm.has_pending_acks());
    assert!(pm.record_received(9));
    let packets = pm.create_packets(&[1], 0);
    assert_eq!(packets[0].sequence, 0);
}

#[test]
fn empty_payload_still_makes_one_packet() {
    let mut pm = PacketManager::new();
    let packets = pm.create_packets(&[], 0);
    assert_eq!(packets.len(), 1);
    assert!(packets[0].payload.is_empty());
    assert!(packets[0].is_first_fragment());
    assert!(packets[0].is_last_fragment());
    assert_eq!(pm.pending_ack_count(), 1);
}

#[test]
fn exact_boundary_payload_is_a_single_packet() {
    let mut pm = PacketManager::new();
    let packets = pm.create_packets(&vec![1u8; MAX_PAYLOAD_SIZE], 0);
    assert_eq!(packets.len(), 1);
    let mut pm2 = PacketManager::new();
    let packets2 = pm2.create_packets(&vec![1u8; MAX_PAYLOAD_SIZE + 1], 0);
    assert_eq!(packets2.len(), 2);
    assert_eq!(packets2[0].payload.len(), MAX_PAYLOAD_SIZE);
    assert_eq!(packets2[1].payload.len(), 1);
}

#[test]
fn piggyback_ack_tracks_the_highest_received_sequence() {
    let mut pm = PacketManager::new();
    let before = pm.create_packets(&[1], 0);
    assert_eq!(before[0].ack_number, 0);
    pm.record_received(500);
    pm.record_received(200);
    let after = pm.create_packets(&[2], 0);
    assert_eq!(after[0].ack_number, 500);
    // a duplicate does not move it
    pm.record_received(500);
    let again = pm.create_packets(&[3], 0);
    assert_eq!(again[0].ack_number, 500);
}

#[test]
fn fragments_reassemble_in_any_order() {
    let mut reassembler = FragmentReassembler::new();
    assert_eq!(
        reassembler.add_fragment(5, 1, false, false, b"world".to_vec()),
        None
    );
    assert_eq!(
        reassembler.add_fragment(5, 2, false, true, b"!".to_vec()),
        None
    );
    let complete = reassembler.add_fragment(5, 0, true, false, b"hello ".to_vec());
    assert_eq!(complete, Some(b"hello world!".to_vec()));

    // the finished message is discarded; a new fragment starts over
    assert_eq!(
        reassembler.add_fragment(5, 1, false, true, b"x".to_vec()),
        None
    );
}

#[test]
fn first_fragment_arrival_wins_a_slot() {
    let mut reassembler = FragmentReassembler::new();
    assert_eq!(reassembler.add_fragment(1, 2, false, true, b"CC".to_vec()), None);
    // a later arrival for an already filled slot is ignored
    assert_eq!(reassembler.add_fragment(1, 2, false, true, b"XX".to_vec()), None);
    assert_eq!(reassembler.add_fragment(1, 0, true, false, b"AA".to_vec()), None);
    let complete = reassembler.add_fragment(1, 1, false, false, b"BB".to_vec());
    assert_eq!(complete, Some(b"AABBCC".to_vec()));
    reassembler.cleanup();
}

#[test]
fn a_single_first_and_last_fragment_is_complete() {
    let mut reassembler = FragmentReassembler::new();
    assert_eq!(
        reassembler.add_fragment(9, 0, true, true, b"whole".to_vec()),
        Some(b"whole".to_vec())
    );
}

#[test]
fn reassembly_waits_for_the_last_flag() {
    // a contiguous prefix is not a message until the LAST-flagged
    // fragment has arrived
    let mut reassembler = FragmentReassembler::new();
    assert_eq!(reassembler.add_fragment(4, 0, true, false, b"AA".to_vec()), None);
    assert_eq!(reassembler.add_fragment(4, 1, false, false, b"BB".to_vec()), None);
    let complete = reassembler.add_fragment(4, 2, false, true, b"CC".to_vec());
    assert_eq!(complete, Some(b"AABBCC".to_vec()));
}

#[test]
fn fragmented_transfer_end_to_end() {
    // frame a large buffer, carry each fragment over the wire, and
    // reassemble it on the far side keyed by the first sequence
    let mut sender = PacketManager::new();
    let mut receiver = PacketManager::new();
    let mut reassembler = FragmentReassembler::new();

    let data: Vec<u8> = (0..3000u32).map(|i| (i % 200) as u8).collect();
    let packets = sender.create_packets(&data, 0);
    assert_eq!(packets.len(), 3);
    let first_seq = packets[0].sequence;

    // fragments are delivered out of order; slot zero arriving last
    let mut rebuilt = None;
    for packet in packets.iter().rev() {
        let wire = packet.to_bytes();
        let received = UdpPacket::from_bytes(&wire).unwrap();
        let action = receiver.handle_packet(&received);
        if let Some(chunk) = action.deliver {
            let index = received.sequence.wrapping_sub(first_seq);
            if let Some(whole) = reassembler.add_fragment(
                first_seq,
                index,
                received.is_first_fragment(),
                received.is_last_fragment(),
                chunk,
            ) {
                rebuilt = Some(whole);
            }
        }
    }
    assert_eq!(rebuilt, Some(data));
}
