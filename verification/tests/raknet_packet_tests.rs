use rustmine::raknet_packet::{
    decode_ack, decode_datagram, decode_frame, decode_nack, decode_offline, encode_ack, encode_datagram, encode_frame,
    encode_offline, parse_packet, split_into_frames, Ack, Frame, FrameSetEntry, FrameType, NetAddress, OfflinePacket,
    RaknetPacket, Reliability, SequenceRange, MAGIC, OPEN_CONNECTION_REPLY_1, OPEN_CONNECTION_REPLY_2,
    UNCONNECTED_PONG,
};

fn plain_frame(reliability: Reliability, body: &[u8]) -> Frame {
    Frame {
        reliability,
        is_split: false,
        reliable_index: None,
        sequence_index: None,
        order_index: None,
        order_channel: 0,
        split_count: None,
        split_id: None,
        split_index: None,
        body: body.to_vec(),
    }
}

#[test]
fn unconnected_ping_decode() {
    let mut buf = vec![0x01];
    buf.extend_from_slice(&0i64.to_be_bytes());
    buf.extend_from_slice(&MAGIC);
    buf.extend_from_slice(&123456789i64.to_be_bytes());

    let packet = decode_offline(&buf).unwrap();
    match packet {
        OfflinePacket::UnconnectedPing { time: _, client_guid } => assert_eq!(client_guid, 123456789),
        _ => panic!("expected UnconnectedPing"),
    }
}

#[test]
fn unconnected_pong_encode_roundtrip() {
    let motd = "MCPE;Test;1001;1.26.30;0;20;12345;World;Survival;1;";
    let pong = OfflinePacket::UnconnectedPong { time: 0, server_guid: 987654321, motd: motd.to_string() };
    let raw = encode_offline(&pong);
    assert_eq!(raw[0], UNCONNECTED_PONG);
}

#[test]
fn open_conn_request_1_decode() {
    let mut buf = vec![0x05];
    buf.extend_from_slice(&MAGIC);
    buf.push(11);
    buf.extend_from_slice(&[0u8; 1460]);

    let packet = decode_offline(&buf).unwrap();
    match packet {
        OfflinePacket::OpenConnectionRequest1 { protocol_version, mtu: _ } => assert_eq!(protocol_version, 11),
        _ => panic!("expected OpenConnectionRequest1"),
    }
}

#[test]
fn open_conn_reply_1_encode_roundtrip() {
    let reply = OfflinePacket::OpenConnectionReply1 { server_guid: 555, use_encryption: false, mtu: 1492 };
    let raw = encode_offline(&reply);
    assert_eq!(raw[0], OPEN_CONNECTION_REPLY_1);
    assert_eq!(raw.len(), 28);
}

#[test]
fn open_conn_reply_2_encode_roundtrip() {
    let addr = NetAddress::V4 { ipv4: 0x7f00_0001, port: 19132 };
    let reply = OfflinePacket::OpenConnectionReply2 {
        server_guid: 42,
        client_address: addr,
        mtu: 1492,
        encryption_enabled: false,
    };
    let raw = encode_offline(&reply);
    assert_eq!(raw[0], OPEN_CONNECTION_REPLY_2);
}

#[test]
fn frame_unreliable_roundtrip() {
    let frame = plain_frame(Reliability::Unreliable, b"hello world");
    let raw = encode_frame(&frame);
    let decoded = decode_frame(&raw).unwrap().0;
    assert_eq!(decoded.reliability, Reliability::Unreliable);
    assert_eq!(decoded.body, b"hello world");
}

#[test]
fn frame_reliable_roundtrip() {
    let mut frame = plain_frame(Reliability::Reliable, b"reliable payload");
    frame.reliable_index = Some(42);
    let raw = encode_frame(&frame);
    let decoded = decode_frame(&raw).unwrap().0;
    assert_eq!(decoded.reliability, Reliability::Reliable);
    assert_eq!(decoded.reliable_index, Some(42));
    assert_eq!(decoded.body, b"reliable payload");
}

#[test]
fn frame_reliable_ordered_roundtrip() {
    let frame = Frame {
        reliability: Reliability::ReliableOrdered,
        is_split: false,
        reliable_index: Some(10),
        sequence_index: None,
        order_index: Some(5),
        order_channel: 2,
        split_count: None,
        split_id: None,
        split_index: None,
        body: vec![1, 2, 3, 4],
    };
    let raw = encode_frame(&frame);
    let decoded = decode_frame(&raw).unwrap().0;
    assert_eq!(decoded.reliability, Reliability::ReliableOrdered);
    assert_eq!(decoded.reliable_index, Some(10));
    assert_eq!(decoded.order_index, Some(5));
    assert_eq!(decoded.order_channel, 2);
    assert_eq!(decoded.body, vec![1, 2, 3, 4]);
}

#[test]
fn datagram_single_frame_roundtrip() {
    let frame = plain_frame(Reliability::Unreliable, b"game packet");
    let entry = FrameSetEntry { sequence_number: 7, frames: vec![frame] };
    let raw = encode_datagram(&entry);
    let decoded = decode_datagram(&raw).unwrap();
    assert_eq!(decoded.sequence_number, 7);
    assert_eq!(decoded.frames.len(), 1);
    assert_eq!(decoded.frames[0].body, b"game packet");
}

#[test]
fn ack_encode_decode() {
    let ack = Ack { sequences: vec![SequenceRange { start: 1, end: 3 }] };
    let raw = encode_ack(&ack, false);
    let decoded = decode_ack(&raw).unwrap();
    assert_eq!(decoded.sequences.len(), 1);
    assert_eq!(decoded.sequences[0].start, 1);
    assert_eq!(decoded.sequences[0].end, 3);
}

#[test]
fn nack_encode_decode() {
    let nack = Ack { sequences: vec![SequenceRange { start: 0, end: 0 }, SequenceRange { start: 5, end: 7 }] };
    let raw = encode_ack(&nack, true);
    let decoded = decode_nack(&raw).unwrap();
    assert_eq!(decoded.sequences.len(), 2);
}

#[test]
fn reliability_from_raw() {
    assert_eq!(Reliability::from_raw(0), Some(Reliability::Unreliable));
    assert_eq!(Reliability::from_raw(2), Some(Reliability::Reliable));
    assert_eq!(Reliability::from_raw(3), Some(Reliability::ReliableOrdered));
    assert_eq!(Reliability::from_raw(7), None);
}

#[test]
fn frame_type_from_byte() {
    assert_eq!(FrameType::from_byte(0xc0), Some(FrameType::Ack));
    assert_eq!(FrameType::from_byte(0xa0), Some(FrameType::Nack));
    assert_eq!(FrameType::from_byte(0x80), Some(FrameType::FrameSet));
    assert_eq!(FrameType::from_byte(0x8f), Some(FrameType::FrameSet));
    assert_eq!(FrameType::from_byte(0x00), None);
}

#[test]
fn reject_empty_buffer() {
    assert!(parse_packet(&[]).is_err());
}

#[test]
fn reject_unknown_packet_id() {
    assert!(parse_packet(&[0xff]).is_err());
}

#[test]
fn reject_truncated_offline() {
    assert!(decode_offline(&[0x01, 0x00]).is_err());
}

#[test]
fn reject_bad_magic() {
    let mut buf = vec![0x01];
    buf.extend_from_slice(&0i64.to_be_bytes());
    buf.extend_from_slice(&[0u8; 16]);
    buf.extend_from_slice(&0i64.to_be_bytes());
    assert!(decode_offline(&buf).is_err());
}

#[test]
fn frame_with_split_flag_roundtrips() {
    let frame = Frame {
        reliability: Reliability::ReliableOrdered,
        is_split: true,
        reliable_index: Some(1),
        sequence_index: None,
        order_index: Some(2),
        order_channel: 0,
        split_count: Some(4),
        split_id: Some(99),
        split_index: Some(3),
        body: b"chunk3".to_vec(),
    };
    let raw = encode_frame(&frame);
    let decoded = decode_frame(&raw).unwrap().0;
    assert!(decoded.is_split);
    assert_eq!(decoded.split_count, Some(4));
    assert_eq!(decoded.split_id, Some(99));
    assert_eq!(decoded.split_index, Some(3));
    assert_eq!(decoded.body, b"chunk3");
}

#[test]
fn split_into_frames_produces_multiple_pieces() {
    let payload: Vec<u8> = (0..4096u32).map(|i| (i & 0xff) as u8).collect();
    let pieces = split_into_frames(&payload, 576, 12, Reliability::ReliableOrdered, 0);
    assert!(pieces.len() > 1);
    let total: usize = pieces.iter().map(|p| p.body.len()).sum();
    assert_eq!(total, payload.len());
    assert!(pieces.iter().all(|p| p.is_split && p.split_id == Some(12)));
    let mut indices: Vec<u32> = pieces.iter().map(|p| p.split_index.unwrap()).collect();
    indices.sort();
    for (i, idx) in indices.iter().enumerate() {
        assert_eq!(*idx, i as u32);
    }
}

#[test]
fn split_pieces_are_chunk_sized() {
    // 576 - 34 = 542 bytes per piece: 4096 bytes make 8 pieces.
    let payload = vec![9u8; 4096];
    let pieces = split_into_frames(&payload, 576, 1, Reliability::ReliableOrdered, 0);
    assert_eq!(pieces.len(), 8);
    assert!(pieces[..7].iter().all(|p| p.body.len() == 542));
    assert_eq!(pieces[7].body.len(), 4096 - 7 * 542);
    assert!(pieces.iter().all(|p| p.split_count == Some(8)));
    assert!(split_into_frames(&[], 576, 1, Reliability::ReliableOrdered, 0).is_empty());
}

#[test]
fn frame_exact_bytes() {
    let frame = plain_frame(Reliability::Unreliable, &[0xaa, 0xbb]);
    // flags 0, length 16 bits big-endian, body
    assert_eq!(encode_frame(&frame), vec![0x00, 0x00, 0x10, 0xaa, 0xbb]);
    let mut reliable = plain_frame(Reliability::Reliable, &[1]);
    reliable.reliable_index = Some(0x030201);
    assert_eq!(encode_frame(&reliable), vec![0x02, 0x00, 0x08, 0x01, 0x02, 0x03, 1]);
}

#[test]
fn ack_exact_bytes() {
    let ack = Ack { sequences: vec![SequenceRange { start: 5, end: 5 }, SequenceRange { start: 1, end: 3 }] };
    assert_eq!(
        encode_ack(&ack, false),
        vec![0xc0, 0x00, 0x02, 0x01, 0x05, 0x00, 0x00, 0x00, 0x01, 0x00, 0x00, 0x03, 0x00, 0x00]
    );
}

#[test]
fn parse_dispatches_by_leading_byte() {
    let raw = encode_ack(&Ack { sequences: vec![SequenceRange { start: 2, end: 2 }] }, false);
    assert!(matches!(parse_packet(&raw), Ok(RaknetPacket::Ack(_))));
    let raw = encode_ack(&Ack { sequences: vec![SequenceRange { start: 2, end: 2 }] }, true);
    assert!(matches!(parse_packet(&raw), Ok(RaknetPacket::Nack(_))));
    let entry = FrameSetEntry { sequence_number: 1, frames: vec![plain_frame(Reliability::Unreliable, b"x")] };
    match parse_packet(&encode_datagram(&entry)) {
        Ok(RaknetPacket::FrameSet { sequence_number, frames }) => {
            assert_eq!(sequence_number, 1);
            assert_eq!(frames[0].body, b"x");
        }
        _ => panic!("expected a frame set"),
    }
}
