use rustmine::raknet_conn::{ConnectionState, PendingFrame, RecvQueue, SplitPacket, Connection};
use rustmine::raknet_packet::{
    decode_datagram, encode_datagram, Ack, Frame, FrameSetEntry, NetAddress, Nack, OfflinePacket, RaknetPacket,
    Reliability, SequenceRange, decode_ack,
};
use rustmine::raknet_server::{OfflineOutcome, RaknetServer, ServerEvent};

const CLIENT: NetAddress = NetAddress::V4 { ipv4: 0x0a00_0002, port: 50000 };

fn connected_server() -> RaknetServer {
    let mut s = RaknetServer::with_guid("Test".to_string(), false, 77);
    let o = s.handle_offline(
        CLIENT,
        OfflinePacket::OpenConnectionRequest2 {
            server_address: NetAddress::V4 { ipv4: 0x7f00_0001, port: 19132 },
            mtu: 1400,
            client_guid: 5,
        },
        1000,
    );
    assert!(o.connected);
    s
}

fn frame(body: &[u8]) -> Frame {
    Frame {
        reliability: Reliability::ReliableOrdered,
        is_split: false,
        reliable_index: Some(0),
        sequence_index: None,
        order_index: Some(0),
        order_channel: 0,
        split_count: None,
        split_id: None,
        split_index: None,
        body: body.to_vec(),
    }
}

fn piece(id: u16, idx: u32, count: u32, body: &[u8]) -> Frame {
    let mut f = frame(body);
    f.is_split = true;
    f.split_id = Some(id);
    f.split_index = Some(idx);
    f.split_count = Some(count);
    f
}

#[test]
fn recv_queue_extends_and_starts_ranges() {
    let mut q = RecvQueue::new();
    q.push(1);
    q.push(2);
    q.push(3);
    q.push(7);
    assert_eq!(q.ranges(), &[(1, 3), (7, 7)]);
    assert!(q.contains(2));
    assert!(!q.contains(4));
    assert_eq!(q.drain(), vec![(1, 3), (7, 7)]);
    assert!(q.ranges().is_empty());
}

#[test]
fn recv_queue_merges_out_of_order_numbers() {
    let mut q = RecvQueue::new();
    q.push(2);
    q.push(1);
    q.push(3);
    assert_eq!(q.ranges(), &[(1, 3)]);
    let mut q = RecvQueue::new();
    q.push(1);
    q.push(3);
    assert_eq!(q.ranges(), &[(1, 1), (3, 3)]);
    q.push(2);
    assert_eq!(q.ranges(), &[(1, 3)]);
}

#[test]
fn recv_queue_keeps_ranges_sorted_and_apart() {
    let mut q = RecvQueue::new();
    q.push(10);
    q.push(4);
    q.push(7);
    q.push(5);
    assert_eq!(q.ranges(), &[(4, 5), (7, 7), (10, 10)]);
    q.push(5);
    assert_eq!(q.ranges(), &[(4, 5), (7, 7), (10, 10)]);
    q.push(9);
    assert_eq!(q.ranges(), &[(4, 5), (7, 7), (9, 10)]);
    q.push(6);
    assert_eq!(q.ranges(), &[(4, 7), (9, 10)]);
    q.push(u32::MAX);
    q.push(u32::MAX - 1);
    q.push(0);
    assert_eq!(q.ranges(), &[(0, 0), (4, 7), (9, 10), (u32::MAX - 1, u32::MAX)]);
    assert!(q.contains(u32::MAX));
    assert!(!q.contains(8));
}

#[test]
fn split_packet_reassembles_in_any_order() {
    let mut sp = SplitPacket::new(3, 0);
    assert_eq!(sp.insert(2, b"c".to_vec()), None);
    assert_eq!(sp.insert(5, b"z".to_vec()), None);
    assert_eq!(sp.insert(0, b"a".to_vec()), None);
    assert_eq!(sp.insert(1, b"b".to_vec()), Some(b"abc".to_vec()));
}

#[test]
fn feed_split_resets_on_count_change_and_expires() {
    let mut c = Connection::new(CLIENT, 1, 1400, 0);
    assert_eq!(c.feed_split(4, 0, 2, b"x".to_vec(), 10), None);
    // A different count starts afresh.
    assert_eq!(c.feed_split(4, 1, 3, b"y".to_vec(), 20), None);
    assert_eq!(c.feed_split(4, 0, 3, b"a".to_vec(), 20), None);
    assert_eq!(c.feed_split(4, 2, 3, b"c".to_vec(), 20), Some(b"ayc".to_vec()));
    assert!(c.split_packets.is_empty());
    assert_eq!(c.feed_split(9, 0, 2, b"q".to_vec(), 100), None);
    c.expire_split_packets(5099);
    assert_eq!(c.split_packets.len(), 1);
    c.expire_split_packets(5100);
    assert!(c.split_packets.is_empty());
}

#[test]
fn ping_gets_pong_and_registers_client() {
    let mut s = RaknetServer::with_guid("Hello".to_string(), true, -5);
    let o = s.handle_offline(CLIENT, OfflinePacket::UnconnectedPing { time: 42, client_guid: 9 }, 1);
    match o.reply {
        Some(OfflinePacket::UnconnectedPong { time, server_guid, motd }) => {
            assert_eq!(time, 42);
            assert_eq!(server_guid, -5);
            assert_eq!(motd, "MCPE;Hello;1001;1.26.30;RustMine;0;20;-5;RustMine;Survival;1;");
        }
        _ => panic!("expected a pong"),
    }
    assert!(!o.connected);
    assert_eq!(s.connections.len(), 1);
    assert_eq!(s.connections[0].state, ConnectionState::Unconnected);
    assert_eq!(s.connections[0].mtu, 1492);
    // A second ping does not add another connection.
    s.handle_offline(CLIENT, OfflinePacket::UnconnectedPing { time: 43, client_guid: 9 }, 2);
    assert_eq!(s.connections.len(), 1);
}

#[test]
fn request_1_replies_and_handshake_begins_after_send() {
    let mut s = RaknetServer::with_guid("m".to_string(), false, 1);
    s.handle_offline(CLIENT, OfflinePacket::UnconnectedPing { time: 0, client_guid: 3 }, 0);
    let o: OfflineOutcome =
        s.handle_offline(CLIENT, OfflinePacket::OpenConnectionRequest1 { protocol_version: 11, mtu: 1500 }, 5);
    match o.reply {
        Some(OfflinePacket::OpenConnectionReply1 { server_guid, use_encryption, mtu }) => {
            assert_eq!(server_guid, 1);
            assert!(!use_encryption);
            assert_eq!(mtu, 1492);
        }
        _ => panic!("expected reply 1"),
    }
    assert_eq!(o.handshake_mtu, Some(1500));
    assert_eq!(s.connections[0].state, ConnectionState::Unconnected);
    s.begin_handshake(CLIENT, 1500, 6);
    assert_eq!(s.connections[0].state, ConnectionState::Handshaking);
    assert_eq!(s.connections[0].mtu_size, 1492);
    assert_eq!(s.connections[0].last_recv_ms, 6);
}

#[test]
fn request_1_with_wrong_protocol_is_refused() {
    let mut s = RaknetServer::with_guid("m".to_string(), false, 8);
    let o = s.handle_offline(CLIENT, OfflinePacket::OpenConnectionRequest1 { protocol_version: 10, mtu: 1400 }, 0);
    match o.reply {
        Some(OfflinePacket::IncompatibleProtocol { server_protocol, server_guid }) => {
            assert_eq!(server_protocol, 11);
            assert_eq!(server_guid, 8);
        }
        _ => panic!("expected an incompatible-protocol notice"),
    }
    assert_eq!(o.handshake_mtu, None);
}

#[test]
fn request_2_connects_once() {
    let mut s = connected_server();
    assert_eq!(s.connections.len(), 1);
    assert_eq!(s.connections[0].state, ConnectionState::Connected);
    assert_eq!(s.connections[0].client_guid, 5);
    let again = s.handle_offline(
        CLIENT,
        OfflinePacket::OpenConnectionRequest2 {
            server_address: NetAddress::V4 { ipv4: 0x7f00_0001, port: 19132 },
            mtu: 2000,
            client_guid: 6,
        },
        1500,
    );
    assert!(!again.connected);
    match again.reply {
        Some(OfflinePacket::OpenConnectionReply2 { mtu, client_address, .. }) => {
            assert_eq!(mtu, 1492);
            assert_eq!(client_address, CLIENT);
        }
        _ => panic!("expected reply 2"),
    }
    assert_eq!(s.connections.len(), 1);
}

#[test]
fn frames_are_acked_and_delivered() {
    let mut s = connected_server();
    let out = s.handle_frames(CLIENT, 0, vec![frame(b"one"), frame(b"two")], 2000).unwrap();
    let ack = decode_ack(&out.0).unwrap();
    assert_eq!(ack.sequences, vec![SequenceRange { start: 0, end: 0 }]);
    assert_eq!(out.1, vec![b"one".to_vec(), b"two".to_vec()]);
    assert_eq!(s.connections[0].last_recv_ms, 2000);
    // A repeated sequence number gives nothing.
    assert!(s.handle_frames(CLIENT, 0, vec![frame(b"dup")], 2100).is_none());
    assert_eq!(s.connections[0].last_recv_ms, 2100);
    let out = s.handle_frames(CLIENT, 1, vec![frame(b"three")], 2200).unwrap();
    assert_eq!(decode_ack(&out.0).unwrap().sequences, vec![SequenceRange { start: 0, end: 1 }]);
}

#[test]
fn split_frames_are_reassembled() {
    let mut s = connected_server();
    let out = s.handle_frames(CLIENT, 0, vec![piece(3, 1, 2, b"lo")], 10).unwrap();
    assert!(out.1.is_empty());
    let out = s.handle_frames(CLIENT, 1, vec![piece(3, 0, 2, b"hel")], 11).unwrap();
    assert_eq!(out.1, vec![b"hello".to_vec()]);
}

#[test]
fn frames_from_unknown_clients_are_dropped() {
    let mut s = RaknetServer::with_guid("m".to_string(), false, 1);
    assert!(s.handle_frames(CLIENT, 0, vec![frame(b"x")], 0).is_none());
    s.handle_offline(CLIENT, OfflinePacket::UnconnectedPing { time: 0, client_guid: 3 }, 0);
    assert!(s.handle_frames(CLIENT, 0, vec![frame(b"x")], 0).is_none());
}

#[test]
fn small_payload_goes_in_one_datagram() {
    let mut s = connected_server();
    let ds = s.build_datagrams(CLIENT, vec![1, 2, 3], 50);
    assert_eq!(ds.len(), 1);
    let d = decode_datagram(&ds[0]).unwrap();
    assert_eq!(d.sequence_number, 0);
    assert_eq!(d.frames.len(), 1);
    assert_eq!(d.frames[0].body, vec![1, 2, 3]);
    assert_eq!(d.frames[0].reliability, Reliability::ReliableOrdered);
    assert_eq!(d.frames[0].reliable_index, Some(0));
    assert_eq!(d.frames[0].order_index, Some(0));
    let c = &s.connections[0];
    assert_eq!(c.send_seq, 1);
    assert_eq!(c.reliable_index, 1);
    assert_eq!(c.order_indices[0], 1);
    assert_eq!(c.pending_frames.len(), 1);
    assert_eq!(c.pending_frames[0].raw_data, ds[0]);
    assert_eq!(c.pending_frames[0].send_time_ms, 50);
}

#[test]
fn large_payload_is_split_and_reassembles() {
    let mut s = connected_server();
    let payload: Vec<u8> = (0..5000u32).map(|i| (i % 251) as u8).collect();
    let ds = s.build_datagrams(CLIENT, payload.clone(), 0);
    assert!(ds.len() > 1);
    let mut bodies: Vec<(u32, Vec<u8>)> = Vec::new();
    for (k, raw) in ds.iter().enumerate() {
        assert!(raw.len() <= 1400);
        let d = decode_datagram(raw).unwrap();
        assert_eq!(d.sequence_number, k as u32);
        for f in d.frames {
            assert!(f.is_split);
            assert_eq!(f.split_id, Some(0));
            bodies.push((f.split_index.unwrap(), f.body));
        }
    }
    bodies.sort();
    let joined: Vec<u8> = bodies.into_iter().flat_map(|b| b.1).collect();
    assert_eq!(joined, payload);
    assert_eq!(s.connections[0].next_split_id, 1);
}

#[test]
fn nothing_is_built_for_unconnected_clients() {
    let mut s = RaknetServer::with_guid("m".to_string(), false, 1);
    assert!(s.build_datagrams(CLIENT, vec![1], 0).is_empty());
}

#[test]
fn ack_clears_and_nack_resends() {
    let mut s = connected_server();
    let first = s.build_datagrams(CLIENT, vec![1], 0);
    let second = s.build_datagrams(CLIENT, vec![2], 0);
    let resent = s.handle_nack(CLIENT, &Nack { sequences: vec![SequenceRange { start: 1, end: 1 }] }, 300);
    assert_eq!(resent, second);
    assert_eq!(s.connections[0].pending_frames[1].retries, 1);
    assert_eq!(s.connections[0].pending_frames[1].send_time_ms, 300);
    s.handle_ack(CLIENT, &Ack { sequences: vec![SequenceRange { start: 0, end: 0 }] });
    assert_eq!(s.connections[0].pending_frames.len(), 1);
    assert_eq!(s.connections[0].pending_frames[0].raw_data, second[0]);
    assert_ne!(first, second);
}

#[test]
fn resend_due_frames_until_retries_run_out() {
    let mut s = connected_server();
    let ds = s.build_datagrams(CLIENT, vec![9], 0);
    assert!(s.resend_pending(799).is_empty());
    let out = s.resend_pending(800);
    assert_eq!(out, vec![(CLIENT, ds[0].clone())]);
    let mut now = 800;
    for _ in 0..9 {
        now += 800;
        assert_eq!(s.resend_pending(now).len(), 1);
    }
    now += 800;
    assert!(s.resend_pending(now).is_empty());
    assert_eq!(s.connections[0].pending_frames[0].retries, 10);
    // Frames out of retries are dropped when stale connections are swept.
    assert!(s.timeout_stale(now).is_empty());
    assert!(s.connections[0].pending_frames.is_empty());
}

#[test]
fn stale_connections_time_out() {
    let mut s = connected_server();
    assert!(s.timeout_stale(21000).is_empty());
    assert_eq!(s.timeout_stale(21001), vec![CLIENT]);
    assert!(s.connections.is_empty());
}

#[test]
fn handle_packet_dispatches() {
    let mut s = RaknetServer::with_guid("m".to_string(), false, 1);
    let r = s.handle_packet(
        CLIENT,
        RaknetPacket::Offline(OfflinePacket::OpenConnectionRequest2 {
            server_address: NetAddress::V4 { ipv4: 1, port: 2 },
            mtu: 1200,
            client_guid: 4,
        }),
        0,
    );
    assert_eq!(r.replies.len(), 1);
    assert!(matches!(r.events[0], ServerEvent::Connected(a) if a == CLIENT));
    let entry = FrameSetEntry { sequence_number: 0, frames: vec![frame(b"batch")] };
    let raw = encode_datagram(&entry);
    let packet = rustmine::raknet_packet::parse_packet(&raw).unwrap();
    let r = s.handle_packet(CLIENT, packet, 5);
    assert_eq!(r.replies.len(), 1);
    match &r.events[0] {
        ServerEvent::GamePacket(a, b) => {
            assert_eq!(*a, CLIENT);
            assert_eq!(b, b"batch");
        }
        _ => panic!("expected a game packet"),
    }
}

#[test]
fn pending_frame_fields() {
    let p = PendingFrame { sequence_number: 1, reliable_index: 2, raw_data: vec![3], send_time_ms: 4, retries: 0 };
    assert_eq!(p.clone().raw_data, vec![3]);
}
