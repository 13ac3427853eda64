use rustmine::packet_id;
use rustmine::session::{extract_offline_username, parse_move_player, Session, SessionState};
use rustmine::varint::write_var_i32;

fn login_body(protocol: u32, name: &str) -> Vec<u8> {
    let mut b = protocol.to_be_bytes().to_vec();
    b.extend_from_slice(b"{displayName \"");
    b.extend_from_slice(name.as_bytes());
    b.extend_from_slice(b"\" }");
    b
}

#[test]
fn new_session_waits_for_settings() {
    let s = Session::new(3);
    assert_eq!(s.state, SessionState::WaitSettings);
    assert_eq!(s.entity_id, 3);
    assert_eq!(s.view_distance, 4);
    assert_eq!(f32::from_bits(s.position.y), 70.0);
}

#[test]
fn full_login_handshake() {
    let mut s = Session::new(1);
    assert!(!s.on_packet(packet_id::REQUEST_NETWORK_SETTINGS, &[]));
    assert_eq!(s.state, SessionState::WaitLogin);
    let out = s.collect_responses();
    assert_eq!(out.len(), 1);
    assert_eq!(out[0][0], packet_id::NETWORK_SETTINGS);

    assert!(!s.on_packet(packet_id::LOGIN, &login_body(1001, "Steve")));
    assert_eq!(s.state, SessionState::WaitResourcePacks);
    assert_eq!(s.username, "Steve");
    let out = s.collect_responses();
    assert_eq!(out.len(), 2);
    assert_eq!(out[0][0], packet_id::PLAY_STATUS);
    assert_eq!(out[1][0], packet_id::RESOURCE_PACKS_INFO);

    assert!(s.on_packet(packet_id::RESOURCE_PACK_CLIENT_RESPONSE, &[]));
    assert_eq!(s.state, SessionState::Spawned);
    let out = s.collect_responses();
    assert!(out.len() > 3);
    assert!(s.collect_responses().is_empty());
}

#[test]
fn wrong_protocol_closes_session() {
    let mut s = Session::new(1);
    s.on_packet(packet_id::REQUEST_NETWORK_SETTINGS, &[]);
    s.collect_responses();
    assert!(!s.on_packet(packet_id::LOGIN, &login_body(900, "Steve")));
    assert_eq!(s.state, SessionState::Closed);
    let out = s.collect_responses();
    assert_eq!(out.len(), 1);
    assert_eq!(out[0][0], packet_id::DISCONNECT);
    // A closed session ignores everything.
    assert!(!s.on_packet(packet_id::REQUEST_NETWORK_SETTINGS, &[]));
    assert!(s.collect_responses().is_empty());
}

#[test]
fn out_of_order_packets_are_ignored() {
    let mut s = Session::new(1);
    assert!(!s.on_packet(packet_id::LOGIN, &login_body(1001, "X")));
    assert_eq!(s.state, SessionState::WaitSettings);
    assert!(s.collect_responses().is_empty());
}

#[test]
fn username_extraction() {
    assert_eq!(extract_offline_username(&login_body(1001, "Alex")), Some("Alex".to_string()));
    assert_eq!(extract_offline_username(b"no name here"), None);
    // The name is what lies between the first two quotes after the key.
    assert_eq!(extract_offline_username(b"{\"displayName\":\"Steve\"}"), Some(":".to_string()));
}

#[test]
fn chunk_radius_request_is_clamped() {
    let mut s = Session::new(1);
    s.on_packet(packet_id::REQUEST_NETWORK_SETTINGS, &[]);
    s.on_packet(packet_id::LOGIN, &login_body(1001, "Steve"));
    s.on_packet(packet_id::RESOURCE_PACK_CLIENT_RESPONSE, &[]);
    s.collect_responses();
    let mut body = Vec::new();
    write_var_i32(&mut body, 64);
    assert!(!s.on_packet(packet_id::REQUEST_CHUNK_RADIUS, &body));
    let out = s.collect_responses();
    assert_eq!(out.len(), 1);
    assert_eq!(out[0][0], packet_id::CHUNK_RADIUS_UPDATED);
    assert!(s.view_distance <= 32);
}

#[test]
fn move_player_parse_rejects_short_body() {
    assert!(parse_move_player(&[1, 2, 3]).is_none());
}
