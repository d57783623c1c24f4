use std::collections::HashSet;
use zomb8::protocol::config_parser::{port, server_ip, tps, Config};
use zomb8::protocol::network_id::ProtocolNetworkId;
use zomb8::protocol::packet::{Packet, PacketKind, MAX_DATAGRAM_SIZE};
use zomb8::protocol::packets::input::{InputMap, PacketInput};
use zomb8::protocol::packets::request::{PacketRequest, RequestKind};
use zomb8::protocol::packets::set_player_id::PacketSetPlayerId;
use zomb8::protocol::packets::version::PacketVersion;
use zomb8::protocol::packets::wave::PacketWave;
use zomb8::protocol::ping::PacketPing;

#[test]
fn packet_kind_byte_round_trip() {
    let b: u8 = PacketKind::SpawnEntity.into();
    assert_eq!(b, 0);
    assert!(matches!(PacketKind::try_from(b), Ok(PacketKind::SpawnEntity)));
}

#[test]
fn packet_kind_rejects_unknown_bytes() {
    for b in 1u8..=255 {
        assert!(PacketKind::try_from(b).is_err());
    }
}

#[test]
fn packet_to_bytes_layout() {
    let p = Packet::new(PacketKind::SpawnEntity, "hi".to_string());
    assert_eq!(p.to_bytes(), vec![5, 0, 0, b'h', b'i']);
}

#[test]
fn packet_into_bytes_matches_to_bytes() {
    let p = Packet::new(PacketKind::SpawnEntity, "abc".to_string());
    let bytes: Vec<u8> = Vec::from(&p);
    assert_eq!(bytes, vec![6, 0, 0, b'a', b'b', b'c']);
    assert_eq!(bytes, p.to_bytes());
}

#[test]
fn packet_len_counts_utf8_bytes() {
    // "é" takes two bytes in UTF-8.
    let p = Packet::new(PacketKind::SpawnEntity, "é".to_string());
    let bytes = p.to_bytes();
    assert_eq!(bytes.len(), 5);
    assert_eq!(bytes[0], 5);
    assert_eq!(bytes[1], 0);
    assert_eq!(&bytes[3..], "é".as_bytes());
}

#[test]
fn packet_len_field_is_little_endian() {
    let payload = "x".repeat(300);
    let p = Packet::new(PacketKind::SpawnEntity, payload);
    let bytes = p.to_bytes();
    // 303 = 0x012f
    assert_eq!(bytes[0], 0x2f);
    assert_eq!(bytes[1], 0x01);
    assert_eq!(bytes.len(), 303);
}

#[test]
fn packet_round_trip() {
    let p = Packet::new(PacketKind::SpawnEntity, "zombies ahead".to_string());
    let bytes = p.to_bytes();
    let q = Packet::try_from_bytes(&bytes).expect("known kind");
    assert_eq!(q.to_bytes(), bytes);
}

#[test]
fn packet_round_trip_empty_payload() {
    let p = Packet::new(PacketKind::SpawnEntity, String::new());
    let bytes = p.to_bytes();
    assert_eq!(bytes, vec![3, 0, 0]);
    let q = Packet::try_from_bytes(&bytes).expect("known kind");
    assert_eq!(q.to_bytes(), bytes);
}

#[test]
fn packet_parse_rejects_unknown_kind() {
    assert!(Packet::try_from_bytes(&[3, 0, 1]).is_err());
    assert!(Packet::try_from_bytes(&[3, 0, 9, b'a']).is_err());
}

#[test]
fn packet_parse_keeps_len_field_as_sent() {
    // The length field is not checked against the data.
    let q = Packet::try_from_bytes(&[0xff, 0xff, 0, b'o', b'k']).expect("known kind");
    assert_eq!(q.to_bytes(), vec![0xff, 0xff, 0, b'o', b'k']);
}

#[test]
fn packet_parse_replaces_invalid_utf8() {
    // 0xff is never valid UTF-8; it becomes U+FFFD (three bytes).
    let q = Packet::try_from_bytes(&[4, 0, 0, 0xff]).expect("known kind");
    assert_eq!(q.to_bytes(), vec![4, 0, 0, 0xef, 0xbf, 0xbd]);
}

#[test]
fn max_datagram_size_is_64k() {
    assert_eq!(MAX_DATAGRAM_SIZE, 65536);
}

#[test]
fn config_getters() {
    let config = Config { server_ip: "192.168.2.119".to_string(), tps: 20, port: 6969 };
    assert_eq!(server_ip(&config), "192.168.2.119");
    assert_eq!(tps(&config), 20);
    assert_eq!(port(&config), 6969);
}

#[test]
fn input_map_zero_holds_nothing() {
    let m = InputMap::zero();
    assert!(!m.up && !m.down && !m.left && !m.right);
}

#[test]
fn packet_constructors_keep_fields() {
    let input = PacketInput::new(ProtocolNetworkId(3), 9, InputMap::zero());
    assert_eq!(input.client_id, ProtocolNetworkId(3));
    assert_eq!(input.seq, 9);
    assert_eq!(input.input_map, InputMap::zero());
    assert_eq!(PacketRequest::new(RequestKind::Wave).kind, RequestKind::Wave);
    assert_eq!(PacketSetPlayerId::new(ProtocolNetworkId(4)).id, ProtocolNetworkId(4));
    assert_eq!(PacketVersion::new("0.1".to_string()).version_string, "0.1");
    assert_eq!(PacketWave::new(12).number, 12);
}

#[test]
fn ping_is_stamped_with_the_given_time() {
    let ping = PacketPing::new(1_700_000_000_123);
    assert_eq!(ping.now, 1_700_000_000_123);
    assert_eq!(PacketPing::new(0), PacketPing { now: 0 });
}

#[test]
fn network_ids_compare_and_hash() {
    let mut set = HashSet::new();
    set.insert(ProtocolNetworkId(1));
    set.insert(ProtocolNetworkId(1));
    set.insert(ProtocolNetworkId(2));
    assert_eq!(set.len(), 2);
    assert!(ProtocolNetworkId(1) < ProtocolNetworkId(2));
    assert_eq!(ProtocolNetworkId::default(), ProtocolNetworkId(0));
}
