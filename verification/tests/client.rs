use std::collections::VecDeque;
use zomb8::client::config_parser::Config;
use zomb8::client::prediction::InputHistory;
use zomb8::client::snapshot_handler::{record_snapshot, SNAPSHOT_HISTORY};
use zomb8::client::spawn_despawn_handler::{despawn_network_entity, find_network_entity};
use zomb8::protocol::network_id::ProtocolNetworkId;
use zomb8::protocol::packets::input::{InputMap, PacketInput};

fn up() -> InputMap {
    InputMap { up: true, down: false, left: false, right: false }
}

#[test]
fn client_config_holds_the_server_address() {
    let config = Config { server_ip: "127.0.0.1".to_string() };
    assert_eq!(config.server_ip, "127.0.0.1");
}

#[test]
fn new_input_is_numbered_and_recorded() {
    let mut h = InputHistory::new();
    let id = ProtocolNetworkId(7);
    let p = h.check_for_new_input(id, &InputMap::zero());
    assert_eq!(p, Some(PacketInput { client_id: id, seq: 1, input_map: InputMap::zero() }));
    assert_eq!(h.input_seq, 1);
    assert_eq!(h.last_maps, vec![(1, InputMap::zero())]);
    assert_eq!(h.last_sent_map, Some(InputMap::zero()));
}

#[test]
fn unchanged_input_is_not_sent_again() {
    let mut h = InputHistory::new();
    let id = ProtocolNetworkId(1);
    assert!(h.check_for_new_input(id, &up()).is_some());
    assert!(h.check_for_new_input(id, &up()).is_none());
    assert_eq!(h.input_seq, 1);
    assert_eq!(h.last_maps.len(), 1);
    let p = h.check_for_new_input(id, &InputMap::zero()).expect("changed");
    assert_eq!(p.seq, 2);
    assert_eq!(h.last_maps, vec![(1, up()), (2, InputMap::zero())]);
}

#[test]
fn acknowledged_inputs_are_discarded() {
    let mut h = InputHistory::new();
    let id = ProtocolNetworkId(1);
    h.check_for_new_input(id, &up());
    h.check_for_new_input(id, &InputMap::zero());
    h.check_for_new_input(id, &up());
    h.discard_acknowledged(1);
    assert_eq!(h.last_maps, vec![(2, InputMap::zero()), (3, up())]);
    assert_eq!(h.input_seq, 3);
    h.discard_acknowledged(0);
    assert_eq!(h.last_maps.len(), 2);
    h.discard_acknowledged(3);
    assert!(h.last_maps.is_empty());
    assert_eq!(h.last_sent_map, Some(up()));
}

#[test]
fn snapshots_keep_the_latest_five() {
    assert_eq!(SNAPSHOT_HISTORY, 5);
    let mut snaps: VecDeque<u32> = VecDeque::new();
    for i in 0..8 {
        record_snapshot(&mut snaps, i);
        assert!(snaps.len() <= SNAPSHOT_HISTORY);
        assert_eq!(*snaps.back().unwrap(), i);
    }
    assert_eq!(snaps, VecDeque::from(vec![3, 4, 5, 6, 7]));
}

#[test]
fn despawn_finds_the_first_entity_with_the_id() {
    let entities = vec![
        (100, ProtocolNetworkId(1)),
        (101, ProtocolNetworkId(2)),
        (102, ProtocolNetworkId(2)),
    ];
    assert_eq!(despawn_network_entity(&entities, ProtocolNetworkId(2)), Some(101));
    assert_eq!(despawn_network_entity(&entities, ProtocolNetworkId(1)), Some(100));
    assert_eq!(despawn_network_entity(&entities, ProtocolNetworkId(9)), None);
    assert_eq!(despawn_network_entity(&vec![], ProtocolNetworkId(9)), None);
}

#[test]
fn find_network_entity_takes_the_first_match() {
    let entities = vec![(7, ProtocolNetworkId(3)), (8, ProtocolNetworkId(4)), (9, ProtocolNetworkId(3))];
    assert_eq!(find_network_entity(&entities, ProtocolNetworkId(3)), Some(7));
    assert_eq!(find_network_entity(&entities, ProtocolNetworkId(4)), Some(8));
    assert_eq!(find_network_entity(&entities, ProtocolNetworkId(5)), None);
}
