use bee_core::messages::NeighborEvent;
use bee_core::neighbor::{compatible, neighbor_step, Handshake, Neighbor, NeighborAction, NeighborState};

fn payload(key: u8, mwm: u8, versions: &[u8]) -> Vec<u8> {
    let mut b = vec![0x05, 0x39];
    b.extend_from_slice(&0x0000_0170_97a8_f63cu64.to_be_bytes());
    b.extend_from_slice(&[key; 49]);
    b.push(mwm);
    b.extend_from_slice(versions);
    b
}

fn local() -> Handshake {
    Handshake::from_bytes(&payload(7, 14, &[1])).expect("valid handshake")
}

#[test]
fn handshake_fields() {
    let h = local();
    assert_eq!(h.port, 1337);
    assert_eq!(h.timestamp, 0x0000_0170_97a8_f63c);
    assert_eq!(h.coordinator, [7u8; 49]);
    assert_eq!(h.mwm, 14);
    assert_eq!(h.supported_versions, vec![1u8]);
    assert!(Handshake::from_bytes(&payload(7, 14, &[])).is_none());
}

#[test]
fn handshake_compatibility() {
    let l = local();
    assert!(compatible(&l, &Handshake::from_bytes(&payload(7, 14, &[3])).unwrap()));
    assert!(compatible(&l, &Handshake::from_bytes(&payload(7, 15, &[1, 0])).unwrap()));
    assert!(!compatible(&l, &Handshake::from_bytes(&payload(8, 14, &[1])).unwrap()));
    assert!(!compatible(&l, &Handshake::from_bytes(&payload(7, 13, &[1])).unwrap()));
    assert!(!compatible(&l, &Handshake::from_bytes(&payload(7, 14, &[2])).unwrap()));
}

#[test]
fn neighbor_becomes_ready() {
    let l = local();
    let (s, a) = neighbor_step(&l, NeighborState::Connecting, NeighborEvent::Connected);
    assert_eq!(a, NeighborAction::SendHandshake);
    assert!(matches!(s, NeighborState::Handshaking { header: None }));
    let (s, a) = neighbor_step(&l, s, NeighborEvent::Message { size: 2, bytes: vec![1, 0] });
    assert_eq!(a, NeighborAction::Nothing);
    assert!(matches!(s, NeighborState::Handshaking { header: None }));
    let mut msg = vec![1, 0, 61];
    msg.extend(payload(7, 14, &[1]));
    let size = msg.len();
    let (s, _) = neighbor_step(&l, s, NeighborEvent::Message { size, bytes: msg });
    assert!(matches!(s, NeighborState::Ready));
}

#[test]
fn incompatible_peer_stays_in_handshake() {
    let l = local();
    let s = NeighborState::Handshaking { header: None };
    let mut msg = vec![1, 0, 61];
    msg.extend(payload(9, 14, &[1]));
    let size = msg.len();
    let (s, _) = neighbor_step(&l, s, NeighborEvent::Message { size, bytes: msg });
    assert!(matches!(s, NeighborState::Handshaking { header: Some([1, 0, 61]) }));
    let good = payload(7, 14, &[1]);
    let size = good.len();
    let (s, _) = neighbor_step(&l, s, NeighborEvent::Message { size, bytes: good });
    assert!(matches!(s, NeighborState::Ready));
}

#[test]
fn neighbor_tracks_its_connection() {
    let l = local();
    let mut n = Neighbor::new();
    assert_eq!(n.heartbeat.last_solid_milestone_index, 0);
    assert_eq!(n.on_event(&l, NeighborEvent::Disconnected), NeighborAction::Nothing);
    assert!(matches!(n.state, NeighborState::Connecting));
    assert_eq!(n.on_event(&l, NeighborEvent::Connected), NeighborAction::SendHandshake);
    let mut msg = vec![1, 0, 61];
    msg.extend(payload(7, 14, &[1]));
    let size = msg.len();
    assert_eq!(n.on_event(&l, NeighborEvent::Message { size, bytes: msg }), NeighborAction::Nothing);
    assert!(matches!(n.state, NeighborState::Ready));
}

#[test]
fn handshake_round_trip() {
    let h = local();
    let b = h.to_bytes();
    assert_eq!(b, payload(7, 14, &[1]));
    let back = Handshake::from_bytes(&b).unwrap();
    assert_eq!(back.port, h.port);
    assert_eq!(back.timestamp, h.timestamp);
    assert_eq!(back.supported_versions, h.supported_versions);
}

#[test]
fn short_message_keeps_state() {
    let l = local();
    let s = NeighborState::Handshaking { header: Some([1, 0, 61]) };
    let (s, a) = neighbor_step(&l, s, NeighborEvent::Message { size: 1, bytes: vec![9] });
    assert_eq!(a, NeighborAction::Nothing);
    assert!(matches!(s, NeighborState::Handshaking { header: Some([1, 0, 61]) }));
}
