use bee_core::hash::TernaryHash;
use bee_core::messages::Heartbeat;
use bee_core::protocol::{on_last_milestone_changed, on_last_solid_milestone_changed};
use bee_core::solidifier::{MilestoneSolidifier, MilestoneSolidifierEvent, SolidifierAction, MILESTONE_REQUEST_RANGE};
use bee_core::tangle::{Tangle, Transaction};

fn h(b: u8) -> TernaryHash {
    TernaryHash::from_byte(b)
}

#[test]
fn solid_milestone_advances_window() {
    let t = Tangle::new(0);
    let mut s = MilestoneSolidifier::new(0, 2);
    assert_eq!(s.lower_index, 1);
    assert!(s.step(&t, MilestoneSolidifierEvent::NewSolidMilestone(1)).is_empty());
    assert_eq!(s.lower_index, 2);
    let r = s.step(&t, MilestoneSolidifierEvent::NewSolidMilestone(5));
    assert_eq!(s.lower_index, 2);
    assert!(matches!(r[0], SolidifierAction::UnexpectedSolidMilestone { expected: 2, got: 5 }));
}

#[test]
fn transactions_are_routed_by_index() {
    let t = Tangle::new(0);
    let mut s = MilestoneSolidifier::new(4, 3);
    let r = s.step(&t, MilestoneSolidifierEvent::NewTransaction(h(9), 6));
    assert!(matches!(r[0], SolidifierAction::Solidify { solidifier: 1, index: 6, .. }));
    let r = s.step(&t, MilestoneSolidifierEvent::NewTransaction(h(9), 8));
    assert!(matches!(r[0], SolidifierAction::OutOfWindow(8)));
    let r = s.step(&t, MilestoneSolidifierEvent::NewTransaction(h(9), 4));
    assert!(matches!(r[0], SolidifierAction::OutOfWindow(4)));
}

#[test]
fn trigger_requests_and_nudges() {
    let mut t = Tangle::new(0);
    // milestone 1 is known but its tail is missing its parent; milestone 2 is unknown
    let tail = Transaction {
        address: h(1),
        value: 0,
        bundle: h(2),
        trunk: h(3),
        branch: h(3),
        current_index: 0,
        last_index: 0,
        timestamp: 0,
    };
    assert!(t.insert(tail, h(10), 0));
    t.add_milestone(1, h(10));
    let mut s = MilestoneSolidifier::new(0, 2);
    let r = s.step(&t, MilestoneSolidifierEvent::Trigger);
    let requests = r.iter().filter(|a| matches!(a, SolidifierAction::RequestMilestone(_))).count();
    assert_eq!(requests as u32, MILESTONE_REQUEST_RANGE - 1);
    assert!(matches!(r[0], SolidifierAction::RequestMilestone(2)));
    assert!(matches!(r[r.len() - 1], SolidifierAction::Solidify { solidifier: 0, index: 1, .. }));
}

#[test]
fn milestone_events_update_indices() {
    let mut t = Tangle::new(3);
    on_last_milestone_changed(&mut t, 8);
    assert_eq!(t.last_milestone_index(), 8);
    let hb = on_last_solid_milestone_changed(&mut t, 5);
    assert_eq!(t.last_solid_milestone_index(), 5);
    assert_eq!(hb, Heartbeat::new(5, 3, 8));
}
