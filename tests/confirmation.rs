use bee_core::hash::TernaryHash;
use bee_core::ledger::{LedgerState, IOTA_SUPPLY};
use bee_core::tangle::{Tangle, Transaction};
use bee_core::whiteflag::{confirm_milestone, Error};

fn h(b: u8) -> TernaryHash {
    TernaryHash::from_byte(b)
}

fn tx(address: u8, value: i64, bundle: u8, trunk: u8, branch: u8, current: u64, last: u64) -> Transaction {
    Transaction {
        address: h(address),
        value,
        bundle: h(bundle),
        trunk: h(trunk),
        branch: h(branch),
        current_index: current,
        last_index: last,
        timestamp: 0,
    }
}

const G: u8 = 1;
const X: u8 = 100;
const Y: u8 = 101;
const Z: u8 = 102;

fn genesis() -> (Tangle, LedgerState) {
    let mut t = Tangle::new(0);
    t.add_solid_entry_point(h(G));
    (t, LedgerState::genesis(h(X)))
}

fn slot(t: &Tangle, b: u8) -> usize {
    t.find(&h(b)).expect("transaction present")
}

fn confirm_t1(t: &mut Tangle, l: &mut LedgerState) {
    assert!(t.insert(tx(X, 0, 10, G, G, 0, 0), h(11), 0));
    t.add_milestone(1, h(11));
    confirm_milestone(t, l, 1, 1000).expect("milestone 1 confirms");
}

fn confirm_t2(t: &mut Tangle, l: &mut LedgerState) {
    // tail: -100 from X, trunk is the second transaction of the bundle
    assert!(t.insert(tx(Y, 100, 20, G, G, 1, 1), h(22), 0));
    assert!(t.insert(tx(X, -100, 20, 22, G, 0, 1), h(21), 0));
    t.add_milestone(2, h(21));
    confirm_milestone(t, l, 2, 2000).expect("milestone 2 confirms");
}

#[test]
fn genesis_confirmation() {
    let (mut t, mut l) = genesis();
    confirm_t1(&mut t, &mut l);
    assert_eq!(l.get_or_zero(&h(X)), IOTA_SUPPLY);
    let e = t.entries[slot(&t, 11)];
    assert_eq!(e.meta.milestone_index, Some(1));
    assert!(!e.meta.conflicting);
    assert_eq!(e.tsa.otrsi, Some(1));
    assert_eq!(e.tsa.ytrsi, Some(1));
    assert_eq!(t.last_solid_milestone_index(), 1);
}

#[test]
fn value_transfer() {
    let (mut t, mut l) = genesis();
    confirm_t1(&mut t, &mut l);
    confirm_t2(&mut t, &mut l);
    assert_eq!(l.get_or_zero(&h(X)), IOTA_SUPPLY - 100);
    assert_eq!(l.get_or_zero(&h(Y)), 100);
    let sum: i64 = l.balances.iter().map(|p| p.1).sum();
    assert_eq!(sum, IOTA_SUPPLY);
    let tail = t.entries[slot(&t, 21)];
    assert_eq!(tail.meta.milestone_index, Some(2));
    assert!(!tail.meta.conflicting);
    assert_eq!(t.entries[slot(&t, 22)].meta.milestone_index, Some(2));
}

#[test]
fn conflicting_bundle() {
    let (mut t, mut l) = genesis();
    confirm_t1(&mut t, &mut l);
    confirm_t2(&mut t, &mut l);
    assert!(t.insert(tx(Z, 200, 30, G, G, 1, 1), h(32), 0));
    assert!(t.insert(tx(Y, -200, 30, 32, G, 0, 1), h(31), 0));
    t.add_milestone(3, h(31));
    let m = confirm_milestone(&mut t, &mut l, 3, 3000).expect("milestone 3 confirms");
    let tail = t.entries[slot(&t, 31)];
    assert!(tail.meta.conflicting);
    assert_eq!(tail.meta.milestone_index, Some(3));
    assert_eq!(m.num_tails_conflicting, 1);
    assert!(m.tails_included.is_empty());
    assert_eq!(l.get_or_zero(&h(X)), IOTA_SUPPLY - 100);
    assert_eq!(l.get_or_zero(&h(Y)), 100);
    assert_eq!(l.get_or_zero(&h(Z)), 0);
}

#[test]
fn included_tails_follow_the_walk() {
    let (mut t, mut l) = genesis();
    confirm_t1(&mut t, &mut l);
    // two value bundles under one milestone: the milestone's branch first
    assert!(t.insert(tx(Y, 10, 40, G, G, 1, 1), h(42), 0));
    assert!(t.insert(tx(X, -10, 40, 42, G, 0, 1), h(41), 0));
    assert!(t.insert(tx(Z, 20, 50, G, G, 1, 1), h(52), 0));
    assert!(t.insert(tx(X, -20, 50, 52, G, 0, 1), h(51), 0));
    assert!(t.insert(tx(X, 0, 60, 41, 51, 0, 0), h(61), 0));
    t.add_milestone(2, h(61));
    let m = confirm_milestone(&mut t, &mut l, 2, 5).expect("milestone 2 confirms");
    assert_eq!(m.tails_included, vec![h(51), h(41)]);
    assert_eq!(m.num_tails_referenced, 3);
    assert_eq!(m.num_tails_zero_value, 1);
    assert_eq!(l.get_or_zero(&h(X)), IOTA_SUPPLY - 30);
}

#[test]
fn reconfirming_changes_nothing() {
    let (mut t, mut l) = genesis();
    confirm_t1(&mut t, &mut l);
    let before = l.get_or_zero(&h(X));
    let m = confirm_milestone(&mut t, &mut l, 1, 9999).expect("no-op");
    assert_eq!(m.num_tails_referenced, 0);
    assert_eq!(l.get_or_zero(&h(X)), before);
    assert_eq!(t.last_solid_milestone_index(), 1);
    assert_eq!(t.entries[slot(&t, 11)].meta.confirmation_timestamp, 1000);
}

#[test]
fn not_a_tail_fails() {
    let (mut t, mut l) = genesis();
    assert!(t.insert(tx(X, 0, 10, G, G, 1, 1), h(11), 0));
    t.add_milestone(1, h(11));
    assert_eq!(confirm_milestone(&mut t, &mut l, 1, 0).err(), Some(Error::NotATail));
    assert_eq!(t.last_solid_milestone_index(), 0);
}

#[test]
fn missing_milestone_fails() {
    let (mut t, mut l) = genesis();
    assert_eq!(confirm_milestone(&mut t, &mut l, 1, 0).err(), Some(Error::MissingBundle));
}

#[test]
fn incomplete_bundle_fails() {
    let (mut t, mut l) = genesis();
    // a tail announcing two transactions whose second is not the trunk's bundle mate
    assert!(t.insert(tx(X, 0, 10, G, G, 0, 1), h(11), 0));
    t.add_milestone(1, h(11));
    assert_eq!(confirm_milestone(&mut t, &mut l, 1, 0).err(), Some(Error::MissingBundle));
    assert_eq!(t.entries[slot(&t, 11)].meta.milestone_index, None);
}

#[test]
fn unbalanced_bundle_fails() {
    let (mut t, mut l) = genesis();
    assert!(t.insert(tx(Y, 50, 10, G, G, 0, 0), h(11), 0));
    t.add_milestone(1, h(11));
    assert_eq!(confirm_milestone(&mut t, &mut l, 1, 0).err(), Some(Error::InvalidBundle));
    assert_eq!(l.get_or_zero(&h(Y)), 0);
    assert_eq!(t.last_solid_milestone_index(), 0);
}

#[test]
fn member_branches_are_confirmed() {
    let (mut t, mut l) = genesis();
    assert!(t.insert(tx(X, 0, 70, G, G, 0, 0), h(73), 0));
    assert!(t.insert(tx(X, 0, 71, G, G, 1, 1), h(72), 0));
    assert!(t.insert(tx(X, 0, 71, 72, 73, 0, 1), h(71), 0));
    t.add_milestone(1, h(71));
    let m = confirm_milestone(&mut t, &mut l, 1, 10).expect("milestone 1 confirms");
    assert_eq!(m.num_tails_referenced, 2);
    for b in [71u8, 72, 73] {
        assert_eq!(t.entries[slot(&t, b)].meta.milestone_index, Some(1));
    }
}

#[test]
fn confirmation_order_is_reproducible() {
    let build = || {
        let (mut t, l) = genesis();
        assert!(t.insert(tx(Y, 10, 40, G, G, 1, 1), h(42), 0));
        assert!(t.insert(tx(X, -10, 40, 42, G, 0, 1), h(41), 0));
        assert!(t.insert(tx(Z, 20, 50, G, G, 1, 1), h(52), 0));
        assert!(t.insert(tx(X, -20, 50, 52, G, 0, 1), h(51), 0));
        assert!(t.insert(tx(X, 0, 60, 41, 51, 0, 0), h(61), 0));
        t.add_milestone(1, h(61));
        (t, l)
    };
    let (mut t1, mut l1) = build();
    let (mut t2, mut l2) = build();
    let m1 = confirm_milestone(&mut t1, &mut l1, 1, 5).expect("confirms");
    let m2 = confirm_milestone(&mut t2, &mut l2, 1, 5).expect("confirms");
    assert_eq!(m1.tails_included, m2.tails_included);
    assert_eq!(l1.balances, l2.balances);
}
