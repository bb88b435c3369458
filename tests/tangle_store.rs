use bee_core::hash::{hash_eq, slice_eq, TernaryHash};
use bee_core::solidifier::missing_ancestors;
use bee_core::tangle::{Tangle, Transaction};

fn h(b: u8) -> TernaryHash {
    TernaryHash::from_byte(b)
}

fn tx(trunk: u8, branch: u8, current: u64) -> Transaction {
    Transaction {
        address: h(200),
        value: 0,
        bundle: h(201),
        trunk: h(trunk),
        branch: h(branch),
        current_index: current,
        last_index: current,
        timestamp: 0,
    }
}

const G: u8 = 1;

fn slot(t: &Tangle, b: u8) -> usize {
    t.find(&h(b)).expect("transaction present")
}

#[test]
fn gap_then_fill() {
    let mut t = Tangle::new(5);
    t.add_solid_entry_point(h(G));
    assert!(t.insert(tx(7, G, 0), h(5), 0));
    assert!(!t.is_solid(&h(5)));
    assert!(!t.is_solid(&h(7)));
    assert!(t.find(&h(7)).is_none());
    assert_eq!(t.entries[slot(&t, 5)].tsa.otrsi, None);
    assert_eq!(missing_ancestors(&t, slot(&t, 5)), vec![h(7)]);
    assert!(t.insert(tx(G, G, 0), h(7), 0));
    assert!(missing_ancestors(&t, slot(&t, 5)).is_empty());
    assert!(t.is_solid(&h(7)));
    assert!(t.is_solid(&h(5)));
    let p = t.entries[slot(&t, 7)].tsa;
    let c = t.entries[slot(&t, 5)].tsa;
    assert_eq!(p.otrsi, Some(5));
    assert_eq!(c.otrsi, p.otrsi);
    assert_eq!(c.ytrsi, p.ytrsi);
}

#[test]
fn reinsert_is_a_no_op() {
    let mut t = Tangle::new(0);
    t.add_solid_entry_point(h(G));
    assert!(t.insert(tx(G, G, 0), h(2), 7));
    assert!(!t.insert(tx(G, G, 3), h(2), 9));
    assert_eq!(t.entries.len(), 1);
    assert_eq!(t.entries[0].meta.arrival_timestamp, 7);
    assert!(t.entries[0].meta.tail);
}

#[test]
fn insert_order_does_not_matter() {
    let mut ab = Tangle::new(3);
    ab.add_solid_entry_point(h(G));
    assert!(ab.insert(tx(G, G, 0), h(2), 0));
    assert!(ab.insert(tx(2, G, 0), h(3), 0));
    let mut ba = Tangle::new(3);
    ba.add_solid_entry_point(h(G));
    assert!(ba.insert(tx(2, G, 0), h(3), 0));
    assert!(ba.insert(tx(G, G, 0), h(2), 0));
    for b in [2u8, 3u8] {
        let x = ab.entries[slot(&ab, b)];
        let y = ba.entries[slot(&ba, b)];
        assert_eq!(x.meta.solid, y.meta.solid);
        assert_eq!(x.tsa.otrsi, y.tsa.otrsi);
        assert_eq!(x.tsa.ytrsi, y.tsa.ytrsi);
    }
}

#[test]
fn late_solid_entry_point_solidifies() {
    let mut t = Tangle::new(2);
    assert!(t.insert(tx(9, 9, 0), h(2), 0));
    assert!(!t.is_solid(&h(2)));
    t.add_solid_entry_point(h(9));
    assert!(t.is_solid(&h(2)));
    assert!(t.is_solid(&h(9)));
    assert_eq!(t.entries[0].tsa.ytrsi, Some(2));
}

#[test]
fn children_and_tips() {
    let mut t = Tangle::new(0);
    t.add_solid_entry_point(h(G));
    assert!(t.insert(tx(G, G, 0), h(2), 0));
    assert!(t.insert(tx(2, G, 0), h(3), 0));
    assert!(t.insert(tx(2, 3, 0), h(4), 0));
    assert_eq!(t.children(slot(&t, 2)), vec![slot(&t, 3), slot(&t, 4)]);
    assert_eq!(t.tips(), vec![slot(&t, 4)]);
    assert_eq!(t.num_tips(), 1);
}

#[test]
fn milestone_indices() {
    let mut t = Tangle::new(4);
    assert_eq!(t.snapshot_milestone_index(), 4);
    t.update_last_solid_milestone_index(6);
    assert_eq!(t.last_solid_milestone_index(), 6);
    assert_eq!(t.last_milestone_index(), 6);
    t.update_last_milestone_index(9);
    t.update_last_milestone_index(8);
    assert_eq!(t.last_milestone_index(), 9);
    t.add_milestone(7, h(3));
    assert_eq!(t.milestone_hash(7), Some(h(3)));
    assert!(t.contains_milestone(7));
    assert!(!t.contains_milestone(8));
}

#[test]
fn hash_comparison() {
    let a = [3u8; 49];
    let mut b = [3u8; 49];
    assert!(slice_eq(&a, &b));
    b[48] = 4;
    assert!(!slice_eq(&a, &b));
    assert!(hash_eq(&h(1), &h(1)));
    assert!(!hash_eq(&h(1), &h(2)));
    assert!(h(5) == TernaryHash::new({
        let mut x = [0u8; 49];
        x[0] = 5;
        x
    }));
}

#[test]
fn missing_ancestors_deep() {
    let mut t = Tangle::new(0);
    t.add_solid_entry_point(h(G));
    // 4 -> (3, 8); 3 -> (9, 8): 8 and 9 are missing
    assert!(t.insert(tx(9, 8, 0), h(3), 0));
    assert!(t.insert(tx(3, 8, 0), h(4), 0));
    assert_eq!(missing_ancestors(&t, slot(&t, 4)), vec![h(8), h(9)]);
}
