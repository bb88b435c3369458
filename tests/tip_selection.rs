use bee_core::hash::TernaryHash;
use bee_core::tangle::{Tangle, Transaction};
use bee_core::tsa::{pick_weighted, tip_score, Score, TsaMetadata};

#[test]
fn semi_lazy_tip() {
    assert_eq!(tip_score(15, 10, 14, 8, 3), Score::SemiLazy);
}

#[test]
fn below_max_depth_is_lazy() {
    assert_eq!(tip_score(30, 10, 29, 30, 30), Score::Lazy);
    assert_eq!(tip_score(30, 10, 29, 0, 0), Score::Lazy);
}

#[test]
fn ytrsi_too_old_is_lazy() {
    assert_eq!(tip_score(20, 19, 17, 20, 20), Score::Lazy);
}

#[test]
fn fresh_tip_is_non_lazy() {
    assert_eq!(tip_score(15, 10, 14, 8, 9), Score::NonLazy);
    assert_eq!(tip_score(15, 10, 14, 2, 3), Score::Lazy);
}

#[test]
fn weights() {
    assert_eq!(Score::Lazy.weight(), 0);
    assert_eq!(Score::SemiLazy.weight(), 1);
    assert_eq!(Score::NonLazy.weight(), 2);
}

#[test]
fn weighted_pick() {
    let w = vec![1u64, 0, 2];
    assert_eq!(pick_weighted(&w, 0), Some(0));
    assert_eq!(pick_weighted(&w, 1), Some(2));
    assert_eq!(pick_weighted(&w, 2), Some(2));
    assert_eq!(pick_weighted(&w, 3), None);
    assert_eq!(pick_weighted(&vec![0u64, 0], 0), None);
}

#[test]
fn new_metadata_is_unset() {
    let m = TsaMetadata::new();
    assert_eq!(m.otrsi, None);
    assert_eq!(m.ytrsi, None);
    assert_eq!(m.selected, 0);
}

fn h(b: u8) -> TernaryHash {
    TernaryHash::from_byte(b)
}

fn tx(trunk: u8, branch: u8) -> Transaction {
    Transaction {
        address: h(200),
        value: 0,
        bundle: h(201),
        trunk: h(trunk),
        branch: h(branch),
        current_index: 0,
        last_index: 0,
        timestamp: 0,
    }
}

#[test]
fn select_tip_counts_and_stops() {
    let mut t = Tangle::new(10);
    t.add_solid_entry_point(h(1));
    assert!(t.insert(tx(1, 1), h(2), 0));
    t.update_last_solid_milestone_index(10);
    assert_eq!(t.tip_score_at(0), Score::NonLazy);
    assert_eq!(t.select_tip(), Some(h(2)));
    assert_eq!(t.entries[0].tsa.selected, 1);
    assert_eq!(t.select_tip(), Some(h(2)));
    assert_eq!(t.select_tip(), None);
}

#[test]
fn lazy_tips_are_not_selected() {
    let mut t = Tangle::new(0);
    t.add_solid_entry_point(h(1));
    assert!(t.insert(tx(1, 1), h(2), 0));
    t.update_last_solid_milestone_index(40);
    assert_eq!(t.tip_score_at(0), Score::Lazy);
    assert_eq!(t.select_tip(), None);
}
