use vstd::prelude::*;
use crate::hash::TernaryHash;
use crate::ledger::{IOTA_SUPPLY, LedgerState, sum_of};
use crate::tangle::{Tangle, max_u32, min_u32};

verus! {

/// A parent counts as solid, by its hash: it is a solid-entry-point or a
/// solid transaction of the tangle.
pub open spec fn parent_solid(t: Tangle, h: TernaryHash) -> bool {
    t.is_sep(h) || exists|j: int| 0 <= j < t.len() && (#[trigger] t.e(j)).hash == h && t.e(j).meta.solid
}

/// In a well-formed tangle, a transaction is solid exactly when both of its
/// parents are solid-entry-points or solid transactions of the tangle.
pub proof fn lemma_solid_iff_parents_solid(t: Tangle, i: int)
    requires
        t.wf(),
        0 <= i < t.len(),
    ensures
        t.e(i).meta.solid <==> parent_solid(t, t.e(i).tx.trunk) && parent_solid(t, t.e(i).tx.branch),
{
    assert(t.slot_matches(t.e(i).tx.trunk, t.e(i).trunk_slot));
    assert(t.slot_matches(t.e(i).tx.branch, t.e(i).branch_slot));
    assert(t.e(i).meta.solid <==> t.parents_ok(i));
    assert forall|h: TernaryHash, s: Option<usize>| t.slot_matches(h, s) implies #[trigger] t.parent_ok(h, s) == parent_solid(t, h) by {
        if parent_solid(t, h) && !t.is_sep(h) {
            let j = choose|j: int| 0 <= j < t.len() && (#[trigger] t.e(j)).hash == h && t.e(j).meta.solid;
            match s {
                Some(x) => {
                    if x != j {
                        assert(t.e(x as int).hash != t.e(j).hash);
                    }
                },
                None => {
                    assert(t.e(j).hash != h);
                },
            }
        }
    }
}

/// OTRSI and YTRSI: both set on what is solid or confirmed, OTRSI never
/// above YTRSI; the milestone index once confirmed; else the minimum and
/// maximum of what the parents hand down (the snapshot index for a
/// solid-entry-point).
pub proof fn lemma_otrsi_ytrsi(t: Tangle, i: int)
    requires
        t.wf(),
        0 <= i < t.len(),
        t.e(i).meta.solid || t.e(i).meta.milestone_index is Some,
    ensures
        t.e(i).tsa.otrsi matches Some(o) && t.e(i).tsa.ytrsi matches Some(y) && o <= y,
        t.e(i).meta.milestone_index matches Some(m) ==> t.e(i).tsa.otrsi == Some(m) && t.e(i).tsa.ytrsi == Some(m),
        t.e(i).meta.milestone_index is None ==> {
            &&& t.e(i).tsa.otrsi == Some(
                min_u32(
                    t.parent_otrsi(t.e(i).tx.trunk, t.e(i).trunk_slot),
                    t.parent_otrsi(t.e(i).tx.branch, t.e(i).branch_slot),
                ),
            )
            &&& t.e(i).tsa.ytrsi == Some(
                max_u32(
                    t.parent_ytrsi(t.e(i).tx.trunk, t.e(i).trunk_slot),
                    t.parent_ytrsi(t.e(i).tx.branch, t.e(i).branch_slot),
                ),
            )
        },
{
    assert(t.tsa_exact(i));
    assert(t.tsa_ordered(i));
}

/// The snapshot index never exceeds the last solid milestone index, nor that
/// the last milestone index.
pub proof fn lemma_indices_ordered(t: Tangle)
    requires
        t.wf(),
    ensures
        t.snapshot_index <= t.last_solid_index <= t.last_index,
{
}

/// The balances of a well-formed ledger sum to the supply, and each lies
/// between 0 and the supply.
pub proof fn lemma_supply(l: LedgerState, a: TernaryHash)
    requires
        l.wf(),
    ensures
        sum_of(l.balances@) == IOTA_SUPPLY,
        0 <= l.balance(a) <= IOTA_SUPPLY,
{
    crate::ledger::lemma_balance_bounded(l, a);
}


/// Every transaction of `a` is in `b` under the same hash, with the same
/// fields and the same confirmation.
pub open spec fn contained_in(a: Tangle, b: Tangle) -> bool {
    forall|i: int|
        0 <= i < a.len() ==> exists|j: int|
            0 <= j < b.len() && #[trigger] b.e(j).hash == #[trigger] a.e(i).hash && b.e(j).tx == a.e(i).tx
                && b.e(j).meta.milestone_index == a.e(i).meta.milestone_index
}

/// Two tangles hold the same transactions, confirmations and
/// solid-entry-points over the same snapshot index, whatever the order in
/// which they were filled.
pub open spec fn same_contents(a: Tangle, b: Tangle) -> bool {
    &&& a.snapshot_index == b.snapshot_index
    &&& forall|h: TernaryHash| #[trigger] a.is_sep(h) == b.is_sep(h)
    &&& contained_in(a, b)
    &&& contained_in(b, a)
}

proof fn lemma_match_slot(a: Tangle, b: Tangle, i: int, j: int)
    requires
        a.wf(),
        b.wf(),
        contained_in(a, b),
        0 <= i < a.len(),
        0 <= j < b.len(),
        b.e(j).hash == a.e(i).hash,
    ensures
        b.e(j).tx == a.e(i).tx,
        b.e(j).meta.milestone_index == a.e(i).meta.milestone_index,
{
    let k = choose|k: int|
        0 <= k < b.len() && #[trigger] b.e(k).hash == #[trigger] a.e(i).hash && b.e(k).tx == a.e(i).tx
            && b.e(k).meta.milestone_index == a.e(i).meta.milestone_index;
    if k != j {
        assert(b.e(k).hash != b.e(j).hash);
    }
}

/// The slot that `b` gives to the parent hash `h`, given that `a` holds it in slot `x`.
proof fn lemma_parent_slot(a: Tangle, b: Tangle, x: int, h: TernaryHash, s: Option<usize>) -> (y: int)
    requires
        a.wf(),
        b.wf(),
        contained_in(a, b),
        0 <= x < a.len(),
        a.e(x).hash == h,
        b.slot_matches(h, s),
    ensures
        s == Some(y as usize),
        0 <= y < b.len(),
        b.e(y).hash == h,
{
    let k = choose|k: int|
        0 <= k < b.len() && #[trigger] b.e(k).hash == #[trigger] a.e(x).hash && b.e(k).tx == a.e(x).tx
            && b.e(k).meta.milestone_index == a.e(x).meta.milestone_index;
    match s {
        Some(y) => y as int,
        None => {
            assert(b.e(k).hash != h);
            k
        },
    }
}

proof fn lemma_solid_carries(a: Tangle, b: Tangle, i: int, j: int)
    requires
        a.wf(),
        b.wf(),
        same_contents(a, b),
        0 <= i < a.len(),
        0 <= j < b.len(),
        b.e(j).hash == a.e(i).hash,
        a.e(i).meta.solid,
    ensures
        b.e(j).meta.solid,
    decreases a.e(i).rank,
{
    lemma_match_slot(a, b, i, j);
    let e = a.e(i);
    assert(a.parents_ok(i));
    assert(a.slot_matches(e.tx.trunk, e.trunk_slot));
    assert(a.slot_matches(e.tx.branch, e.branch_slot));
    assert(b.slot_matches(b.e(j).tx.trunk, b.e(j).trunk_slot));
    assert(b.slot_matches(b.e(j).tx.branch, b.e(j).branch_slot));
    assert(a.parent_ranked(e.tx.trunk, e.trunk_slot, e.rank));
    assert(a.parent_ranked(e.tx.branch, e.branch_slot, e.rank));
    if !a.is_sep(e.tx.trunk) {
        let x = e.trunk_slot->Some_0 as int;
        let y = lemma_parent_slot(a, b, x, e.tx.trunk, b.e(j).trunk_slot);
        lemma_solid_carries(a, b, x, y);
    } else {
        assert(b.is_sep(e.tx.trunk));
    }
    if !a.is_sep(e.tx.branch) {
        let x = e.branch_slot->Some_0 as int;
        let y = lemma_parent_slot(a, b, x, e.tx.branch, b.e(j).branch_slot);
        lemma_solid_carries(a, b, x, y);
    } else {
        assert(b.is_sep(e.tx.branch));
    }
    assert(b.parents_ok(j));
}

proof fn lemma_tsa_carries(a: Tangle, b: Tangle, i: int, j: int)
    requires
        a.wf(),
        b.wf(),
        same_contents(a, b),
        0 <= i < a.len(),
        0 <= j < b.len(),
        b.e(j).hash == a.e(i).hash,
    ensures
        b.e(j).tsa.otrsi == a.e(i).tsa.otrsi,
        b.e(j).tsa.ytrsi == a.e(i).tsa.ytrsi,
    decreases a.e(i).rank,
{
    lemma_match_slot(a, b, i, j);
    let e = a.e(i);
    assert(a.tsa_exact(i));
    assert(b.tsa_exact(j));
    if e.meta.milestone_index is None {
        if e.meta.solid {
            lemma_solid_carries(a, b, i, j);
            assert(a.slot_matches(e.tx.trunk, e.trunk_slot));
            assert(a.slot_matches(e.tx.branch, e.branch_slot));
            assert(b.slot_matches(b.e(j).tx.trunk, b.e(j).trunk_slot));
            assert(b.slot_matches(b.e(j).tx.branch, b.e(j).branch_slot));
            assert(a.parent_ranked(e.tx.trunk, e.trunk_slot, e.rank));
            assert(a.parent_ranked(e.tx.branch, e.branch_slot, e.rank));
            if !a.is_sep(e.tx.trunk) {
                let x = e.trunk_slot->Some_0 as int;
                let y = lemma_parent_slot(a, b, x, e.tx.trunk, b.e(j).trunk_slot);
                lemma_tsa_carries(a, b, x, y);
            } else {
                assert(b.is_sep(e.tx.trunk));
            }
            if !a.is_sep(e.tx.branch) {
                let x = e.branch_slot->Some_0 as int;
                let y = lemma_parent_slot(a, b, x, e.tx.branch, b.e(j).branch_slot);
                lemma_tsa_carries(a, b, x, y);
            } else {
                assert(b.is_sep(e.tx.branch));
            }
        } else {
            if b.e(j).meta.solid {
                lemma_solid_carries(b, a, j, i);
            }
        }
    }
}

/// Order independence: two well-formed tangles with the same contents agree,
/// transaction by transaction, on solidity, OTRSI and YTRSI. So inserting
/// the same transactions in any order ends in the same metadata.
pub proof fn lemma_metadata_independent_of_order(a: Tangle, b: Tangle, i: int, j: int)
    requires
        a.wf(),
        b.wf(),
        same_contents(a, b),
        0 <= i < a.len(),
        0 <= j < b.len(),
        b.e(j).hash == a.e(i).hash,
    ensures
        b.e(j).meta.solid == a.e(i).meta.solid,
        b.e(j).tsa.otrsi == a.e(i).tsa.otrsi,
        b.e(j).tsa.ytrsi == a.e(i).tsa.ytrsi,
{
    if a.e(i).meta.solid {
        lemma_solid_carries(a, b, i, j);
    }
    if b.e(j).meta.solid {
        lemma_solid_carries(b, a, j, i);
    }
    lemma_tsa_carries(a, b, i, j);
}

/// A parent of a transaction confirmed by milestone `m`, by its hash: a
/// solid-entry-point, or a transaction of the tangle confirmed by `m` or an
/// earlier milestone.
pub open spec fn parent_confirmed_by(t: Tangle, h: TernaryHash, m: u32) -> bool {
    t.is_sep(h) || exists|j: int|
        0 <= j < t.len() && (#[trigger] t.e(j)).hash == h && (t.e(j).meta.milestone_index matches Some(mj) && mj <= m)
}

/// Both parents of a confirmed transaction are solid-entry-points or
/// confirmed, by the same milestone or an earlier one; no milestone above
/// the last solid one has confirmed anything. `Tangle::new` establishes
/// `confirmation_closed` and every operation that changes a tangle keeps it.
pub proof fn lemma_confirmed_parents(t: Tangle, i: int)
    requires
        t.wf(),
        t.confirmation_closed(),
        0 <= i < t.len(),
        t.e(i).meta.milestone_index is Some,
    ensures
        t.e(i).meta.milestone_index->Some_0 <= t.last_solid_index,
        parent_confirmed_by(t, t.e(i).tx.trunk, t.e(i).meta.milestone_index->Some_0),
        parent_confirmed_by(t, t.e(i).tx.branch, t.e(i).meta.milestone_index->Some_0),
{
    let e = t.e(i);
    let m = e.meta.milestone_index->Some_0;
    assert(t.slot_matches(e.tx.trunk, e.trunk_slot));
    assert(t.slot_matches(e.tx.branch, e.branch_slot));
    assert(t.parent_confirmed(e.tx.trunk, e.trunk_slot, m));
    assert(t.parent_confirmed(e.tx.branch, e.branch_slot, m));
    if let Some(x) = e.trunk_slot {
        if !t.is_sep(e.tx.trunk) {
            assert(t.e(x as int).hash == e.tx.trunk);
        }
    }
    if let Some(x) = e.branch_slot {
        if !t.is_sep(e.tx.branch) {
            assert(t.e(x as int).hash == e.tx.branch);
        }
    }
}
} // verus!
