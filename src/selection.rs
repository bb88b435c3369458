use vstd::prelude::*;
use crate::hash::TernaryHash;
use crate::tangle::{Entry, Tangle, same_structure};
use crate::tsa::{Score, TsaMetadata, draw_weighted, pick_weighted, prefix_weight, score_spec, tip_score};

verus! {

/// The value of an index that is set, 0 otherwise.
pub open spec fn index_or_zero(o: Option<u32>) -> u32 {
    match o {
        Some(v) => v,
        None => 0,
    }
}

fn index_or_zero_exec(o: Option<u32>) -> (r: u32)
    ensures
        r == index_or_zero(o),
{
    match o {
        Some(v) => v,
        None => 0,
    }
}

impl Tangle {
    /// The score of the transaction in slot `i`, from the last solid
    /// milestone index, its OTRSI and YTRSI, and the OTRSI its parents hand down.
    pub open spec fn score_at(&self, i: int) -> Score {
        let e = self.e(i);
        score_spec(
            self.last_solid_index,
            index_or_zero(e.tsa.otrsi),
            index_or_zero(e.tsa.ytrsi),
            self.parent_otrsi(e.tx.trunk, e.trunk_slot),
            self.parent_otrsi(e.tx.branch, e.branch_slot),
        )
    }

    /// Scores the transaction in slot `i` as a tip.
    pub fn tip_score_at(&self, i: usize) -> (r: Score)
        requires
            self.wf(),
            i < self.len(),
        ensures
            r == self.score_at(i as int),
    {
        let e = self.entries[i];
        proof {
            assert(self.slot_matches(self.e(i as int).tx.trunk, self.e(i as int).trunk_slot));
            assert(self.slot_matches(self.e(i as int).tx.branch, self.e(i as int).branch_slot));
        }
        let (trunk_otrsi, _) = self.parent_values_of(&e.tx.trunk, e.trunk_slot);
        let (branch_otrsi, _) = self.parent_values_of(&e.tx.branch, e.branch_slot);
        tip_score(
            self.last_solid_index,
            index_or_zero_exec(e.tsa.otrsi),
            index_or_zero_exec(e.tsa.ytrsi),
            trunk_otrsi,
            branch_otrsi,
        )
    }

    /// A tip that may still be selected: fewer than two selections so far.
    pub open spec fn is_candidate(&self, i: int) -> bool {
        self.is_tip(i) && self.e(i).tsa.selected < 2
    }

    /// The tips that may still be selected, in slot order, and the weight of
    /// each one's score.
    pub fn tip_candidates(&self) -> (r: (Vec<usize>, Vec<u64>))
        requires
            self.wf(),
        ensures
            r.0@.len() == r.1@.len(),
            r.0@.len() <= self.len(),
            forall|k: int| 0 <= k < r.0@.len() ==> {
                &&& (#[trigger] r.0@[k]) < self.len()
                &&& self.is_candidate(r.0@[k] as int)
                &&& r.1@[k] == self.score_at(r.0@[k] as int).weight_spec()
            },
            forall|i: int| 0 <= i < self.len() && self.is_candidate(i) ==> #[trigger] r.0@.contains(i as usize),
    {
        let tips = self.tips();
        let mut cands: Vec<usize> = Vec::new();
        let mut weights: Vec<u64> = Vec::new();
        let mut k: usize = 0;
        while k < tips.len()
            invariant
                self.wf(),
                k <= tips@.len(),
                forall|q: int| 0 <= q < tips@.len() ==> tips@[q] < self.len() && self.is_tip(#[trigger] tips@[q] as int),
                forall|i: int| 0 <= i < self.len() && self.is_tip(i) ==> #[trigger] tips@.contains(i as usize),
                cands@.len() == weights@.len(),
                cands@.len() <= k,
                forall|q: int| 0 <= q < cands@.len() ==> {
                    &&& (#[trigger] cands@[q]) < self.len()
                    &&& self.is_candidate(cands@[q] as int)
                    &&& weights@[q] == self.score_at(cands@[q] as int).weight_spec()
                },
                forall|q: int| 0 <= q < k && self.is_candidate(tips@[q] as int) ==> #[trigger] cands@.contains(tips@[q]),
            decreases tips@.len() - k,
        {
            let s = tips[k];
            if self.entries[s].tsa.selected < 2 {
                let w = self.tip_score_at(s).weight();
                let ghost c0 = cands@;
                cands.push(s);
                weights.push(w);
                proof {
                    assert(cands@[c0.len() as int] == s);
                    assert forall|q: int| 0 <= q < k + 1 && self.is_candidate(tips@[q] as int) implies #[trigger] cands@.contains(tips@[q]) by {
                        if q < k {
                            assert(c0.contains(tips@[q]));
                            let j = choose|j: int| 0 <= j < c0.len() && c0[j] == tips@[q];
                            assert(cands@[j] == tips@[q]);
                        }
                    }
                }
            }
            k += 1;
        }
        proof {
            assert forall|i: int| 0 <= i < self.len() && self.is_candidate(i) implies #[trigger] cands@.contains(i as usize) by {
                assert(tips@.contains(i as usize));
                let q = choose|q: int| 0 <= q < tips@.len() && tips@[q] == i as usize;
                assert(cands@.contains(tips@[q]));
            }
        }
        (cands, weights)
    }

    /// Selects a tip, drawn by weight among the tips that may still be
    /// selected, and counts the selection. `None` when no such tip has a
    /// positive weight.
    pub fn select_tip(&mut self) -> (r: Option<TernaryHash>)
        requires
            old(self).wf(),
            old(self).len() <= 0x3fff_ffff_ffff_ffff,
        ensures
            final(self).wf(),
            old(self).confirmation_closed() ==> final(self).confirmation_closed(),
            final(self).len() == old(self).len(),
            r is None <==> forall|i: int| 0 <= i < old(self).len() && old(self).is_candidate(i) ==> old(self).score_at(i) == Score::Lazy,
            r is None ==> *final(self) == *old(self),
            r matches Some(h) ==> exists|i: int| {
                &&& 0 <= i < old(self).len()
                &&& #[trigger] old(self).e(i).hash == h
                &&& old(self).is_candidate(i)
                &&& old(self).score_at(i) != Score::Lazy
                &&& final(self).e(i) == (Entry {
                    tsa: TsaMetadata { selected: (old(self).e(i).tsa.selected + 1) as u8, ..old(self).e(i).tsa },
                    ..old(self).e(i)
                })
                &&& forall|j: int| 0 <= j < old(self).len() && j != i ==> #[trigger] final(self).e(j) == old(self).e(j)
            },
    {
        let (cands, weights) = self.tip_candidates();
        proof {
            assert forall|k: int| 0 <= k < weights@.len() implies weights@[k] <= 2 by {
                assert(weights@[k] == self.score_at(cands@[k] as int).weight_spec());
            }
            lemma_prefix_bounded(weights@, weights@.len() as int);
            lemma_prefix_zero(weights@, weights@.len() as int);
            assert((forall|k: int| 0 <= k < weights@.len() ==> weights@[k] == 0) <==> forall|i: int|
                0 <= i < self.len() && self.is_candidate(i) ==> self.score_at(i) == Score::Lazy) by {
                if forall|k: int| 0 <= k < weights@.len() ==> weights@[k] == 0 {
                    assert forall|i: int| 0 <= i < self.len() && self.is_candidate(i) implies self.score_at(i) == Score::Lazy by {
                        assert(cands@.contains(i as usize));
                        let k = choose|k: int| 0 <= k < cands@.len() && cands@[k] == i as usize;
                        assert(weights@[k] == 0);
                    }
                }
                if forall|i: int| 0 <= i < self.len() && self.is_candidate(i) ==> self.score_at(i) == Score::Lazy {
                    assert forall|k: int| 0 <= k < weights@.len() implies weights@[k] == 0 by {
                        assert(self.is_candidate(cands@[k] as int));
                    }
                }
            }
        }
        match draw_weighted(&weights) {
            None => None,
            Some(k) => {
                let s = cands[k];
                let mut e = self.entries[s];
                let h = e.hash;
                e.tsa.selected = e.tsa.selected + 1;
                let ghost before = *self;
                self.entries.set(s, e);
                proof {
                    assert forall|j: int| 0 <= j < self.len() && j != s implies #[trigger] self.e(j) == before.e(j) by {}
                    assert forall|j: int| 0 <= j < self.len() implies same_structure(#[trigger] before.e(j), self.e(j)) || j == s by {}
                    lemma_selected_keeps_wf(before, *self, s as int);
                    if before.confirmation_closed() {
                        crate::tangle::lemma_closed_kept(before, *self);
                    }
                    assert(before.score_at(s as int).weight_spec() > 0);
                }
                Some(h)
            },
        }
    }
}

proof fn lemma_prefix_bounded(w: Seq<u64>, n: int)
    requires
        0 <= n <= w.len(),
        forall|k: int| 0 <= k < w.len() ==> w[k] <= 2,
    ensures
        0 <= prefix_weight(w, n) <= 2 * n,
    decreases n,
{
    if n > 0 {
        lemma_prefix_bounded(w, n - 1);
    }
}

proof fn lemma_prefix_zero(w: Seq<u64>, n: int)
    requires
        0 <= n <= w.len(),
    ensures
        prefix_weight(w, n) == 0 <==> forall|k: int| 0 <= k < n ==> w[k] == 0,
    decreases n,
{
    if n > 0 {
        lemma_prefix_zero(w, n - 1);
        crate::tsa::lemma_prefix_weight_monotone(w, 0, n - 1);
    }
}

/// Counting a selection changes nothing that the invariant reads.
proof fn lemma_selected_keeps_wf(a: Tangle, b: Tangle, s: int)
    requires
        a.wf(),
        0 <= s < a.len(),
        b.len() == a.len(),
        forall|j: int| 0 <= j < b.len() && j != s ==> #[trigger] b.e(j) == a.e(j),
        b.e(s).hash == a.e(s).hash,
        b.e(s).tx == a.e(s).tx,
        b.e(s).meta == a.e(s).meta,
        b.e(s).tsa.otrsi == a.e(s).tsa.otrsi,
        b.e(s).tsa.ytrsi == a.e(s).tsa.ytrsi,
        b.e(s).trunk_slot == a.e(s).trunk_slot,
        b.e(s).branch_slot == a.e(s).branch_slot,
        b.e(s).rank == a.e(s).rank,
        b.seps == a.seps,
        b.solid_order == a.solid_order,
        b.snapshot_index == a.snapshot_index,
        b.last_solid_index == a.last_solid_index,
        b.last_index == a.last_index,
    ensures
        b.wf(),
{
    assert forall|m: int| 0 <= m < a.len() implies same_structure(#[trigger] a.e(m), b.e(m)) || m == s by {}
    assert forall|j: int| 0 <= j < b.len() implies {
        &&& (#[trigger] b.e(j)).hash == a.e(j).hash
        &&& b.e(j).tx == a.e(j).tx
        &&& b.e(j).meta == a.e(j).meta
        &&& b.e(j).tsa.otrsi == a.e(j).tsa.otrsi
        &&& b.e(j).tsa.ytrsi == a.e(j).tsa.ytrsi
        &&& b.e(j).rank == a.e(j).rank
        &&& b.e(j).trunk_slot == a.e(j).trunk_slot
        &&& b.e(j).branch_slot == a.e(j).branch_slot
    } by {}
    assert(b.slots_ok()) by {
        assert forall|j: int| 0 <= j < b.len() implies
            b.slot_matches((#[trigger] b.e(j)).tx.trunk, b.e(j).trunk_slot)
            && b.slot_matches(b.e(j).tx.branch, b.e(j).branch_slot) by {
            assert(a.slot_matches(a.e(j).tx.trunk, a.e(j).trunk_slot));
            assert(a.slot_matches(a.e(j).tx.branch, a.e(j).branch_slot));
        }
    }
    assert(b.unique());
    assert(b.solid_closed()) by {
        assert forall|j: int| 0 <= j < b.len() implies ((#[trigger] b.e(j)).meta.solid <==> b.parents_ok(j)) by {
            assert(a.e(j).meta.solid <==> a.parents_ok(j));
        }
    }
    assert(b.order_ok()) by {
        assert forall|j: int| 0 <= j < b.len() && (#[trigger] b.e(j)).meta.solid
            implies {
                &&& b.e(j).rank < b.solid_order@.len()
                &&& b.solid_order@[b.e(j).rank as int] == j
                &&& b.parent_ranked(b.e(j).tx.trunk, b.e(j).trunk_slot, b.e(j).rank)
                &&& b.parent_ranked(b.e(j).tx.branch, b.e(j).branch_slot, b.e(j).rank)
            } by {
            assert(a.e(j).meta.solid);
        }
        assert forall|q: int| 0 <= q < b.solid_order@.len() implies {
            let x = #[trigger] b.solid_order@[q];
            &&& x < b.len()
            &&& b.e(x as int).meta.solid
            &&& b.e(x as int).rank == q
        } by {
            let x = a.solid_order@[q];
            assert(a.e(x as int).meta.solid);
        }
    }
    assert(b.tsa_ok()) by {
        assert forall|j: int| 0 <= j < b.len() implies #[trigger] b.tsa_exact(j) && b.tsa_ordered(j) by {
            assert(a.tsa_exact(j));
            assert(a.tsa_ordered(j));
        }
    }
}

} // verus!
